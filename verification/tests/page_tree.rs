use pdf_merge::id_map::IdMap;
use pdf_merge::names::{
    catalog_name, count_key, kids_key, pages_name, parent_key, root_key, type_key,
};
use pdf_merge::object::{Dictionary, Object, ObjectId, Stream};
use pdf_merge::page_order::migrate_pages;
use pdf_merge::page_tree::{build_pages_node, reparent_pages, set_parent};
use pdf_merge::table::ObjectTable;

fn id(number: u32) -> ObjectId {
    ObjectId { number, generation: 0 }
}

#[test]
fn keys_and_names_are_spelled_in_ascii() {
    assert_eq!(type_key(), b"Type".to_vec());
    assert_eq!(kids_key(), b"Kids".to_vec());
    assert_eq!(count_key(), b"Count".to_vec());
    assert_eq!(parent_key(), b"Parent".to_vec());
    assert_eq!(pages_name(), b"Pages".to_vec());
    assert_eq!(catalog_name(), b"Catalog".to_vec());
    assert_eq!(root_key(), b"Root".to_vec());
}

#[test]
fn the_pages_node_lists_its_kids_and_counts_them() {
    let node = build_pages_node(&vec![id(4), id(2), id(9)]);
    let mut expected = Dictionary::new();
    expected.set(b"Type".to_vec(), Object::Name(b"Pages".to_vec()));
    expected.set(
        b"Kids".to_vec(),
        Object::Array(vec![
            Object::Reference(id(4)),
            Object::Reference(id(2)),
            Object::Reference(id(9)),
        ]),
    );
    expected.set(b"Count".to_vec(), Object::Integer(3));
    assert_eq!(node, Object::Dictionary(expected));
}

#[test]
fn a_parent_replaces_the_one_before() {
    let mut dict = Dictionary::new();
    dict.set(b"Parent".to_vec(), Object::Reference(id(1)));
    dict.set(b"Rotate".to_vec(), Object::Integer(90));
    let mut page = Object::Dictionary(dict);
    set_parent(&mut page, id(50));
    let mut expected = Dictionary::new();
    expected.set(b"Parent".to_vec(), Object::Reference(id(50)));
    expected.set(b"Rotate".to_vec(), Object::Integer(90));
    assert_eq!(page, Object::Dictionary(expected));
    // A second time changes nothing.
    let once = page.clone();
    set_parent(&mut page, id(50));
    assert_eq!(page, once);
}

#[test]
fn only_a_dictionary_takes_a_parent() {
    let stream = Stream {
        dict: Dictionary::new(),
        content: b"q Q".to_vec(),
        allows_compression: true,
        start_position: None,
    };
    assert_eq!(stream.clone(), stream);
    for value in [Object::Null, Object::Array(Vec::new()), Object::Stream(stream)] {
        let mut object = value.clone();
        set_parent(&mut object, id(1));
        assert_eq!(object, value);
    }
}

#[test]
fn pages_are_reparented_and_other_objects_left() {
    let mut table = ObjectTable::new();
    for number in 1..=4u32 {
        let mut dict = Dictionary::new();
        dict.set(b"N".to_vec(), Object::Integer(number as i64));
        table.insert(id(number), Object::Dictionary(dict));
    }
    reparent_pages(&mut table, &vec![id(3), id(1), id(3), id(8)], id(4));
    for number in 1..=4u32 {
        let mut expected = Dictionary::new();
        expected.set(b"N".to_vec(), Object::Integer(number as i64));
        if number == 1 || number == 3 {
            expected.set(b"Parent".to_vec(), Object::Reference(id(4)));
        }
        assert_eq!(table.get(&id(number)), Some(&Object::Dictionary(expected)));
    }
    assert_eq!(table.len(), 4);
}

#[test]
fn pages_are_migrated_in_the_order_of_their_keys() {
    let mut map = IdMap::new();
    map.insert(id(10), id(1));
    map.insert(id(11), id(2));
    map.insert(id(12), id(3));
    let mut page_ids = vec![id(100)];
    migrate_pages(&vec![(2, id(11)), (3, id(99)), (1, id(12)), (2, id(10))], &map, &mut page_ids);
    assert_eq!(page_ids, vec![id(100), id(3), id(2), id(1)]);
    migrate_pages(&Vec::new(), &map, &mut page_ids);
    assert_eq!(page_ids.len(), 4);
}
