use pdf_merge::allocate::{allocate_ids, IdAllocator};
use pdf_merge::document::Document;
use pdf_merge::graph::migrate_objects;
use pdf_merge::id_map::IdMap;
use pdf_merge::object::{bytes_equal, copy_bytes, Dictionary, Object, ObjectId};
use pdf_merge::table::{search, ObjectTable};

fn id(number: u32, generation: u16) -> ObjectId {
    ObjectId { number, generation }
}

#[test]
fn identifiers_are_ordered_by_number_then_generation() {
    assert!(id(1, 9).precedes(&id(2, 0)));
    assert!(id(2, 0).precedes(&id(2, 1)));
    assert!(!id(2, 1).precedes(&id(2, 1)));
    assert!(!id(2, 1).precedes(&id(2, 0)));
    assert!(!id(3, 0).precedes(&id(2, 5)));
    assert!(id(2, 0) < id(2, 1));
    assert!(id(1, 9) < id(2, 0));
}

#[test]
fn a_table_is_walked_in_ascending_order() {
    let mut table = ObjectTable::new();
    assert!(table.is_empty());
    for (number, generation) in [(7u32, 0u16), (2, 1), (9, 0), (2, 0), (5, 3)] {
        let previous = table.insert(id(number, generation), Object::Integer(number as i64));
        assert_eq!(previous, None);
    }
    assert_eq!(table.len(), 5);
    let ids: Vec<ObjectId> = (0..table.len()).map(|at| table.id_at(at)).collect();
    assert_eq!(ids, vec![id(2, 0), id(2, 1), id(5, 3), id(7, 0), id(9, 0)]);
    assert_eq!(table.object_at(2), &Object::Integer(5));
}

#[test]
fn insert_replaces_and_hands_back_the_previous_object() {
    let mut table = ObjectTable::new();
    table.insert(id(4, 0), Object::Integer(1));
    table.insert(id(6, 0), Object::Integer(2));
    let previous = table.insert(id(4, 0), Object::Boolean(true));
    assert_eq!(previous, Some(Object::Integer(1)));
    assert_eq!(table.len(), 2);
    assert_eq!(table.get(&id(4, 0)), Some(&Object::Boolean(true)));
    assert_eq!(table.get(&id(6, 0)), Some(&Object::Integer(2)));
}

#[test]
fn lookups_find_what_is_held_and_nothing_else() {
    let mut table = ObjectTable::new();
    for number in [10u32, 20, 30, 40] {
        table.insert(id(number, 0), Object::Integer(number as i64));
    }
    assert_eq!(table.position(&id(10, 0)), Some(0));
    assert_eq!(table.position(&id(40, 0)), Some(3));
    assert_eq!(table.position(&id(25, 0)), None);
    assert_eq!(table.position(&id(20, 1)), None);
    assert!(table.contains_key(&id(30, 0)));
    assert!(!table.contains_key(&id(5, 0)));
    assert!(!table.contains_key(&id(50, 0)));
    assert_eq!(table.get(&id(41, 0)), None);
}

#[test]
fn an_object_is_changed_in_place() {
    let mut table = ObjectTable::new();
    table.insert(id(1, 0), Object::Integer(1));
    table.insert(id(2, 0), Object::Integer(2));
    *table.object_at_mut(1) = Object::Null;
    assert_eq!(table.get(&id(1, 0)), Some(&Object::Integer(1)));
    assert_eq!(table.get(&id(2, 0)), Some(&Object::Null));
}

#[test]
fn search_gives_the_place_or_where_to_insert() {
    let entries: Vec<(ObjectId, u8)> =
        vec![(id(2, 0), 0), (id(4, 0), 0), (id(4, 2), 0), (id(8, 0), 0)];
    assert_eq!(search(&entries, &id(2, 0)), Ok(0));
    assert_eq!(search(&entries, &id(4, 2)), Ok(2));
    assert_eq!(search(&entries, &id(1, 0)), Err(0));
    assert_eq!(search(&entries, &id(4, 1)), Err(2));
    assert_eq!(search(&entries, &id(9, 0)), Err(4));
    let none: Vec<(ObjectId, u8)> = Vec::new();
    assert_eq!(search(&none, &id(1, 0)), Err(0));
}

#[test]
fn an_id_map_holds_the_last_target_of_each_identifier() {
    let mut map = IdMap::new();
    assert_eq!(map.get(&id(1, 0)), None);
    map.insert(id(5, 0), id(1, 0));
    map.insert(id(2, 0), id(2, 0));
    map.insert(id(5, 0), id(3, 0));
    assert_eq!(map.get(&id(5, 0)), Some(id(3, 0)));
    assert_eq!(map.get(&id(2, 0)), Some(id(2, 0)));
    assert_eq!(map.get(&id(5, 1)), None);
}

#[test]
fn ids_are_allocated_in_ascending_order_of_the_old_ones() {
    let mut table = ObjectTable::new();
    for (number, generation) in [(30u32, 0u16), (10, 5), (20, 0), (10, 0)] {
        table.insert(id(number, generation), Object::Null);
    }
    let mut allocator = IdAllocator::new();
    allocator.allocate();
    allocator.allocate();
    let map = allocate_ids(&table, &mut allocator);
    assert_eq!(map.get(&id(10, 0)), Some(id(3, 0)));
    assert_eq!(map.get(&id(10, 5)), Some(id(4, 0)));
    assert_eq!(map.get(&id(20, 0)), Some(id(5, 0)));
    assert_eq!(map.get(&id(30, 0)), Some(id(6, 0)));
    assert_eq!(map.get(&id(3, 0)), None);
    assert_eq!(allocator.next_number(), 7);
}

#[test]
fn the_allocator_is_not_reset_between_documents() {
    let mut first = ObjectTable::new();
    first.insert(id(8, 0), Object::Reference(id(9, 0)));
    first.insert(id(9, 0), Object::Reference(id(8, 0)));
    let mut second = ObjectTable::new();
    second.insert(id(8, 0), Object::Reference(id(8, 0)));

    let mut allocator = IdAllocator::new();
    let mut merged = ObjectTable::new();
    let first_map = migrate_objects(&first, &mut allocator, &mut merged);
    let second_map = migrate_objects(&second, &mut allocator, &mut merged);

    assert_eq!(first_map.get(&id(8, 0)), Some(id(1, 0)));
    assert_eq!(first_map.get(&id(9, 0)), Some(id(2, 0)));
    assert_eq!(second_map.get(&id(8, 0)), Some(id(3, 0)));
    assert_eq!(allocator.next_number(), 4);
    assert_eq!(merged.len(), 3);
    // A forward reference and a cycle both resolve through the whole map.
    assert_eq!(merged.get(&id(1, 0)), Some(&Object::Reference(id(2, 0))));
    assert_eq!(merged.get(&id(2, 0)), Some(&Object::Reference(id(1, 0))));
    assert_eq!(merged.get(&id(3, 0)), Some(&Object::Reference(id(3, 0))));
}

#[test]
fn a_document_numbers_its_objects() {
    let mut document = Document::with_version("1.7");
    assert_eq!(document.version, "1.7");
    assert_eq!(document.max_id, 0);
    assert!(document.trailer.is_empty());
    assert!(document.objects.is_empty());
    assert_eq!(document.new_object_id(), id(1, 0));
    assert_eq!(document.new_object_id(), id(2, 0));
    assert_eq!(document.add_object(Object::Integer(3)), id(3, 0));
    assert_eq!(document.max_id, 3);
    assert_eq!(document.objects.len(), 1);
    assert_eq!(document.objects.get(&id(3, 0)), Some(&Object::Integer(3)));
}

#[test]
fn a_dictionary_keeps_the_order_of_its_entries() {
    let mut dict = Dictionary::new();
    assert!(dict.is_empty());
    dict.set(b"B".to_vec(), Object::Integer(1));
    dict.set(b"A".to_vec(), Object::Integer(2));
    dict.set(b"C".to_vec(), Object::Integer(3));
    dict.set(b"A".to_vec(), Object::Integer(4));
    assert_eq!(dict.len(), 3);
    assert!(dict.has(b"A"));
    assert!(!dict.has(b"a"));
    assert!(!dict.has(b""));
    assert_eq!(dict.get(b"A"), Some(&Object::Integer(4)));
    assert_eq!(dict.get(b"AB"), None);
    let entries: Vec<(Vec<u8>, Object)> = vec![
        (b"B".to_vec(), Object::Integer(1)),
        (b"A".to_vec(), Object::Integer(4)),
        (b"C".to_vec(), Object::Integer(3)),
    ];
    assert_eq!(dict.entries(), &entries);
    assert_eq!(dict.clone(), dict);
}

#[test]
fn bytes_are_compared_and_copied() {
    assert!(bytes_equal(b"Parent", b"Parent"));
    assert!(bytes_equal(b"", b""));
    assert!(!bytes_equal(b"Parent", b"Paren"));
    assert!(!bytes_equal(b"Parent", b"parent"));
    assert!(!bytes_equal(b"Parena", b"Parent"));
    let bytes = vec![0u8, 255, 7];
    assert_eq!(copy_bytes(&bytes), bytes);
    assert_eq!(copy_bytes(&Vec::new()), Vec::<u8>::new());
}
