use pdf_merge::id_map::IdMap;
use pdf_merge::object::{Dictionary, Object, ObjectId, Stream, StringFormat};
use pdf_merge::rewrite::update_references;

fn id(number: u32, generation: u16) -> ObjectId {
    ObjectId { number, generation }
}

fn sample_map() -> IdMap {
    let mut map = IdMap::new();
    map.insert(id(5, 0), id(1, 0));
    map.insert(id(3, 1), id(2, 0));
    map.insert(id(9, 0), id(3, 0));
    map
}

#[test]
fn a_mapped_reference_is_redirected() {
    let mut object = Object::Reference(id(3, 1));
    update_references(&mut object, &sample_map());
    assert_eq!(object, Object::Reference(id(2, 0)));
}

#[test]
fn an_unmapped_reference_is_left_alone() {
    let mut object = Object::Reference(id(3, 0));
    update_references(&mut object, &sample_map());
    assert_eq!(object, Object::Reference(id(3, 0)));
}

#[test]
fn a_reference_is_rewritten_once_and_not_followed() {
    // 9 goes to (3, 0), and (3, 0) is itself a key of the map: a second
    // lookup would send the reference on to (8, 0).
    let mut map = sample_map();
    map.insert(id(3, 0), id(8, 0));
    let mut object = Object::Reference(id(9, 0));
    update_references(&mut object, &map);
    assert_eq!(object, Object::Reference(id(3, 0)));
}

#[test]
fn terminal_values_are_unchanged() {
    let values = vec![
        Object::Null,
        Object::Boolean(false),
        Object::Integer(5),
        Object::Real(0x4048_F5C3),
        Object::Name(b"Five".to_vec()),
        Object::String(b"5 0 R".to_vec(), StringFormat::Literal),
        Object::String(vec![5, 0], StringFormat::Hexadecimal),
    ];
    for value in values {
        let mut object = value.clone();
        update_references(&mut object, &sample_map());
        assert_eq!(object, value);
    }
}

#[test]
fn array_elements_are_rewritten_in_place() {
    let mut object = Object::Array(vec![
        Object::Reference(id(9, 0)),
        Object::Integer(9),
        Object::Array(vec![Object::Reference(id(5, 0)), Object::Reference(id(6, 0))]),
    ]);
    update_references(&mut object, &sample_map());
    assert_eq!(
        object,
        Object::Array(vec![
            Object::Reference(id(3, 0)),
            Object::Integer(9),
            Object::Array(vec![Object::Reference(id(1, 0)), Object::Reference(id(6, 0))]),
        ])
    );
}

#[test]
fn dictionary_values_are_rewritten_and_keys_kept() {
    let mut inner = Dictionary::new();
    inner.set(b"F1".to_vec(), Object::Reference(id(5, 0)));
    let mut dict = Dictionary::new();
    dict.set(b"Parent".to_vec(), Object::Reference(id(3, 1)));
    dict.set(b"Font".to_vec(), Object::Dictionary(inner));
    dict.set(b"Count".to_vec(), Object::Integer(3));
    let mut object = Object::Dictionary(dict);
    update_references(&mut object, &sample_map());

    let mut expected_inner = Dictionary::new();
    expected_inner.set(b"F1".to_vec(), Object::Reference(id(1, 0)));
    let mut expected = Dictionary::new();
    expected.set(b"Parent".to_vec(), Object::Reference(id(2, 0)));
    expected.set(b"Font".to_vec(), Object::Dictionary(expected_inner));
    expected.set(b"Count".to_vec(), Object::Integer(3));
    assert_eq!(object, Object::Dictionary(expected));
}

#[test]
fn a_stream_is_rewritten_in_its_dictionary_only() {
    let mut dict = Dictionary::new();
    dict.set(b"Length".to_vec(), Object::Reference(id(9, 0)));
    let payload = b"5 0 R 9 0 R".to_vec();
    let mut object = Object::Stream(Stream {
        dict,
        content: payload.clone(),
        allows_compression: false,
        start_position: Some(17),
    });
    update_references(&mut object, &sample_map());

    let mut expected = Dictionary::new();
    expected.set(b"Length".to_vec(), Object::Reference(id(3, 0)));
    assert_eq!(
        object,
        Object::Stream(Stream {
            dict: expected,
            content: payload,
            allows_compression: false,
            start_position: Some(17),
        })
    );
}

#[test]
fn an_empty_map_changes_nothing() {
    let untouched = Object::Array(vec![Object::Reference(id(5, 0)), Object::Reference(id(9, 0))]);
    let mut object = untouched.clone();
    update_references(&mut object, &IdMap::new());
    assert_eq!(object, untouched);
}

#[test]
fn a_clone_is_equal_and_independent() {
    let mut dict = Dictionary::new();
    dict.set(b"Kids".to_vec(), Object::Array(vec![Object::Reference(id(5, 0))]));
    let untouched = Object::Dictionary(dict);
    let mut copy = untouched.clone();
    assert_eq!(copy, untouched);
    update_references(&mut copy, &sample_map());
    assert_ne!(copy, untouched);
}
