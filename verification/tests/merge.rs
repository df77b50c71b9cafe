use pdf_merge::document::Document;
use pdf_merge::merge::{build_catalog, merge_documents, Source};
use pdf_merge::object::{Dictionary, Object, ObjectId, Stream, StringFormat};
use pdf_merge::table::ObjectTable;

fn id(number: u32) -> ObjectId {
    ObjectId { number, generation: 0 }
}

fn name(text: &[u8]) -> Object {
    Object::Name(text.to_vec())
}

fn dictionary(entries: Vec<(&[u8], Object)>) -> Dictionary {
    let mut dict = Dictionary::new();
    for (key, value) in entries {
        dict.set(key.to_vec(), value);
    }
    dict
}

fn create_minimal_pdf() -> Source {
    let mut doc = Document::with_version("1.5");
    let pages_id = doc.new_object_id();
    let page_id = doc.new_object_id();
    let font_id = doc.new_object_id();
    let resources_id = doc.new_object_id();
    let content_id = doc.new_object_id();

    let page = dictionary(vec![
        (b"Type", name(b"Page")),
        (b"Parent", Object::Reference(pages_id)),
        (b"Contents", Object::Reference(content_id)),
        (b"Resources", Object::Reference(resources_id)),
        (
            b"MediaBox",
            Object::Array(vec![
                Object::Integer(0),
                Object::Integer(0),
                Object::Integer(612),
                Object::Integer(792),
            ]),
        ),
    ]);

    let fonts = dictionary(vec![(b"F1", Object::Reference(font_id))]);
    let resources = dictionary(vec![(b"Font", Object::Dictionary(fonts))]);

    let font = dictionary(vec![
        (b"Type", name(b"Font")),
        (b"Subtype", name(b"Type1")),
        (b"BaseFont", name(b"Helvetica")),
    ]);

    let content = Stream {
        dict: Dictionary::new(),
        content: b"BT /F1 12 Tf 100 700 Td (Test) Tj ET".to_vec(),
        allows_compression: true,
        start_position: None,
    };

    let pages = dictionary(vec![
        (b"Type", name(b"Pages")),
        (b"Kids", Object::Array(vec![Object::Reference(page_id)])),
        (b"Count", Object::Integer(1)),
    ]);

    doc.objects.insert(page_id, Object::Dictionary(page));
    doc.objects.insert(pages_id, Object::Dictionary(pages));
    doc.objects.insert(font_id, Object::Dictionary(font));
    doc.objects.insert(resources_id, Object::Dictionary(resources));
    doc.objects.insert(content_id, Object::Stream(content));

    let catalog_id = doc.add_object(Object::Dictionary(dictionary(vec![
        (b"Type", name(b"Catalog")),
        (b"Pages", Object::Reference(pages_id)),
    ])));

    doc.trailer.set(b"Root".to_vec(), Object::Reference(catalog_id));
    Source { document: doc, pages: vec![(1, page_id)] }
}

/// A document whose one page carries `mark` as its `Mark` entry, stored
/// under object number `page_number`.
fn marked_document(page_number: u32, mark: i64) -> Source {
    let mut objects = ObjectTable::new();
    objects.insert(
        id(page_number),
        Object::Dictionary(dictionary(vec![
            (b"Type", name(b"Page")),
            (b"Mark", Object::Integer(mark)),
        ])),
    );
    let document = Document {
        version: "1.4".to_string(),
        trailer: Dictionary::new(),
        objects,
        max_id: page_number,
    };
    Source { document, pages: vec![(1, id(page_number))] }
}

fn kids_of(merged: &Document, pages_id: ObjectId) -> Vec<ObjectId> {
    let node = merged.objects.get(&pages_id).expect("the Pages node is in the table");
    let dict = match node {
        Object::Dictionary(dict) => dict,
        other => panic!("the Pages node is {:?}", other),
    };
    assert_eq!(dict.get(b"Type"), Some(&name(b"Pages")));
    let kids = match dict.get(b"Kids") {
        Some(Object::Array(kids)) => kids,
        other => panic!("Kids is {:?}", other),
    };
    assert_eq!(dict.get(b"Count"), Some(&Object::Integer(kids.len() as i64)));
    kids.iter()
        .map(|kid| match kid {
            Object::Reference(page) => *page,
            other => panic!("a kid is {:?}", other),
        })
        .collect()
}

fn root_pages_id(merged: &Document) -> ObjectId {
    let catalog_id = match merged.trailer.get(b"Root") {
        Some(Object::Reference(catalog)) => *catalog,
        other => panic!("Root is {:?}", other),
    };
    match merged.objects.get(&catalog_id) {
        Some(Object::Dictionary(catalog)) => {
            assert_eq!(catalog.get(b"Type"), Some(&name(b"Catalog")));
            match catalog.get(b"Pages") {
                Some(Object::Reference(pages)) => *pages,
                other => panic!("Pages is {:?}", other),
            }
        }
        other => panic!("the catalog is {:?}", other),
    }
}

fn check_references(object: &Object, merged: &Document) {
    match object {
        Object::Reference(target) => {
            assert!(merged.objects.contains_key(target), "{:?} points at nothing", target)
        }
        Object::Array(items) => items.iter().for_each(|item| check_references(item, merged)),
        Object::Dictionary(dict) => {
            dict.entries().iter().for_each(|(_, value)| check_references(value, merged))
        }
        Object::Stream(stream) => {
            stream.dict.entries().iter().for_each(|(_, value)| check_references(value, merged))
        }
        _ => {}
    }
}

#[test]
fn test_merge_pdfs_success() {
    let pdf1 = create_minimal_pdf();
    let pdf2 = create_minimal_pdf();

    let merged = merge_documents(&vec![pdf1, pdf2]);

    let pages = kids_of(&merged, root_pages_id(&merged));
    assert_eq!(pages.len(), 2);

    for page_id in pages.iter() {
        let page = merged.objects.get(page_id).unwrap();
        if let Object::Dictionary(page_dict) = page {
            if let Some(contents_ref) = page_dict.get(b"Contents") {
                match contents_ref {
                    Object::Reference(ref_id) => {
                        assert!(
                            merged.objects.get(ref_id).is_some(),
                            "Contents reference should point to valid object"
                        );
                    }
                    Object::Array(arr) => {
                        for item in arr {
                            if let Object::Reference(ref_id) = item {
                                assert!(
                                    merged.objects.get(ref_id).is_some(),
                                    "Contents array reference should point to valid object"
                                );
                            }
                        }
                    }
                    _ => {}
                }
            }

            if let Some(resources_ref) = page_dict.get(b"Resources") {
                if let Object::Reference(ref_id) = resources_ref {
                    assert!(
                        merged.objects.get(ref_id).is_some(),
                        "Resources reference should point to valid object"
                    );
                }
            }
        } else {
            panic!("a page is {:?}", page);
        }
    }
}

#[test]
fn merged_table_is_numbered_from_one_without_a_gap() {
    let merged = merge_documents(&vec![create_minimal_pdf(), create_minimal_pdf()]);
    assert_eq!(merged.objects.len(), 14);
    for at in 0..merged.objects.len() {
        assert_eq!(merged.objects.id_at(at), id(at as u32 + 1));
    }
    assert_eq!(merged.max_id, 15);
    assert_eq!(merged.version, "1.5");
    assert_eq!(merged.trailer.len(), 1);
    assert_eq!(merged.trailer.get(b"Root"), Some(&Object::Reference(id(14))));
    assert_eq!(root_pages_id(&merged), id(13));
}

#[test]
fn every_reference_of_the_merged_document_resolves() {
    let merged = merge_documents(&vec![create_minimal_pdf(), create_minimal_pdf()]);
    for at in 0..merged.objects.len() {
        check_references(merged.objects.object_at(at), &merged);
    }
    check_references(&Object::Dictionary(merged.trailer.clone()), &merged);
}

#[test]
fn references_follow_their_objects() {
    let merged = merge_documents(&vec![create_minimal_pdf(), create_minimal_pdf()]);
    // In each source: 1 Pages, 2 Page, 3 Font, 4 Resources, 5 Contents, 6 Catalog.
    let second_page = match merged.objects.get(&id(8)) {
        Some(Object::Dictionary(page)) => page,
        other => panic!("the second page is {:?}", other),
    };
    assert_eq!(second_page.get(b"Type"), Some(&name(b"Page")));
    assert_eq!(second_page.get(b"Contents"), Some(&Object::Reference(id(11))));
    assert_eq!(second_page.get(b"Resources"), Some(&Object::Reference(id(10))));
    assert_eq!(second_page.get(b"Parent"), Some(&Object::Reference(id(13))));
    let resources = match merged.objects.get(&id(10)) {
        Some(Object::Dictionary(resources)) => resources,
        other => panic!("the resources are {:?}", other),
    };
    let fonts = dictionary(vec![(b"F1", Object::Reference(id(9)))]);
    assert_eq!(resources.get(b"Font"), Some(&Object::Dictionary(fonts)));
    // The copied page tree of the second source still lists its own page.
    let old_tree = match merged.objects.get(&id(7)) {
        Some(Object::Dictionary(tree)) => tree,
        other => panic!("the copied page tree is {:?}", other),
    };
    assert_eq!(old_tree.get(b"Kids"), Some(&Object::Array(vec![Object::Reference(id(8))])));
}

#[test]
fn every_page_has_the_merged_pages_node_as_parent() {
    let merged = merge_documents(&vec![create_minimal_pdf(), create_minimal_pdf()]);
    let pages_id = root_pages_id(&merged);
    let kids = kids_of(&merged, pages_id);
    assert_eq!(kids, vec![id(2), id(8)]);
    for kid in kids {
        match merged.objects.get(&kid) {
            Some(Object::Dictionary(page)) => {
                assert_eq!(page.get(b"Parent"), Some(&Object::Reference(pages_id)));
            }
            other => panic!("a page is {:?}", other),
        }
    }
}

#[test]
fn parent_keeps_its_place_among_the_entries() {
    let merged = merge_documents(&vec![create_minimal_pdf()]);
    let page = match merged.objects.get(&id(2)) {
        Some(Object::Dictionary(page)) => page,
        other => panic!("the page is {:?}", other),
    };
    let keys: Vec<&[u8]> = page.entries().iter().map(|(key, _)| key.as_slice()).collect();
    let expected: Vec<&[u8]> = vec![b"Type", b"Parent", b"Contents", b"Resources", b"MediaBox"];
    assert_eq!(keys, expected);
}

#[test]
fn a_page_without_parent_gets_one_at_the_end() {
    let merged = merge_documents(&vec![marked_document(7, 42)]);
    let expected = dictionary(vec![
        (b"Type", name(b"Page")),
        (b"Mark", Object::Integer(42)),
        (b"Parent", Object::Reference(id(2))),
    ]);
    assert_eq!(merged.objects.get(&id(1)), Some(&Object::Dictionary(expected)));
}

#[test]
fn pages_come_in_the_order_of_the_sources() {
    let a = marked_document(30, 1);
    let b = marked_document(20, 2);
    let c = marked_document(10, 3);
    let merged = merge_documents(&vec![a, b, c]);
    let kids = kids_of(&merged, root_pages_id(&merged));
    assert_eq!(kids, vec![id(1), id(2), id(3)]);
    let marks: Vec<Option<&Object>> = kids
        .iter()
        .map(|kid| match merged.objects.get(kid) {
            Some(Object::Dictionary(page)) => page.get(b"Mark"),
            other => panic!("a page is {:?}", other),
        })
        .collect();
    assert_eq!(
        marks,
        vec![Some(&Object::Integer(1)), Some(&Object::Integer(2)), Some(&Object::Integer(3))]
    );
}

#[test]
fn two_one_page_documents_give_two_pages_in_order() {
    let merged = merge_documents(&vec![marked_document(1, 100), marked_document(1, 200)]);
    let kids = kids_of(&merged, root_pages_id(&merged));
    assert_eq!(kids.len(), 2);
    let first = merged.objects.get(&kids[0]).unwrap();
    let second = merged.objects.get(&kids[1]).unwrap();
    match (first, second) {
        (Object::Dictionary(first), Object::Dictionary(second)) => {
            assert_eq!(first.get(b"Mark"), Some(&Object::Integer(100)));
            assert_eq!(second.get(b"Mark"), Some(&Object::Integer(200)));
        }
        other => panic!("the pages are {:?}", other),
    }
}

#[test]
fn pages_of_one_document_come_in_the_order_of_their_keys() {
    let mut objects = ObjectTable::new();
    for number in [4u32, 5, 6] {
        objects.insert(
            id(number),
            Object::Dictionary(dictionary(vec![(b"Mark", Object::Integer(number as i64))])),
        );
    }
    let document =
        Document { version: "1.7".to_string(), trailer: Dictionary::new(), objects, max_id: 6 };
    let source = Source { document, pages: vec![(3, id(4)), (1, id(6)), (2, id(5))] };
    let merged = merge_documents(&vec![source]);
    // 4, 5, 6 became 1, 2, 3; the keys order the pages 6, 5, 4.
    assert_eq!(kids_of(&merged, root_pages_id(&merged)), vec![id(3), id(2), id(1)]);
}

#[test]
fn single_one_page_document_gains_two_objects() {
    let source = create_minimal_pdf();
    let before = source.document.objects.len();
    let source_page = match source.document.objects.get(&id(2)) {
        Some(Object::Dictionary(page)) => page.clone(),
        other => panic!("the source page is {:?}", other),
    };
    let merged = merge_documents(&vec![source]);
    assert_eq!(merged.objects.len(), before + 2);
    let pages_id = id(before as u32 + 1);
    let catalog_id = id(before as u32 + 2);
    assert_eq!(kids_of(&merged, pages_id), vec![id(2)]);
    assert_eq!(merged.objects.get(&catalog_id), Some(&build_catalog(pages_id)));
    // The source numbers its objects 1 to 6 already, so its map sends each
    // identifier to itself and the page differs in its parent alone.
    let mut expected = source_page;
    expected.set(b"Parent".to_vec(), Object::Reference(pages_id));
    assert_eq!(merged.objects.get(&id(2)), Some(&Object::Dictionary(expected)));
}

#[test]
fn exactly_one_catalog_and_pages_node_are_added() {
    for count in 0..4usize {
        let sources: Vec<Source> = (0..count).map(|k| marked_document(5, k as i64)).collect();
        let merged = merge_documents(&sources);
        assert_eq!(merged.objects.len(), count + 2);
        let mut catalogs = 0;
        let mut trees = 0;
        for at in 0..merged.objects.len() {
            if let Object::Dictionary(dict) = merged.objects.object_at(at) {
                if dict.get(b"Type") == Some(&name(b"Catalog")) {
                    catalogs += 1;
                }
                if dict.get(b"Type") == Some(&name(b"Pages")) {
                    trees += 1;
                }
            }
        }
        assert_eq!((catalogs, trees), (1, 1));
    }
}

#[test]
fn no_sources_give_an_empty_page_tree() {
    let merged = merge_documents(&Vec::new());
    assert_eq!(merged.objects.len(), 2);
    let expected = dictionary(vec![
        (b"Type", name(b"Pages")),
        (b"Kids", Object::Array(Vec::new())),
        (b"Count", Object::Integer(0)),
    ]);
    assert_eq!(merged.objects.get(&id(1)), Some(&Object::Dictionary(expected)));
    assert_eq!(merged.objects.get(&id(2)), Some(&build_catalog(id(1))));
    assert_eq!(merged.trailer.get(b"Root"), Some(&Object::Reference(id(2))));
    assert_eq!(merged.max_id, 3);
}

#[test]
fn a_document_without_pages_contributes_its_objects_and_no_kid() {
    let mut empty = marked_document(3, 0);
    empty.pages.clear();
    let merged = merge_documents(&vec![empty, marked_document(3, 9)]);
    assert_eq!(merged.objects.len(), 4);
    assert_eq!(kids_of(&merged, id(3)), vec![id(2)]);
    // The first document's object is copied but is no page: it has no parent.
    let expected =
        dictionary(vec![(b"Type", name(b"Page")), (b"Mark", Object::Integer(0))]);
    assert_eq!(merged.objects.get(&id(1)), Some(&Object::Dictionary(expected)));
}

#[test]
fn a_page_that_is_no_object_of_its_document_is_left_out() {
    let mut source = marked_document(3, 1);
    source.pages.push((2, id(99)));
    let merged = merge_documents(&vec![source]);
    assert_eq!(kids_of(&merged, id(2)), vec![id(1)]);
}

#[test]
fn a_page_that_is_no_dictionary_is_listed_and_left_as_it_is() {
    let mut objects = ObjectTable::new();
    objects.insert(id(1), Object::Integer(5));
    let document =
        Document { version: "1.5".to_string(), trailer: Dictionary::new(), objects, max_id: 1 };
    let merged = merge_documents(&vec![Source { document, pages: vec![(1, id(1))] }]);
    assert_eq!(kids_of(&merged, id(2)), vec![id(1)]);
    assert_eq!(merged.objects.get(&id(1)), Some(&Object::Integer(5)));
}

#[test]
fn dangling_references_pass_through() {
    let mut objects = ObjectTable::new();
    objects.insert(
        ObjectId { number: 10, generation: 2 },
        Object::Array(vec![
            Object::Reference(ObjectId { number: 10, generation: 2 }),
            Object::Reference(ObjectId { number: 10, generation: 0 }),
            Object::Reference(id(77)),
        ]),
    );
    let document =
        Document { version: "1.5".to_string(), trailer: Dictionary::new(), objects, max_id: 10 };
    let merged = merge_documents(&vec![Source { document, pages: Vec::new() }]);
    assert_eq!(
        merged.objects.get(&id(1)),
        Some(&Object::Array(vec![
            Object::Reference(id(1)),
            Object::Reference(ObjectId { number: 10, generation: 0 }),
            Object::Reference(id(77)),
        ]))
    );
}

#[test]
fn sources_are_left_as_they_were() {
    let sources = vec![create_minimal_pdf(), marked_document(9, 1)];
    let _ = merge_documents(&sources);
    assert_eq!(sources[0], create_minimal_pdf());
    assert_eq!(sources[1], marked_document(9, 1));
}

#[test]
fn strings_and_reals_are_copied_unchanged() {
    let mut objects = ObjectTable::new();
    let values = Object::Array(vec![
        Object::Null,
        Object::Boolean(true),
        Object::Integer(-7),
        Object::Real(1.5f32.to_bits()),
        Object::String(b"text".to_vec(), StringFormat::Literal),
        Object::String(vec![0xDE, 0xAD], StringFormat::Hexadecimal),
        name(b"Name"),
    ]);
    objects.insert(id(4), values.clone());
    let document =
        Document { version: "1.5".to_string(), trailer: Dictionary::new(), objects, max_id: 4 };
    let merged = merge_documents(&vec![Source { document, pages: Vec::new() }]);
    assert_eq!(merged.objects.get(&id(1)), Some(&values));
}
