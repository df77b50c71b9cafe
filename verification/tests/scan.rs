use pdf_merge::error::MergeError;
use pdf_merge::merge::{merge_documents, Source};
use pdf_merge::document::Document;
use pdf_merge::object::{Dictionary, Object, ObjectId};
use pdf_merge::ordering::{sort_by_key, SortKey};
use pdf_merge::scan::{
    count_candidates, has_pdf_extension, ingestion_order, output_file_name, DirectoryEntry,
};
use pdf_merge::table::ObjectTable;

fn entry(name: &str, modified: i128) -> DirectoryEntry {
    DirectoryEntry { name: name.as_bytes().to_vec(), modified }
}

#[test]
fn test_merge_pdfs_directory_not_found() {
    let result: Result<String, String> =
        Err(MergeError::DirectoryNotFound("/nonexistent/directory".to_string()).message());
    assert!(result.is_err());
    assert!(result.unwrap_err().contains("does not exist"));
}

#[test]
fn test_merge_pdfs_empty_directory() {
    let result = ingestion_order(&Vec::new()).map_err(|error| error.message());
    assert!(result.is_err());
    assert!(result.unwrap_err().contains("No PDF files found"));
}

#[test]
fn test_count_pdfs_success() {
    let listing = vec![entry("test1.pdf", 1), entry("test2.pdf", 2), entry("not_a_pdf.txt", 3)];
    assert_eq!(count_candidates(&listing), 2);
}

#[test]
fn test_count_pdfs_directory_not_found() {
    let result: Result<usize, String> =
        Err(MergeError::DirectoryNotFound("/nonexistent/directory".to_string()).message());
    assert!(result.is_err());
}

#[test]
fn a_missing_directory_is_named_in_the_message() {
    let error = MergeError::DirectoryNotFound("/no/such/dir".to_string());
    assert_eq!(error.message(), "Directory '/no/such/dir' does not exist.");
}

#[test]
fn each_failure_has_its_message() {
    assert_eq!(
        MergeError::DirectoryReadError("permission denied".to_string()).message(),
        "Failed to read directory: permission denied"
    );
    assert_eq!(MergeError::NoCandidateFiles.message(), "No PDF files found in the directory.");
    assert_eq!(
        MergeError::DocumentLoadError("/d/a.pdf".to_string(), "bad header".to_string()).message(),
        "Failed to load PDF '/d/a.pdf': bad header"
    );
    assert_eq!(
        MergeError::OutputWriteError("disk full".to_string()).message(),
        "Failed to save merged PDF: disk full"
    );
}

#[test]
fn the_extension_is_pdf_spelled_so() {
    assert!(has_pdf_extension(b"a.pdf"));
    assert!(has_pdf_extension(b"report.final.pdf"));
    assert!(has_pdf_extension(b"..pdf"));
    assert!(has_pdf_extension(b".hidden.pdf"));
    assert!(!has_pdf_extension(b".pdf"));
    assert!(!has_pdf_extension(b"pdf"));
    assert!(!has_pdf_extension(b""));
    assert!(!has_pdf_extension(b"a.PDF"));
    assert!(!has_pdf_extension(b"a.Pdf"));
    assert!(!has_pdf_extension(b"a.pdf.txt"));
    assert!(!has_pdf_extension(b"a.pdf "));
    assert!(!has_pdf_extension(b"apdf"));
    assert!(!has_pdf_extension(b"a.pdx"));
    assert!(!has_pdf_extension(b"a.xdf"));
    assert!(!has_pdf_extension(b"a.pxf"));
    assert!(!has_pdf_extension(b"a,pdf"));
}

#[test]
fn an_empty_listing_has_no_candidate() {
    assert_eq!(count_candidates(&Vec::new()), 0);
    assert_eq!(ingestion_order(&Vec::new()), Err(MergeError::NoCandidateFiles));
    let listing = vec![entry("notes.txt", 5), entry(".pdf", 1)];
    assert_eq!(count_candidates(&listing), 0);
    assert_eq!(ingestion_order(&listing), Err(MergeError::NoCandidateFiles));
}

#[test]
fn files_are_taken_in_by_modification_time() {
    let listing = vec![
        entry("c.pdf", 300),
        entry("skip.txt", 1),
        entry("a.pdf", 100),
        entry("b.pdf", 200),
        entry("before_the_epoch.pdf", -5),
    ];
    assert_eq!(ingestion_order(&listing), Ok(vec![4, 2, 3, 0]));
}

#[test]
fn files_of_equal_time_keep_the_order_of_the_listing() {
    let listing = vec![
        entry("z.pdf", 7),
        entry("y.pdf", 3),
        entry("x.pdf", 7),
        entry("w.pdf", 3),
        entry("v.pdf", 7),
    ];
    assert_eq!(ingestion_order(&listing), Ok(vec![1, 3, 0, 2, 4]));
}

#[test]
fn the_older_file_comes_first_in_the_merged_document() {
    let listing = vec![entry("b.pdf", 2_000), entry("a.pdf", 1_000)];
    let order = ingestion_order(&listing).unwrap();
    assert_eq!(order, vec![1, 0]);

    let one_page = |mark: &[u8]| {
        let mut page = Dictionary::new();
        page.set(b"Type".to_vec(), Object::Name(b"Page".to_vec()));
        page.set(b"From".to_vec(), Object::Name(mark.to_vec()));
        let mut objects = ObjectTable::new();
        let page_id = ObjectId { number: 1, generation: 0 };
        objects.insert(page_id, Object::Dictionary(page));
        let document = Document {
            version: "1.5".to_string(),
            trailer: Dictionary::new(),
            objects,
            max_id: 1,
        };
        Source { document, pages: vec![(1, page_id)] }
    };
    let sources: Vec<Source> =
        order.iter().map(|&place| one_page(&listing[place].name)).collect();
    let merged = merge_documents(&sources);

    assert_eq!(output_file_name("dir"), "dir.pdf");
    let kids = match merged.objects.get(&ObjectId { number: 3, generation: 0 }) {
        Some(Object::Dictionary(node)) => node.get(b"Kids").cloned(),
        other => panic!("the Pages node is {:?}", other),
    };
    let first = ObjectId { number: 1, generation: 0 };
    let second = ObjectId { number: 2, generation: 0 };
    assert_eq!(kids, Some(Object::Array(vec![Object::Reference(first), Object::Reference(second)])));
    let from = |page: ObjectId| match merged.objects.get(&page) {
        Some(Object::Dictionary(dict)) => dict.get(b"From").cloned(),
        other => panic!("a page is {:?}", other),
    };
    assert_eq!(from(first), Some(Object::Name(b"a.pdf".to_vec())));
    assert_eq!(from(second), Some(Object::Name(b"b.pdf".to_vec())));
}

#[test]
fn the_output_is_named_after_the_directory() {
    assert_eq!(output_file_name("invoices"), "invoices.pdf");
    assert_eq!(output_file_name("scans.2024"), "scans.2024.pdf");
    assert_eq!(output_file_name(""), ".pdf");
}

#[test]
fn sorting_is_ascending_and_stable() {
    let items: Vec<(u32, char)> = vec![(3, 'a'), (1, 'b'), (3, 'c'), (2, 'd'), (1, 'e'), (0, 'f')];
    assert_eq!(
        sort_by_key(&items),
        vec![(0, 'f'), (1, 'b'), (1, 'e'), (2, 'd'), (3, 'a'), (3, 'c')]
    );
    let sorted: Vec<(u32, char)> = vec![(1, 'x'), (1, 'y'), (2, 'z')];
    assert_eq!(sort_by_key(&sorted), sorted);
    let none: Vec<(i128, u8)> = Vec::new();
    assert_eq!(sort_by_key(&none), none);
    let wide: Vec<(i128, u8)> = vec![(i128::MAX, 1), (i128::MIN, 2), (0, 3)];
    assert_eq!(sort_by_key(&wide), vec![(i128::MIN, 2), (0, 3), (i128::MAX, 1)]);
    assert!(5u32.exceeds(&4));
    assert!(!4u32.exceeds(&4));
    assert!((-1i128).exceeds(&-2));
    assert!(!(-2i128).exceeds(&-1));
}
