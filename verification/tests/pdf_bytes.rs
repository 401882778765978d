use lopdf::{Dictionary, Document, Object, Stream};
use pdf_merge::codec::save_document_to_bytes;
use pdf_merge::document::PdfDocument;
use pdf_merge::error::MergeError;
use pdf_merge::object::{PdfDictionary, PdfObject, StringFormat};
use pdf_merge::pdf::{merge_documents, merge_read, start_merge, MergeStart};
use printpdf::{Mm, PdfDocument as PrintedDocument};

fn object_read(object: &Object) -> PdfObject {
    match object {
        Object::Null => PdfObject::Null,
        Object::Boolean(b) => PdfObject::Boolean(*b),
        Object::Integer(i) => PdfObject::Integer(*i),
        Object::Real(x) => PdfObject::Real(x.to_string()),
        Object::Name(n) => PdfObject::Name(n.clone()),
        Object::String(s, lopdf::StringFormat::Literal) => {
            PdfObject::String(s.clone(), StringFormat::Literal)
        }
        Object::String(s, lopdf::StringFormat::Hexadecimal) => {
            PdfObject::String(s.clone(), StringFormat::Hexadecimal)
        }
        Object::Array(a) => PdfObject::Array(a.iter().map(object_read).collect()),
        Object::Dictionary(d) => PdfObject::Dictionary(dictionary_read(d)),
        Object::Stream(s) => PdfObject::Stream(dictionary_read(&s.dict), s.content.clone()),
        Object::Reference(id) => PdfObject::Reference(*id),
    }
}

fn dictionary_read(dictionary: &Dictionary) -> PdfDictionary {
    PdfDictionary {
        entries: dictionary.iter().map(|(k, v)| (k.clone(), object_read(v))).collect(),
    }
}

/// Reads a file with lopdf, as a program around the library does.
fn parse_document(bytes: &[u8]) -> Option<PdfDocument> {
    let raw = Document::load_mem(bytes).ok()?;
    let objects = raw.objects.iter().map(|(id, o)| (*id, object_read(o))).collect();
    PdfDocument::from_parts(raw.version.clone(), dictionary_read(&raw.trailer), objects)
}

/// Merges files as a program around the library does: it reads where the
/// library asks for it, up to the first file that cannot be read.
fn merge_pdfs(list: Vec<Vec<u8>>) -> Result<Vec<u8>, MergeError> {
    match start_merge(list) {
        MergeStart::Finished(outcome) => outcome,
        MergeStart::Read(inputs) => {
            let mut read = Vec::new();
            for bytes in &inputs {
                let document = parse_document(bytes);
                let unread = document.is_none();
                read.push(document);
                if unread {
                    break;
                }
            }
            merge_read(read)
        }
    }
}

/// The bytes of a document of one page of the given size, written by lopdf:
/// page tree node 1, content 2, page 3, catalog 4.
fn one_page_file(width: i64, height: i64) -> Vec<u8> {
    let mut doc = Document::with_version("1.5");
    let pages_id = doc.new_object_id();
    let content_id = doc.add_object(Stream::new(Dictionary::new(), b"q Q".to_vec()));
    let mut page = Dictionary::new();
    page.set("Type", Object::Name(b"Page".to_vec()));
    page.set("Parent", Object::Reference(pages_id));
    page.set(
        "MediaBox",
        Object::Array(vec![0.into(), 0.into(), width.into(), height.into()]),
    );
    page.set("Contents", Object::Reference(content_id));
    let page_id = doc.add_object(page);
    let mut pages = Dictionary::new();
    pages.set("Type", Object::Name(b"Pages".to_vec()));
    pages.set("Kids", Object::Array(vec![Object::Reference(page_id)]));
    pages.set("Count", Object::Integer(1));
    doc.objects.insert(pages_id, Object::Dictionary(pages));
    let mut catalog = Dictionary::new();
    catalog.set("Type", Object::Name(b"Catalog".to_vec()));
    catalog.set("Pages", Object::Reference(pages_id));
    let catalog_id = doc.add_object(catalog);
    doc.trailer.set("Root", Object::Reference(catalog_id));
    let mut bytes = Vec::new();
    doc.save_to(&mut bytes).unwrap();
    bytes
}

fn printed_page(width: f32, height: f32) -> Vec<u8> {
    let (doc, _page, _layer) = PrintedDocument::new("Image", Mm(width), Mm(height), "Layer 1");
    doc.save_to_bytes().unwrap()
}

fn media_box_of(doc: &Document, page: lopdf::ObjectId) -> Vec<i64> {
    let page = doc.get_dictionary(page).unwrap();
    page.get(b"MediaBox")
        .unwrap()
        .as_array()
        .unwrap()
        .iter()
        .map(|n| n.as_i64().unwrap())
        .collect()
}

fn entries_of(entries: Vec<(&str, PdfObject)>) -> PdfDictionary {
    PdfDictionary { entries: entries.into_iter().map(|(k, v)| (k.as_bytes().to_vec(), v)).collect() }
}

#[test]
fn merging_no_bytes_fails_with_empty_input() {
    assert_eq!(merge_pdfs(Vec::new()), Err(MergeError::EmptyInput));
}

#[test]
fn merging_no_document_fails_with_empty_input() {
    assert_eq!(merge_documents(Vec::new()), Err(MergeError::EmptyInput));
}

#[test]
fn a_single_input_comes_back_byte_for_byte() {
    let file = one_page_file(100, 100);
    assert_eq!(merge_pdfs(vec![file.clone()]), Ok(file));
}

#[test]
fn a_single_input_is_not_read() {
    let garbage = b"this is no document".to_vec();
    assert_eq!(merge_pdfs(vec![garbage.clone()]), Ok(garbage));
    assert_eq!(merge_pdfs(vec![Vec::new()]), Ok(Vec::new()));
}

#[test]
fn a_single_document_comes_back_as_it_is() {
    let document = parse_document(&one_page_file(100, 100)).unwrap();
    let same = parse_document(&one_page_file(100, 100)).unwrap();
    assert_eq!(merge_documents(vec![document]), Ok(same));
}

#[test]
fn a_corrupt_first_input_fails_the_merge_with_its_place() {
    let corrupt = b"%PDF-1.5\nnothing of use".to_vec();
    assert_eq!(
        merge_pdfs(vec![corrupt, one_page_file(50, 80)]),
        Err(MergeError::ParseFailure { index: 0 })
    );
}

#[test]
fn a_corrupt_later_input_fails_the_merge_with_its_place() {
    let corrupt = Vec::new();
    assert_eq!(
        merge_pdfs(vec![one_page_file(100, 100), one_page_file(50, 80), corrupt]),
        Err(MergeError::ParseFailure { index: 2 })
    );
}

#[test]
fn the_first_of_several_corrupt_inputs_is_reported() {
    assert_eq!(
        merge_pdfs(vec![one_page_file(1, 1), b"x".to_vec(), b"y".to_vec()]),
        Err(MergeError::ParseFailure { index: 1 })
    );
}

#[test]
fn two_files_of_one_page_merge_into_a_file_of_two_pages() {
    let merged = merge_pdfs(vec![one_page_file(100, 100), one_page_file(50, 80)]).unwrap();
    let doc = Document::load_mem(&merged).unwrap();
    assert_eq!(doc.version, "1.5");
    let pages: Vec<lopdf::ObjectId> = doc.get_pages().into_values().collect();
    assert_eq!(pages.len(), 2);
    assert_eq!(media_box_of(&doc, pages[0]), vec![0, 0, 100, 100]);
    assert_eq!(media_box_of(&doc, pages[1]), vec![0, 0, 50, 80]);
    let catalog = doc.catalog().unwrap();
    let tree_id = catalog.get(b"Pages").unwrap().as_reference().unwrap();
    let tree = doc.get_dictionary(tree_id).unwrap();
    assert_eq!(tree.get(b"Count").unwrap().as_i64().unwrap(), 2);
    let kids = tree.get(b"Kids").unwrap().as_array().unwrap();
    assert_eq!(kids.len(), 2);
    assert_eq!(kids[0].as_reference().unwrap(), pages[0]);
    assert_eq!(kids[1].as_reference().unwrap(), pages[1]);
    for page in pages {
        let parent = doc.get_dictionary(page).unwrap().get(b"Parent").unwrap();
        assert_eq!(parent.as_reference().unwrap(), tree_id);
    }
}

#[test]
fn pages_come_out_in_the_order_of_the_inputs() {
    let inputs: Vec<Vec<u8>> = (1..=7).map(|n| one_page_file(10 * n, 20 * n)).collect();
    let merged = merge_pdfs(inputs).unwrap();
    let doc = Document::load_mem(&merged).unwrap();
    let pages: Vec<lopdf::ObjectId> = doc.get_pages().into_values().collect();
    assert_eq!(pages.len(), 7);
    for (i, page) in pages.iter().enumerate() {
        let n = i as i64 + 1;
        assert_eq!(media_box_of(&doc, *page), vec![0, 0, 10 * n, 20 * n]);
    }
}

#[test]
fn every_object_of_a_merged_file_has_its_own_number() {
    let merged = merge_pdfs(vec![one_page_file(100, 100), one_page_file(50, 80)]).unwrap();
    let text = String::from_utf8_lossy(&merged).to_string();
    for number in 1..=13 {
        let header = format!("\n{} 0 obj", number);
        let written = text.matches(&header).count();
        assert!(written <= 1, "{} objects are numbered {}", written, number);
    }
    assert_eq!(text.matches("\n11 0 obj").count(), 1);
    assert_eq!(text.matches("\n12 0 obj").count(), 1);
}

#[test]
fn printed_pages_merge_in_order() {
    let merged = merge_pdfs(vec![printed_page(100.0, 100.0), printed_page(50.0, 80.0)]).unwrap();
    let doc = Document::load_mem(&merged).unwrap();
    let pages: Vec<lopdf::ObjectId> = doc.get_pages().into_values().collect();
    assert_eq!(pages.len(), 2);
    let width_of = |page: lopdf::ObjectId| {
        let page = doc.get_dictionary(page).unwrap();
        page.get(b"MediaBox").unwrap().as_array().unwrap()[2].as_float().unwrap()
    };
    assert!((width_of(pages[0]) - 283.46457).abs() < 0.01);
    assert!((width_of(pages[1]) - 141.73228).abs() < 0.01);
    let tree_id = doc.catalog().unwrap().get(b"Pages").unwrap().as_reference().unwrap();
    for page in pages {
        let parent = doc.get_dictionary(page).unwrap().get(b"Parent").unwrap();
        assert_eq!(parent.as_reference().unwrap(), tree_id);
    }
}

#[test]
fn a_read_file_holds_version_trailer_and_objects() {
    let document = parse_document(&one_page_file(100, 100)).unwrap();
    assert_eq!(document.version(), "1.5");
    assert_eq!(document.trailer().get(b"Root"), Some(&PdfObject::Reference((4, 0))));
    let page = entries_of(vec![
        ("Type", PdfObject::Name(b"Page".to_vec())),
        ("Parent", PdfObject::Reference((1, 0))),
        (
            "MediaBox",
            PdfObject::Array(vec![
                PdfObject::Integer(0),
                PdfObject::Integer(0),
                PdfObject::Integer(100),
                PdfObject::Integer(100),
            ]),
        ),
        ("Contents", PdfObject::Reference((2, 0))),
    ]);
    assert_eq!(document.get_object((3, 0)), Some(&PdfObject::Dictionary(page)));
    assert_eq!(
        document.get_object((2, 0)),
        Some(&PdfObject::Stream(entries_of(vec![("Length", PdfObject::Integer(3))]), b"q Q".to_vec()))
    );
    assert_eq!(document.get_object((9, 0)), None);
}

#[test]
fn nothing_is_to_be_read_of_no_input_or_one() {
    assert_eq!(start_merge(Vec::new()), MergeStart::Finished(Err(MergeError::EmptyInput)));
    assert_eq!(start_merge(vec![vec![1, 2, 3]]), MergeStart::Finished(Ok(vec![1, 2, 3])));
    assert_eq!(start_merge(vec![Vec::new()]), MergeStart::Finished(Ok(Vec::new())));
}

#[test]
fn two_or_more_inputs_are_to_be_read_in_their_order() {
    let inputs = vec![vec![1], vec![2, 2], Vec::new()];
    assert_eq!(start_merge(inputs.clone()), MergeStart::Read(inputs));
}

#[test]
fn the_first_input_that_gave_no_document_fails_the_merge() {
    let document = || parse_document(&one_page_file(1, 1));
    assert_eq!(merge_read(vec![None, document()]), Err(MergeError::ParseFailure { index: 0 }));
    assert_eq!(merge_read(vec![None]), Err(MergeError::ParseFailure { index: 0 }));
    assert_eq!(
        merge_read(vec![document(), document(), None, None, document()]),
        Err(MergeError::ParseFailure { index: 2 })
    );
}

#[test]
fn merging_what_was_read_of_nothing_fails_with_empty_input() {
    assert_eq!(merge_read(Vec::new()), Err(MergeError::EmptyInput));
}

#[test]
fn a_single_document_that_was_read_is_encoded_as_it_is() {
    let document = parse_document(&one_page_file(30, 40)).unwrap();
    let bytes = merge_read(vec![Some(document.clone())]).unwrap();
    assert_eq!(bytes, save_document_to_bytes(&document).unwrap());
}

#[test]
fn what_was_read_is_merged_and_encoded() {
    let first = parse_document(&one_page_file(100, 100));
    let second = parse_document(&one_page_file(50, 80));
    let merged = merge_documents(vec![first.clone().unwrap(), second.clone().unwrap()]).unwrap();
    assert_eq!(merge_read(vec![first, second]), save_document_to_bytes(&merged));
}

#[test]
fn every_kind_of_object_survives_writing_and_reading() {
    let mut document = PdfDocument::with_version("1.7");
    let all = PdfObject::Array(vec![
        PdfObject::Null,
        PdfObject::Boolean(true),
        PdfObject::Boolean(false),
        PdfObject::Integer(-42),
        PdfObject::Real("141.7323".to_string()),
        PdfObject::Real("-0.5".to_string()),
        PdfObject::Name(b"A Name".to_vec()),
        PdfObject::String(b"text (with) parentheses".to_vec(), StringFormat::Literal),
        PdfObject::String(vec![0, 1, 254, 255], StringFormat::Hexadecimal),
        PdfObject::Array(vec![PdfObject::Array(vec![])]),
        PdfObject::Dictionary(entries_of(vec![("Inner", PdfObject::Reference((2, 0)))])),
        PdfObject::Reference((5, 3)),
    ]);
    document.insert_object((1, 0), all);
    document.insert_object(
        (2, 0),
        PdfObject::Stream(entries_of(vec![("Length", PdfObject::Integer(5))]), b"01234".to_vec()),
    );
    document.insert_object((5, 3), PdfObject::Integer(23));
    document.set_trailer_entry(b"Root".to_vec(), PdfObject::Reference((1, 0)));
    let bytes = save_document_to_bytes(&document).unwrap();
    assert!(bytes.starts_with(b"%PDF-1.7\n"));
    let back = parse_document(&bytes).unwrap();
    assert_eq!(back.version(), "1.7");
    for id in [(1, 0), (2, 0), (5, 3)] {
        assert_eq!(back.get_object(id), document.get_object(id));
    }
    assert_eq!(back.trailer().get(b"Root"), Some(&PdfObject::Reference((1, 0))));
}

#[test]
fn a_written_dictionary_gives_for_a_repeated_key_what_get_gives() {
    let repeated = PdfDictionary {
        entries: vec![
            (b"K".to_vec(), PdfObject::Integer(1)),
            (b"L".to_vec(), PdfObject::Integer(5)),
            (b"K".to_vec(), PdfObject::Integer(2)),
        ],
    };
    let expected = repeated.get(b"K").cloned();
    let mut document = PdfDocument::with_version("1.5");
    document.insert_object((1, 0), PdfObject::Dictionary(repeated));
    let bytes = save_document_to_bytes(&document).unwrap();
    let back = parse_document(&bytes).unwrap();
    let PdfObject::Dictionary(read) = back.get_object((1, 0)).unwrap() else {
        panic!("the object is a dictionary")
    };
    assert_eq!(read.get(b"K").cloned(), expected);
    assert_eq!(read.get(b"K"), Some(&PdfObject::Integer(2)));
    assert_eq!(read.get(b"L"), Some(&PdfObject::Integer(5)));
    assert_eq!(read.len(), 2);
}

#[test]
fn a_document_whose_numbers_are_used_up_cannot_be_written() {
    let mut document = PdfDocument::with_version("1.5");
    document.insert_object((u32::MAX - 1, 0), PdfObject::Null);
    assert_eq!(save_document_to_bytes(&document), Err(MergeError::SerializationFailure));
    document.insert_object((u32::MAX, 0), PdfObject::Null);
    assert_eq!(save_document_to_bytes(&document), Err(MergeError::SerializationFailure));
    let mut fitting = PdfDocument::with_version("1.5");
    fitting.insert_object((70_000, 0), PdfObject::Null);
    let bytes = save_document_to_bytes(&fitting).unwrap();
    let back = parse_document(&bytes).unwrap();
    assert_eq!(back.get_object((70_000, 0)), Some(&PdfObject::Null));
}

#[test]
fn merge_documents_takes_the_pages_from_each_page_tree() {
    let first = parse_document(&one_page_file(100, 100)).unwrap();
    let second = parse_document(&one_page_file(50, 80)).unwrap();
    let count = first.len() as u32;
    let merged = merge_documents(vec![first, second]).unwrap();
    let tree_id = (2 * count + 1, 0);
    let PdfObject::Dictionary(tree) = merged.get_object(tree_id).unwrap() else {
        panic!("the page tree node is a dictionary")
    };
    assert_eq!(
        tree.get(b"Kids"),
        Some(&PdfObject::Array(vec![
            PdfObject::Reference((3, 0)),
            PdfObject::Reference((count + 3, 0))
        ]))
    );
    assert_eq!(tree.get(b"Count"), Some(&PdfObject::Integer(2)));
    assert_eq!(merged.trailer().get(b"Root"), Some(&PdfObject::Reference((2 * count + 2, 0))));
}

#[test]
fn a_document_without_a_page_tree_adds_no_page() {
    let mut bare = PdfDocument::with_version("1.5");
    bare.insert_object((1, 0), PdfObject::Integer(1));
    let paged = parse_document(&one_page_file(50, 80)).unwrap();
    let merged = merge_documents(vec![bare, paged]).unwrap();
    let PdfObject::Dictionary(tree) = merged.get_object((merged.highest_number() - 1, 0)).unwrap()
    else {
        panic!("the page tree node is a dictionary")
    };
    assert_eq!(tree.get(b"Kids"), Some(&PdfObject::Array(vec![PdfObject::Reference((4, 0))])));
}

#[test]
fn a_file_with_a_dangling_reference_fails_the_merge() {
    let mut doc = Document::load_mem(&one_page_file(50, 80)).unwrap();
    doc.add_object(Object::Reference((99, 0)));
    let mut broken = Vec::new();
    doc.save_to(&mut broken).unwrap();
    assert_eq!(
        merge_pdfs(vec![one_page_file(100, 100), broken]),
        Err(MergeError::DanglingReferenceAfterMerge)
    );
}
