use pdf_merge::document::PdfDocument;
use pdf_merge::error::MergeError;
use pdf_merge::copy::copy_all_objects;
use pdf_merge::merge::{merge_sources, Source};
use pdf_merge::page_tree::build_page_tree;
use pdf_merge::object::{ObjectId, PdfDictionary, PdfObject};

fn name(text: &str) -> PdfObject {
    PdfObject::Name(text.as_bytes().to_vec())
}

fn reference(number: u32) -> PdfObject {
    PdfObject::Reference((number, 0))
}

fn dict(entries: Vec<(&str, PdfObject)>) -> PdfObject {
    PdfObject::Dictionary(PdfDictionary {
        entries: entries.into_iter().map(|(k, v)| (k.as_bytes().to_vec(), v)).collect(),
    })
}

fn media_box(width: i64, height: i64) -> PdfObject {
    PdfObject::Array(vec![
        PdfObject::Integer(0),
        PdfObject::Integer(0),
        PdfObject::Integer(width),
        PdfObject::Integer(height),
    ])
}

fn document(version: &str, root: u32, objects: Vec<(u32, PdfObject)>) -> PdfDocument {
    let mut d = PdfDocument::with_version(version);
    for (number, object) in objects {
        d.insert_object((number, 0), object);
    }
    d.set_trailer_entry(b"Root".to_vec(), reference(root));
    d
}

/// A document of one page: page tree node, content, page and catalog under
/// the numbers `first` to `first + 3`.
fn one_page(first: u32, width: i64, height: i64) -> Source {
    let objects = vec![
        (
            first,
            dict(vec![
                ("Type", name("Pages")),
                ("Kids", PdfObject::Array(vec![reference(first + 2)])),
                ("Count", PdfObject::Integer(1)),
            ]),
        ),
        (first + 1, PdfObject::Stream(PdfDictionary::new(), b"q Q".to_vec())),
        (
            first + 2,
            dict(vec![
                ("Type", name("Page")),
                ("Parent", reference(first)),
                ("MediaBox", media_box(width, height)),
                ("Contents", reference(first + 1)),
            ]),
        ),
        (first + 3, dict(vec![("Type", name("Catalog")), ("Pages", reference(first))])),
    ];
    Source { document: document("1.4", first + 3, objects), pages: vec![(first + 2, 0)] }
}

/// The copies of `one_page` under the numbers `first` to `first + 3`, the
/// page adopted by `parent`.
fn copied_page(first: u32, width: i64, height: i64, parent: u32) -> Vec<(u32, PdfObject)> {
    vec![
        (
            first,
            dict(vec![
                ("Type", name("Pages")),
                ("Kids", PdfObject::Array(vec![reference(first + 2)])),
                ("Count", PdfObject::Integer(1)),
            ]),
        ),
        (first + 1, PdfObject::Stream(PdfDictionary::new(), b"q Q".to_vec())),
        (
            first + 2,
            dict(vec![
                ("Type", name("Page")),
                ("Parent", reference(parent)),
                ("MediaBox", media_box(width, height)),
                ("Contents", reference(first + 1)),
            ]),
        ),
        (first + 3, dict(vec![("Type", name("Catalog")), ("Pages", reference(first))])),
    ]
}

fn page_tree(kids: &[u32]) -> PdfObject {
    dict(vec![
        ("Type", name("Pages")),
        ("Kids", PdfObject::Array(kids.iter().map(|k| reference(*k)).collect())),
        ("Count", PdfObject::Integer(kids.len() as i64)),
    ])
}

fn catalog(pages: u32) -> PdfObject {
    dict(vec![("Type", name("Catalog")), ("Pages", reference(pages))])
}

fn references_in(object: &PdfObject, found: &mut Vec<ObjectId>) {
    match object {
        PdfObject::Reference(id) => found.push(*id),
        PdfObject::Array(items) => items.iter().for_each(|i| references_in(i, found)),
        PdfObject::Dictionary(d) | PdfObject::Stream(d, _) => {
            d.entries.iter().for_each(|e| references_in(&e.1, found))
        }
        _ => {}
    }
}

#[test]
fn merging_no_source_fails_with_empty_input() {
    assert_eq!(merge_sources(Vec::new()), Err(MergeError::EmptyInput));
}

#[test]
fn a_single_source_comes_back_as_it_is() {
    let merged = merge_sources(vec![one_page(10, 100, 100)]).unwrap();
    assert_eq!(merged, one_page(10, 100, 100).document);
}

#[test]
fn a_single_source_is_not_even_checked_for_dangling_references() {
    let broken = Source {
        document: document("1.7", 1, vec![(1, reference(99))]),
        pages: vec![(5, 0)],
    };
    let same = document("1.7", 1, vec![(1, reference(99))]);
    assert_eq!(merge_sources(vec![broken]), Ok(same));
}

#[test]
fn two_pages_of_different_size_merge_into_two_pages_in_order() {
    let merged = merge_sources(vec![one_page(1, 100, 100), one_page(1, 50, 80)]).unwrap();
    let mut objects = copied_page(1, 100, 100, 9);
    objects.extend(copied_page(5, 50, 80, 9));
    objects.push((9, page_tree(&[3, 7])));
    objects.push((10, catalog(9)));
    assert_eq!(merged, document("1.5", 10, objects));
}

#[test]
fn the_merged_page_tree_counts_and_lists_the_pages() {
    let merged = merge_sources(vec![one_page(1, 100, 100), one_page(1, 50, 80)]).unwrap();
    let root = merged.trailer().get(b"Root").unwrap();
    assert_eq!(root, &reference(10));
    let PdfObject::Dictionary(catalog) = merged.get_object((10, 0)).unwrap() else {
        panic!("the catalog is a dictionary")
    };
    assert_eq!(catalog.get(b"Pages"), Some(&reference(9)));
    let PdfObject::Dictionary(pages) = merged.get_object((9, 0)).unwrap() else {
        panic!("the page tree node is a dictionary")
    };
    assert_eq!(pages.get(b"Type"), Some(&name("Pages")));
    assert_eq!(pages.get(b"Count"), Some(&PdfObject::Integer(2)));
    assert_eq!(pages.get(b"Kids"), Some(&PdfObject::Array(vec![reference(3), reference(7)])));
    for (kid, size) in [(3, media_box(100, 100)), (7, media_box(50, 80))] {
        let PdfObject::Dictionary(page) = merged.get_object((kid, 0)).unwrap() else {
            panic!("a page is a dictionary")
        };
        assert_eq!(page.get(b"Parent"), Some(&reference(9)));
        assert_eq!(page.get(b"MediaBox"), Some(&size));
    }
}

#[test]
fn sources_are_numbered_one_after_another_whatever_their_own_numbers() {
    let merged = merge_sources(vec![one_page(40, 1, 1), one_page(7, 2, 2), one_page(1000, 3, 3)])
        .unwrap();
    let mut objects = copied_page(1, 1, 1, 13);
    objects.extend(copied_page(5, 2, 2, 13));
    objects.extend(copied_page(9, 3, 3, 13));
    objects.push((13, page_tree(&[3, 7, 11])));
    objects.push((14, catalog(13)));
    assert_eq!(merged, document("1.5", 14, objects));
}

#[test]
fn merged_identifiers_are_the_numbers_from_one_on() {
    let merged = merge_sources(vec![one_page(40, 1, 1), one_page(7, 2, 2), one_page(1000, 3, 3)])
        .unwrap();
    let ids: Vec<ObjectId> = merged.objects().iter().map(|e| e.0).collect();
    let expected: Vec<ObjectId> = (1..=14).map(|n| (n, 0)).collect();
    assert_eq!(ids, expected);
    assert_eq!(merged.highest_number(), 14);
}

#[test]
fn every_reference_of_a_merged_document_has_a_target() {
    let merged = merge_sources(vec![one_page(40, 1, 1), one_page(7, 2, 2), one_page(1000, 3, 3)])
        .unwrap();
    let mut found = Vec::new();
    for (_, object) in merged.objects() {
        references_in(object, &mut found);
    }
    for (_, value) in &merged.trailer().entries {
        references_in(value, &mut found);
    }
    assert!(found.len() >= 3 * 4 + 3 + 1 + 1);
    for id in found {
        assert!(merged.get_object(id).is_some(), "{:?} has no target", id);
    }
}

#[test]
fn a_source_without_pages_adds_objects_but_no_page() {
    let mut middle = one_page(1, 9, 9);
    middle.pages = Vec::new();
    let merged = merge_sources(vec![one_page(1, 100, 100), middle, one_page(1, 50, 80)]).unwrap();
    assert_eq!(merged.get_object((13, 0)), Some(&page_tree(&[3, 11])));
    let mut objects = copied_page(1, 100, 100, 13);
    let mut unadopted = copied_page(5, 9, 9, 5);
    unadopted[2] = (
        7,
        dict(vec![
            ("Type", name("Page")),
            ("Parent", reference(5)),
            ("MediaBox", media_box(9, 9)),
            ("Contents", reference(6)),
        ]),
    );
    objects.extend(unadopted);
    objects.extend(copied_page(9, 50, 80, 13));
    objects.push((13, page_tree(&[3, 11])));
    objects.push((14, catalog(13)));
    assert_eq!(merged, document("1.5", 14, objects));
}

#[test]
fn a_source_without_objects_uses_no_number() {
    let empty = Source { document: PdfDocument::with_version("1.0"), pages: Vec::new() };
    let merged = merge_sources(vec![empty, one_page(1, 5, 5)]).unwrap();
    let mut objects = copied_page(1, 5, 5, 5);
    objects.push((5, page_tree(&[3])));
    objects.push((6, catalog(5)));
    assert_eq!(merged, document("1.5", 6, objects));
}

#[test]
fn two_sources_without_objects_merge_into_an_empty_page_tree() {
    let empty = || Source { document: PdfDocument::with_version("1.0"), pages: Vec::new() };
    let merged = merge_sources(vec![empty(), empty()]).unwrap();
    assert_eq!(merged, document("1.5", 2, vec![(1, page_tree(&[])), (2, catalog(1))]));
}

#[test]
fn a_page_that_the_table_does_not_hold_is_left_out() {
    let mut first = one_page(1, 100, 100);
    first.pages = vec![(77, 0), (3, 0), (3, 1)];
    let merged = merge_sources(vec![first, one_page(1, 50, 80)]).unwrap();
    assert_eq!(merged.get_object((9, 0)), Some(&page_tree(&[3, 7])));
}

#[test]
fn several_pages_of_one_source_keep_their_order() {
    let mut first = one_page(1, 100, 100);
    first.document.insert_object((9, 0), dict(vec![("Type", name("Page"))]));
    first.pages = vec![(9, 0), (3, 0)];
    let merged = merge_sources(vec![first, one_page(1, 50, 80)]).unwrap();
    assert_eq!(merged.get_object((10, 0)), Some(&page_tree(&[5, 3, 8])));
    assert_eq!(
        merged.get_object((5, 0)),
        Some(&dict(vec![("Type", name("Page")), ("Parent", reference(10))]))
    );
}

#[test]
fn a_page_that_is_no_dictionary_gets_no_parent() {
    let odd = Source {
        document: document("1.4", 1, vec![(1, PdfObject::Integer(5))]),
        pages: vec![(1, 0)],
    };
    let merged = merge_sources(vec![odd, one_page(1, 50, 80)]).unwrap();
    assert_eq!(merged.get_object((1, 0)), Some(&PdfObject::Integer(5)));
    assert_eq!(merged.get_object((6, 0)), Some(&page_tree(&[1, 4])));
}

#[test]
fn a_dangling_reference_fails_the_whole_merge() {
    let mut broken = one_page(1, 50, 80);
    broken.document.insert_object((5, 0), PdfObject::Array(vec![reference(6)]));
    assert_eq!(
        merge_sources(vec![one_page(1, 100, 100), broken]),
        Err(MergeError::DanglingReferenceAfterMerge)
    );
}

#[test]
fn a_reference_into_another_source_is_dangling() {
    let mut second = one_page(10, 50, 80);
    second.document.insert_object((20, 0), reference(1));
    assert_eq!(
        merge_sources(vec![one_page(1, 100, 100), second]),
        Err(MergeError::DanglingReferenceAfterMerge)
    );
}

#[test]
fn the_trailers_of_the_sources_are_not_looked_at() {
    let mut first = one_page(1, 100, 100);
    first.document.set_trailer_entry(b"Info".to_vec(), reference(99));
    let merged = merge_sources(vec![first, one_page(1, 50, 80)]).unwrap();
    assert_eq!(merged.trailer().entries, vec![(b"Root".to_vec(), reference(10))]);
    assert_eq!(merged.version(), "1.5");
}

#[test]
fn copy_all_objects_puts_the_copies_behind_and_returns_the_mapping() {
    let source = one_page(20, 100, 100).document;
    let mut target = PdfDocument::with_version("1.5");
    target.insert_object((1, 0), PdfObject::Null);
    let map = copy_all_objects(&source, &mut target, 2).unwrap();
    assert_eq!(map.get((20, 0)), Some((2, 0)));
    assert_eq!(map.get((23, 0)), Some((5, 0)));
    assert_eq!(map.get((24, 0)), None);
    let mut objects = vec![(1, PdfObject::Null)];
    objects.extend(copied_page(2, 100, 100, 2));
    let mut expected = PdfDocument::with_version("1.5");
    for (number, object) in objects {
        expected.insert_object((number, 0), object);
    }
    assert_eq!(target, expected);
}

#[test]
fn copy_all_objects_replaces_what_stood_under_the_new_numbers() {
    let source = document("1.4", 1, vec![(8, PdfObject::Integer(8)), (9, reference(8))]);
    let mut target = PdfDocument::with_version("1.5");
    target.insert_object((2, 0), PdfObject::Boolean(true));
    target.insert_object((5, 0), PdfObject::Boolean(false));
    copy_all_objects(&source, &mut target, 1).unwrap();
    let ids: Vec<ObjectId> = target.objects().iter().map(|e| e.0).collect();
    assert_eq!(ids, vec![(1, 0), (2, 0), (5, 0)]);
    assert_eq!(target.get_object((1, 0)), Some(&PdfObject::Integer(8)));
    assert_eq!(target.get_object((2, 0)), Some(&reference(1)));
    assert_eq!(target.get_object((5, 0)), Some(&PdfObject::Boolean(false)));
}

#[test]
fn a_failed_copy_leaves_the_target_as_it_was() {
    let source = document("1.4", 1, vec![(1, PdfObject::Null), (2, reference(3))]);
    let mut target = PdfDocument::with_version("1.5");
    target.insert_object((1, 0), PdfObject::Integer(1));
    assert_eq!(
        copy_all_objects(&source, &mut target, 2).err(),
        Some(MergeError::DanglingReferenceAfterMerge)
    );
    let mut expected = PdfDocument::with_version("1.5");
    expected.insert_object((1, 0), PdfObject::Integer(1));
    assert_eq!(target, expected);
}

#[test]
fn a_copy_fails_where_the_numbers_run_out() {
    let source = document("1.4", 1, vec![(1, PdfObject::Null), (2, reference(3))]);
    let mut target = PdfDocument::with_version("1.5");
    assert_eq!(
        copy_all_objects(&source, &mut target, u32::MAX - 1).err(),
        Some(MergeError::TooManyObjects)
    );
    assert_eq!(target, PdfDocument::with_version("1.5"));
    let fitting = document("1.4", 1, vec![(1, PdfObject::Null), (2, reference(1))]);
    assert!(copy_all_objects(&fitting, &mut target, u32::MAX - 2).is_ok());
    assert_eq!(target.get_object((u32::MAX - 1, 0)), Some(&reference(u32::MAX - 2)));
}

#[test]
fn build_page_tree_adopts_the_pages_and_sets_the_root() {
    let mut target = PdfDocument::with_version("1.5");
    target.insert_object((1, 0), dict(vec![("Type", name("Page")), ("Parent", reference(50))]));
    target.insert_object((2, 0), dict(vec![("Type", name("Page"))]));
    target.insert_object((3, 0), dict(vec![("Type", name("Font"))]));
    let pages = vec![(2, 0), (1, 0), (2, 0), (8, 0)];
    assert_eq!(build_page_tree(&mut target, &pages, (10, 0), (11, 0)), Ok(()));
    let objects = vec![
        (1, dict(vec![("Type", name("Page")), ("Parent", reference(10))])),
        (2, dict(vec![("Type", name("Page")), ("Parent", reference(10))])),
        (3, dict(vec![("Type", name("Font"))])),
        (10, page_tree(&[2, 1, 2, 8])),
        (11, catalog(10)),
    ];
    assert_eq!(target, document("1.5", 11, objects));
}

#[test]
fn merging_a_document_with_its_clone_doubles_it() {
    let source = one_page(1, 100, 100);
    let merged = merge_sources(vec![source.clone(), source]).unwrap();
    let mut objects = copied_page(1, 100, 100, 9);
    objects.extend(copied_page(5, 100, 100, 9));
    objects.push((9, page_tree(&[3, 7])));
    objects.push((10, catalog(9)));
    assert_eq!(merged, document("1.5", 10, objects));
}
