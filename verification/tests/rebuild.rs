use pdf_merger_lig::document::extend_table;
use pdf_merger_lig::document::PdfDocument;
use pdf_merger_lig::error::MergeError;
use pdf_merger_lig::ids::ordered_ids;
use pdf_merger_lig::object::ObjectId;
use pdf_merger_lig::object::PdfDictionary;
use pdf_merger_lig::object::PdfObject;
use pdf_merger_lig::object::PdfStream;
use pdf_merger_lig::rebuild::insert_pages;
use pdf_merger_lig::rebuild::update_catalog_object;
use pdf_merger_lig::rebuild::update_pages_object;
use pdf_merger_lig::reconcile::find_catalog_and_pages;
use std::collections::BTreeMap;

fn name(text: &str) -> PdfObject {
    PdfObject::Name(text.as_bytes().to_vec())
}

fn dictionary(entries: Vec<(&str, PdfObject)>) -> PdfObject {
    let mut dict = PdfDictionary::new();
    for (key, value) in entries {
        dict.set(key.as_bytes().to_vec(), value);
    }
    PdfObject::Dictionary(dict)
}

fn keys(objects: &BTreeMap<ObjectId, PdfObject>) -> Vec<ObjectId> {
    objects.keys().cloned().collect()
}

#[test]
fn ordered_ids_sorts_by_number_then_generation() {
    let mut objects = BTreeMap::new();
    objects.insert((2, 0), 'a');
    objects.insert((1, 7), 'b');
    objects.insert((1, 2), 'c');
    objects.insert((10, 0), 'd');
    assert_eq!(ordered_ids(&objects), vec![(1, 2), (1, 7), (2, 0), (10, 0)]);
    assert_eq!(ordered_ids(&BTreeMap::<ObjectId, u8>::new()), Vec::new());
}

#[test]
fn extend_table_prefers_the_source() {
    let mut target = BTreeMap::new();
    target.insert((1, 0), PdfObject::Integer(1));
    target.insert((2, 0), PdfObject::Integer(2));
    let mut source = BTreeMap::new();
    source.insert((2, 0), PdfObject::Integer(20));
    source.insert((3, 0), PdfObject::Integer(30));
    extend_table(&mut target, source);
    assert_eq!(keys(&target), vec![(1, 0), (2, 0), (3, 0)]);
    assert_eq!(target[&(1, 0)], PdfObject::Integer(1));
    assert_eq!(target[&(2, 0)], PdfObject::Integer(20));
    assert_eq!(target[&(3, 0)], PdfObject::Integer(30));
}

#[test]
fn find_keeps_the_first_descriptor_and_merges_the_roots() {
    let mut objects = BTreeMap::new();
    objects.insert((1, 0), dictionary(vec![("Type", name("Pages")), ("A", PdfObject::Integer(1))]));
    objects.insert(
        (2, 0),
        dictionary(vec![("Type", name("Catalog")), ("N", PdfObject::Integer(1))]),
    );
    objects.insert((3, 0), dictionary(vec![("Type", name("Font"))]));
    objects.insert((4, 0), dictionary(vec![("Type", name("Page"))]));
    objects.insert((5, 0), dictionary(vec![
        ("Type", name("Pages")),
        ("A", PdfObject::Integer(2)),
        ("B", PdfObject::Integer(3)),
    ]));
    objects.insert(
        (6, 0),
        dictionary(vec![("Type", name("Catalog")), ("N", PdfObject::Integer(2))]),
    );
    objects.insert((7, 0), dictionary(vec![("Type", name("Outlines"))]));
    objects.insert((8, 0), dictionary(vec![("Type", name("Outline"))]));
    objects.insert((9, 0), PdfObject::Integer(9));
    objects.insert(
        (10, 0),
        PdfObject::Stream(PdfStream::new(PdfDictionary::new(), vec![1, 2])),
    );
    let mut stream_dict = PdfDictionary::new();
    stream_dict.set(b"Type".to_vec(), name("Pages"));
    objects.insert((11, 0), PdfObject::Stream(PdfStream::new(stream_dict, Vec::new())));
    let mut document = PdfDocument::with_version("1.5");
    document.objects.insert((3, 0), PdfObject::Null);
    document.objects.insert((40, 0), PdfObject::Null);
    let ((catalog_id, catalog), (pages_id, pages)) =
        find_catalog_and_pages(&mut document, &objects).unwrap();
    assert_eq!(catalog_id, (2, 0));
    assert_eq!(catalog, objects[&(2, 0)]);
    assert_eq!(pages_id, (5, 0));
    let root = pages.as_dict().unwrap();
    assert_eq!(root.get(b"A"), Some(&PdfObject::Integer(1)));
    assert_eq!(root.get(b"B"), Some(&PdfObject::Integer(3)));
    assert_eq!(root.get(b"Type"), Some(&name("Pages")));
    assert_eq!(root.entries().len(), 3);
    assert_eq!(keys(&document.objects), vec![(3, 0), (9, 0), (10, 0), (40, 0)]);
    assert_eq!(document.objects[&(3, 0)], objects[&(3, 0)]);
    assert_eq!(document.objects[&(9, 0)], PdfObject::Integer(9));
    assert_eq!(document.objects[&(40, 0)], PdfObject::Null);
}

#[test]
fn find_fails_without_both_anchors() {
    let mut objects = BTreeMap::new();
    objects.insert((1, 0), dictionary(vec![("Type", name("Pages"))]));
    objects.insert((2, 0), PdfObject::Boolean(true));
    let mut document = PdfDocument::with_version("1.5");
    assert_eq!(
        find_catalog_and_pages(&mut document, &objects).err(),
        Some(MergeError::MissingCatalogOrPages)
    );
    assert_eq!(keys(&document.objects), vec![(2, 0)]);
    let mut only_catalog = BTreeMap::new();
    only_catalog.insert((1, 0), dictionary(vec![("Type", name("Catalog"))]));
    assert_eq!(
        find_catalog_and_pages(&mut document, &only_catalog).err(),
        Some(MergeError::MissingCatalogOrPages)
    );
}

#[test]
fn insert_pages_sets_the_parent_of_each_leaf() {
    let mut pages = BTreeMap::new();
    pages.insert(
        (4, 0),
        dictionary(vec![("Type", name("Page")), ("Parent", PdfObject::Reference((1, 0)))]),
    );
    pages.insert((9, 0), dictionary(vec![("Type", name("Page"))]));
    let mut document = PdfDocument::with_version("1.5");
    document.objects.insert((9, 0), PdfObject::Null);
    document.objects.insert((2, 0), PdfObject::Integer(2));
    assert_eq!(insert_pages(&mut document, &pages, (30, 0)), Ok(()));
    assert_eq!(keys(&document.objects), vec![(2, 0), (4, 0), (9, 0)]);
    assert_eq!(
        document.objects[&(4, 0)],
        dictionary(vec![("Type", name("Page")), ("Parent", PdfObject::Reference((30, 0)))])
    );
    assert_eq!(
        document.objects[&(9, 0)],
        dictionary(vec![("Type", name("Page")), ("Parent", PdfObject::Reference((30, 0)))])
    );
    assert_eq!(document.objects[&(2, 0)], PdfObject::Integer(2));
}

#[test]
fn insert_pages_stops_at_the_first_leaf_that_is_no_dictionary() {
    let mut pages = BTreeMap::new();
    pages.insert((1, 0), dictionary(vec![("Type", name("Page"))]));
    pages.insert((2, 0), PdfObject::Array(Vec::new()));
    pages.insert((3, 0), dictionary(vec![("Type", name("Page"))]));
    pages.insert((4, 0), PdfObject::Null);
    let mut document = PdfDocument::with_version("1.5");
    assert_eq!(
        insert_pages(&mut document, &pages, (30, 0)),
        Err(MergeError::PageNotDictionary((2, 0)))
    );
    assert_eq!(keys(&document.objects), vec![(1, 0)]);
}

#[test]
fn update_pages_object_counts_and_lists_the_leaves() {
    let mut pages = BTreeMap::new();
    pages.insert((7, 0), PdfObject::Null);
    pages.insert((3, 1), PdfObject::Null);
    pages.insert((3, 0), PdfObject::Null);
    let root = dictionary(vec![
        ("Type", name("Pages")),
        ("Count", PdfObject::Integer(40)),
        ("Rotate", PdfObject::Integer(90)),
    ]);
    let mut document = PdfDocument::with_version("1.5");
    assert_eq!(update_pages_object(&mut document, &root, pages, (5, 0)), Ok(()));
    assert_eq!(keys(&document.objects), vec![(5, 0)]);
    assert_eq!(
        document.objects[&(5, 0)],
        dictionary(vec![
            ("Type", name("Pages")),
            ("Count", PdfObject::Integer(3)),
            ("Rotate", PdfObject::Integer(90)),
            (
                "Kids",
                PdfObject::Array(vec![
                    PdfObject::Reference((3, 0)),
                    PdfObject::Reference((3, 1)),
                    PdfObject::Reference((7, 0)),
                ])
            ),
        ])
    );
    let mut untouched = PdfDocument::with_version("1.5");
    untouched.objects.insert((5, 0), PdfObject::Integer(1));
    assert_eq!(
        update_pages_object(&mut untouched, &PdfObject::Null, BTreeMap::new(), (5, 0)),
        Err(MergeError::AnchorNotDictionary((5, 0)))
    );
    assert_eq!(keys(&untouched.objects), vec![(5, 0)]);
    assert_eq!(untouched.objects[&(5, 0)], PdfObject::Integer(1));
}

#[test]
fn update_catalog_object_points_to_the_root_and_drops_outlines() {
    let catalog = dictionary(vec![
        ("Type", name("Catalog")),
        ("Outlines", PdfObject::Reference((9, 0))),
        ("Pages", PdfObject::Reference((1, 0))),
        ("Lang", name("en")),
    ]);
    let mut document = PdfDocument::with_version("1.5");
    assert_eq!(update_catalog_object(&mut document, &catalog, (6, 0), (5, 0)), Ok(()));
    let written = document.objects[&(6, 0)].as_dict().unwrap();
    assert_eq!(written.get(b"Pages"), Some(&PdfObject::Reference((5, 0))));
    assert_eq!(written.get(b"Outlines"), None);
    assert_eq!(written.get(b"Type"), Some(&name("Catalog")));
    assert_eq!(written.get(b"Lang"), Some(&name("en")));
    assert_eq!(written.entries().len(), 3);
    let mut untouched = PdfDocument::with_version("1.5");
    let mut stream_dict = PdfDictionary::new();
    stream_dict.set(b"Type".to_vec(), name("Catalog"));
    let stream = PdfObject::Stream(PdfStream::new(stream_dict, Vec::new()));
    assert_eq!(
        update_catalog_object(&mut untouched, &stream, (6, 0), (5, 0)),
        Err(MergeError::AnchorNotDictionary((6, 0)))
    );
    assert!(untouched.objects.is_empty());
}
