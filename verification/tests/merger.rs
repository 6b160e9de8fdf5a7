use lopdf::content::Content;
use lopdf::content::Operation;
use pdf_merger_lig::document::PdfDocument;
use pdf_merger_lig::error::MergeError;
use pdf_merger_lig::merger::assemble_document;
use pdf_merger_lig::merger::collect_pages;
use pdf_merger_lig::merger::extract_pages;
use pdf_merger_lig::merger::merge_documents;
use pdf_merger_lig::merger::merge_pdfs;
use pdf_merger_lig::merger::process_documents;
use pdf_merger_lig::merger::renumber_document;
use pdf_merger_lig::object::ObjectId;
use pdf_merger_lig::object::PdfDictionary;
use pdf_merger_lig::object::PdfObject;
use pdf_merger_lig::object::PdfStream;
use pdf_merger_lig::object::Role;
use std::collections::BTreeMap;

fn name(text: &str) -> PdfObject {
    PdfObject::Name(text.as_bytes().to_vec())
}

fn dictionary(entries: Vec<(&str, PdfObject)>) -> PdfDictionary {
    let mut dict = PdfDictionary::new();
    for (key, value) in entries {
        dict.set(key.as_bytes().to_vec(), value);
    }
    dict
}

fn integers(values: &[i64]) -> PdfObject {
    PdfObject::Array(values.iter().map(|value| PdfObject::Integer(*value)).collect())
}

fn hello_world() -> Vec<u8> {
    let content = Content {
        operations: vec![
            Operation::new("BT", vec![]),
            Operation::new("Tf", vec!["F1".into(), 48.into()]),
            Operation::new("Td", vec![100.into(), 600.into()]),
            Operation::new("Tj", vec![lopdf::Object::string_literal("Hello World!")]),
            Operation::new("ET", vec![]),
        ],
    };
    content.encode().unwrap()
}

pub fn create_simple_pdf() -> PdfDocument {
    let mut doc = PdfDocument::with_version("1.5");
    let pages_id = doc.new_object_id();
    let font_id = doc.add_object(PdfObject::Dictionary(dictionary(vec![
        ("Type", name("Font")),
        ("Subtype", name("Type1")),
        ("BaseFont", name("Courier")),
    ])));
    let resources_id = doc.add_object(PdfObject::Dictionary(dictionary(vec![(
        "Font",
        PdfObject::Dictionary(dictionary(vec![("F1", PdfObject::Reference(font_id))])),
    )])));
    let content_id = doc.add_object(PdfObject::Stream(PdfStream::new(
        PdfDictionary::new(),
        hello_world(),
    )));
    let page_id = doc.add_object(PdfObject::Dictionary(dictionary(vec![
        ("Type", name("Page")),
        ("Parent", PdfObject::Reference(pages_id)),
        ("Contents", PdfObject::Reference(content_id)),
        ("Resources", PdfObject::Reference(resources_id)),
        ("MediaBox", integers(&[0, 0, 595, 842])),
    ])));
    let pages = dictionary(vec![
        ("Type", name("Pages")),
        ("Kids", PdfObject::Array(vec![PdfObject::Reference(page_id)])),
        ("Count", PdfObject::Integer(1)),
    ]);
    doc.objects.insert(pages_id, PdfObject::Dictionary(pages));
    let catalog_id = doc.add_object(PdfObject::Dictionary(dictionary(vec![
        ("Type", name("Catalog")),
        ("Pages", PdfObject::Reference(pages_id)),
    ])));
    doc.trailer.set(b"Root".to_vec(), PdfObject::Reference(catalog_id));

    doc
}

fn ids_with_role(objects: &BTreeMap<ObjectId, PdfObject>, role: Role) -> Vec<ObjectId> {
    objects.iter().filter(|(_, object)| object.role() == role).map(|(id, _)| *id).collect()
}

fn entry<'a>(object: &'a PdfObject, key: &str) -> Option<&'a PdfObject> {
    object.as_dict().and_then(|dict| dict.get(key.as_bytes()))
}

#[test]
fn test_process_documents_single_doc() {
    let doc = create_simple_pdf();
    let result = process_documents(vec![doc]).unwrap();
    assert_eq!(result.0.len(), 1);
    assert!(!result.1.is_empty());
}

#[test]
fn test_merge_documents() {
    let doc1 = create_simple_pdf();
    let doc2 = create_simple_pdf();
    let (documents_pages, documents_objects) = process_documents(vec![doc1, doc2]).unwrap();
    let merged_doc = merge_documents(documents_pages, documents_objects).unwrap();
    assert_eq!(extract_pages(&merged_doc).unwrap().len(), 2);
}

#[test]
fn renumbering_moves_a_document_to_the_given_start() {
    let doc = create_simple_pdf();
    let numbered = renumber_document(&doc, 10).unwrap();
    let ids: Vec<ObjectId> = numbered.objects.keys().cloned().collect();
    assert_eq!(ids, vec![(10, 0), (11, 0), (12, 0), (13, 0), (14, 0), (15, 0)]);
    assert_eq!(numbered.max_id, 15);
    assert_eq!(
        entry(&numbered.objects[&(14, 0)], "Parent"),
        Some(&PdfObject::Reference((10, 0)))
    );
    assert_eq!(numbered.trailer.get(b"Root"), Some(&PdfObject::Reference((15, 0))));
}

#[test]
fn renumbering_fails_where_the_numbers_run_out() {
    let doc = create_simple_pdf();
    assert_eq!(renumber_document(&doc, u32::MAX - 2).err(), Some(MergeError::NumberOutOfRange));
    assert_eq!(renumber_document(&doc, u32::MAX - 6).map(|d| d.max_id), Ok(u32::MAX - 1));
    let empty = PdfDocument::with_version("1.5");
    assert_eq!(renumber_document(&empty, 0).err(), Some(MergeError::NumberOutOfRange));
    assert_eq!(renumber_document(&empty, 1).map(|d| d.max_id), Ok(0));
}

#[test]
fn extract_pages_finds_the_leaves_of_a_document() {
    let doc = create_simple_pdf();
    let pages = extract_pages(&doc).unwrap();
    assert_eq!(pages.keys().cloned().collect::<Vec<ObjectId>>(), vec![(5, 0)]);
    assert_eq!(pages[&(5, 0)], doc.objects[&(5, 0)]);
}

#[test]
fn collect_pages_copies_the_named_objects() {
    let doc = create_simple_pdf();
    let leaves = collect_pages(&doc, &vec![(5, 0), (2, 0)]).unwrap();
    assert_eq!(leaves.len(), 2);
    assert_eq!(leaves[&(2, 0)], doc.objects[&(2, 0)]);
    assert_eq!(leaves[&(5, 0)], doc.objects[&(5, 0)]);
    assert_eq!(collect_pages(&doc, &Vec::new()).unwrap().len(), 0);
}

#[test]
fn collect_pages_fails_at_the_first_missing_object() {
    let doc = create_simple_pdf();
    let result = collect_pages(&doc, &vec![(5, 0), (40, 0), (41, 0)]);
    assert_eq!(result.err(), Some(MergeError::ObjectNotFound((40, 0))));
}

#[test]
fn single_leaf_documents_keep_their_order() {
    let documents = vec![create_simple_pdf(), create_simple_pdf(), create_simple_pdf()];
    let (pages, objects) = process_documents(documents).unwrap();
    assert_eq!(pages.keys().cloned().collect::<Vec<ObjectId>>(), vec![(5, 0), (11, 0), (17, 0)]);
    let document = assemble_document(pages, objects).unwrap();
    let roots = ids_with_role(&document.objects, Role::Pages);
    assert_eq!(roots, vec![(13, 0)]);
    let root = &document.objects[&(13, 0)];
    assert_eq!(entry(root, "Count"), Some(&PdfObject::Integer(3)));
    assert_eq!(
        entry(root, "Kids"),
        Some(&PdfObject::Array(vec![
            PdfObject::Reference((5, 0)),
            PdfObject::Reference((11, 0)),
            PdfObject::Reference((17, 0)),
        ]))
    );
}

#[test]
fn no_object_is_lost_to_another() {
    let documents = vec![create_simple_pdf(), create_simple_pdf(), create_simple_pdf()];
    let (_, objects) = process_documents(documents).unwrap();
    assert_eq!(objects.len(), 18);
    let numbers: Vec<u32> = objects.keys().map(|id| id.0).collect();
    assert_eq!(numbers, (1..=18).collect::<Vec<u32>>());
    assert_eq!(entry(&objects[&(18, 0)], "Pages"), Some(&PdfObject::Reference((13, 0))));
    assert_eq!(entry(&objects[&(12, 0)], "Pages"), Some(&PdfObject::Reference((7, 0))));
}

#[test]
fn a_merge_has_one_descriptor_and_one_root() {
    let (pages, objects) =
        process_documents(vec![create_simple_pdf(), create_simple_pdf()]).unwrap();
    let document = assemble_document(pages, objects).unwrap();
    assert_eq!(ids_with_role(&document.objects, Role::Catalog), vec![(6, 0)]);
    assert_eq!(ids_with_role(&document.objects, Role::Pages), vec![(7, 0)]);
    assert_eq!(ids_with_role(&document.objects, Role::Page), vec![(5, 0), (11, 0)]);
    assert_eq!(
        entry(&document.objects[&(6, 0)], "Pages"),
        Some(&PdfObject::Reference((7, 0)))
    );
    assert_eq!(document.trailer.get(b"Root"), Some(&PdfObject::Reference((6, 0))));
    assert_eq!(document.version, "1.5");
    assert_eq!(document.max_id, 10);
    assert_eq!(document.objects.len(), 10);
}

#[test]
fn outlines_do_not_survive_a_merge() {
    let mut doc = create_simple_pdf();
    let outlines_id = doc.add_object(PdfObject::Dictionary(dictionary(vec![
        ("Type", name("Outlines")),
        ("Count", PdfObject::Integer(1)),
    ])));
    let outline_id = doc.add_object(PdfObject::Dictionary(dictionary(vec![
        ("Type", name("Outline")),
        ("Parent", PdfObject::Reference(outlines_id)),
    ])));
    if let Some(PdfObject::Dictionary(catalog)) = doc.objects.get_mut(&(6, 0)) {
        catalog.set(b"Outlines".to_vec(), PdfObject::Reference(outlines_id));
    }
    let mut objects = BTreeMap::new();
    for (id, object) in doc.objects.iter() {
        objects.insert(*id, object.clone());
    }
    let mut pages = BTreeMap::new();
    pages.insert((5, 0), doc.objects[&(5, 0)].clone());
    let document = assemble_document(pages, objects).unwrap();
    assert!(!document.objects.contains_key(&outlines_id));
    assert!(!document.objects.contains_key(&outline_id));
    assert!(ids_with_role(&document.objects, Role::Outlines).is_empty());
    assert!(ids_with_role(&document.objects, Role::Outline).is_empty());
    assert_eq!(entry(&document.objects[&(6, 0)], "Outlines"), None);
    assert_eq!(
        entry(&document.objects[&(6, 0)], "Pages"),
        Some(&PdfObject::Reference((1, 0)))
    );
}

#[test]
fn the_earliest_root_decides_a_shared_key() {
    let mut first = create_simple_pdf();
    let mut second = create_simple_pdf();
    if let Some(PdfObject::Dictionary(root)) = first.objects.get_mut(&(1, 0)) {
        root.set(b"Rotate".to_vec(), PdfObject::Integer(90));
    }
    if let Some(PdfObject::Dictionary(root)) = second.objects.get_mut(&(1, 0)) {
        root.set(b"Rotate".to_vec(), PdfObject::Integer(180));
        root.set(b"Lang".to_vec(), name("fr"));
    }
    let (pages, objects) = process_documents(vec![first, second]).unwrap();
    let document = assemble_document(pages, objects).unwrap();
    let root = &document.objects[&(7, 0)];
    assert_eq!(entry(root, "Rotate"), Some(&PdfObject::Integer(90)));
    assert_eq!(entry(root, "Lang"), Some(&name("fr")));
    assert_eq!(entry(root, "Type"), Some(&name("Pages")));
    assert_eq!(entry(root, "Count"), Some(&PdfObject::Integer(2)));
}

#[test]
fn merging_no_documents_fails() {
    let result = merge_pdfs(Vec::new());
    assert_eq!(result.err(), Some(MergeError::MissingCatalogOrPages));
    let (pages, objects) = process_documents(Vec::new()).unwrap();
    assert!(pages.is_empty());
    assert!(objects.is_empty());
    assert_eq!(
        merge_documents(BTreeMap::new(), BTreeMap::new()).err(),
        Some(MergeError::MissingCatalogOrPages)
    );
}

#[test]
fn merging_without_a_root_of_pages_fails() {
    let mut objects = BTreeMap::new();
    objects.insert((1, 0), PdfObject::Dictionary(dictionary(vec![("Type", name("Catalog"))])));
    assert_eq!(
        assemble_document(BTreeMap::new(), objects).err(),
        Some(MergeError::MissingCatalogOrPages)
    );
}

#[test]
fn merging_one_document_keeps_its_leaf() {
    let doc = create_simple_pdf();
    let leaf = doc.objects[&(5, 0)].clone();
    let merged = merge_pdfs(vec![doc]).unwrap();
    let pages = extract_pages(&merged).unwrap();
    assert_eq!(pages.len(), 1);
    let (_, merged_leaf) = pages.iter().next().unwrap();
    assert_eq!(entry(merged_leaf, "Type"), entry(&leaf, "Type"));
    assert_eq!(entry(merged_leaf, "MediaBox"), entry(&leaf, "MediaBox"));
    assert_eq!(merged_leaf.as_dict().unwrap().entries().len(), 5);
}

#[test]
fn two_documents_of_one_leaf_each_merge_into_two_leaves() {
    let merged = merge_pdfs(vec![create_simple_pdf(), create_simple_pdf()]).unwrap();
    let roots = ids_with_role(&merged.objects, Role::Pages);
    assert_eq!(roots.len(), 1);
    let root = &merged.objects[&roots[0]];
    assert_eq!(entry(root, "Count"), Some(&PdfObject::Integer(2)));
    let leaves = ids_with_role(&merged.objects, Role::Page);
    assert_eq!(leaves.len(), 2);
    for leaf in leaves.iter() {
        assert_eq!(
            entry(&merged.objects[leaf], "Parent"),
            Some(&PdfObject::Reference(roots[0]))
        );
    }
    let kids: Vec<PdfObject> = leaves.iter().map(|leaf| PdfObject::Reference(*leaf)).collect();
    assert_eq!(entry(root, "Kids"), Some(&PdfObject::Array(kids)));
    assert_eq!(ids_with_role(&merged.objects, Role::Catalog).len(), 1);
    assert_eq!(merged.objects.len(), 10);
    assert_eq!(merged.max_id, 10);
    let numbers: Vec<u32> = merged.objects.keys().map(|id| id.0).collect();
    assert_eq!(numbers, (1..=10).collect::<Vec<u32>>());
}

#[test]
fn a_leaf_that_is_no_dictionary_fails_the_merge() {
    let (mut pages, objects) = process_documents(vec![create_simple_pdf()]).unwrap();
    pages.insert((9, 0), PdfObject::Integer(7));
    pages.insert((8, 1), PdfObject::Null);
    assert_eq!(
        merge_documents(pages, objects).err(),
        Some(MergeError::PageNotDictionary((8, 1)))
    );
}

#[test]
fn a_merge_compresses_long_streams() {
    let mut doc = create_simple_pdf();
    let long = vec![b'A'; 4000];
    doc.objects.insert(
        (4, 0),
        PdfObject::Stream(PdfStream::new(PdfDictionary::new(), long.clone())),
    );
    let merged = merge_pdfs(vec![doc]).unwrap();
    let streams: Vec<&PdfStream> = merged
        .objects
        .values()
        .filter_map(|object| match object {
            PdfObject::Stream(stream) => Some(stream),
            _ => None,
        })
        .collect();
    assert_eq!(streams.len(), 1);
    assert!(streams[0].content.len() < long.len());
    assert_eq!(streams[0].dict.get(b"Filter"), Some(&name("FlateDecode")));
}

#[test]
fn objects_of_every_kind_pass_through_a_merge() {
    let mut doc = create_simple_pdf();
    let mut inner = PdfDictionary::new();
    inner.set(b"Flag".to_vec(), PdfObject::Boolean(true));
    inner.set(b"Nothing".to_vec(), PdfObject::Null);
    let carried = PdfObject::Array(vec![
        PdfObject::Real(b"595.5".to_vec()),
        PdfObject::Real(b"-0.25".to_vec()),
        PdfObject::Integer(-7),
        PdfObject::String(b"plain".to_vec(), pdf_merger_lig::object::StringFormat::Literal),
        PdfObject::String(vec![0, 255, 16], pdf_merger_lig::object::StringFormat::Hexadecimal),
        PdfObject::Dictionary(inner),
        name("Courier"),
    ]);
    let carried_id = doc.add_object(carried.clone());
    if let Some(PdfObject::Dictionary(catalog)) = doc.objects.get_mut(&(6, 0)) {
        catalog.set(b"Extra".to_vec(), PdfObject::Reference(carried_id));
    }
    let merged = merge_pdfs(vec![doc]).unwrap();
    assert_eq!(merged.objects[&(7, 0)], carried);
    assert_eq!(merged.version, "1.5");
}

#[test]
fn leaves_of_one_document_keep_their_order() {
    let mut doc = PdfDocument::with_version("1.5");
    let pages_id = doc.new_object_id();
    let second_id = doc.add_object(PdfObject::Dictionary(dictionary(vec![
        ("Type", name("Page")),
        ("Parent", PdfObject::Reference(pages_id)),
        ("Label", name("second")),
    ])));
    let first_id = doc.add_object(PdfObject::Dictionary(dictionary(vec![
        ("Type", name("Page")),
        ("Parent", PdfObject::Reference(pages_id)),
        ("Label", name("first")),
    ])));
    doc.objects.insert(
        pages_id,
        PdfObject::Dictionary(dictionary(vec![
            ("Type", name("Pages")),
            (
                "Kids",
                PdfObject::Array(vec![
                    PdfObject::Reference(first_id),
                    PdfObject::Reference(second_id),
                ]),
            ),
            ("Count", PdfObject::Integer(2)),
        ])),
    );
    let catalog_id = doc.add_object(PdfObject::Dictionary(dictionary(vec![
        ("Type", name("Catalog")),
        ("Pages", PdfObject::Reference(pages_id)),
    ])));
    doc.trailer.set(b"Root".to_vec(), PdfObject::Reference(catalog_id));
    assert!(second_id < first_id);

    let (pages, _) = process_documents(vec![doc, create_simple_pdf()]).unwrap();
    let labels: Vec<Option<&PdfObject>> =
        pages.values().map(|leaf| entry(leaf, "Label")).collect();
    assert_eq!(labels, vec![Some(&name("first")), Some(&name("second")), None]);
}

#[test]
fn a_descriptor_that_is_a_stream_fails_the_merge() {
    let mut stream_dict = PdfDictionary::new();
    stream_dict.set(b"Type".to_vec(), name("Catalog"));
    let mut objects = BTreeMap::new();
    objects.insert((1, 0), PdfObject::Stream(PdfStream::new(stream_dict, Vec::new())));
    objects.insert((2, 0), PdfObject::Dictionary(dictionary(vec![("Type", name("Pages"))])));
    let later = objects.clone();
    assert_eq!(
        merge_documents(BTreeMap::new(), objects).err(),
        Some(MergeError::AnchorNotDictionary((1, 0)))
    );

    let mut with_later_descriptor = later;
    with_later_descriptor.insert(
        (3, 0),
        PdfObject::Dictionary(dictionary(vec![("Type", name("Catalog"))])),
    );
    assert_eq!(
        assemble_document(BTreeMap::new(), with_later_descriptor).err(),
        Some(MergeError::AnchorNotDictionary((1, 0)))
    );
}

#[test]
fn a_broken_leaf_is_reported_before_a_broken_descriptor() {
    let mut stream_dict = PdfDictionary::new();
    stream_dict.set(b"Type".to_vec(), name("Catalog"));
    let mut objects = BTreeMap::new();
    objects.insert((1, 0), PdfObject::Stream(PdfStream::new(stream_dict, Vec::new())));
    objects.insert((2, 0), PdfObject::Dictionary(dictionary(vec![("Type", name("Pages"))])));
    let mut pages = BTreeMap::new();
    pages.insert((4, 0), PdfObject::Null);
    assert_eq!(
        assemble_document(pages, objects).err(),
        Some(MergeError::PageNotDictionary((4, 0)))
    );
}

#[test]
fn leaves_of_a_document_are_typed_as_pages_or_not_at_all() {
    let mut doc = create_simple_pdf();
    let untyped = doc.add_object(PdfObject::Dictionary(dictionary(vec![(
        "Parent",
        PdfObject::Reference((1, 0)),
    )])));
    let font = doc.add_object(PdfObject::Dictionary(dictionary(vec![("Type", name("Font"))])));
    if let Some(PdfObject::Dictionary(root)) = doc.objects.get_mut(&(1, 0)) {
        root.set(
            b"Kids".to_vec(),
            PdfObject::Array(vec![
                PdfObject::Reference((5, 0)),
                PdfObject::Reference(font),
                PdfObject::Reference(untyped),
            ]),
        );
    }
    let pages = extract_pages(&doc).unwrap();
    assert_eq!(pages.keys().cloned().collect::<Vec<ObjectId>>(), vec![(5, 0), untyped]);
    for leaf in pages.values() {
        assert!(leaf.role() == Role::Page || leaf.role() == Role::Other);
    }
}

#[test]
fn the_merged_document_holds_no_outline() {
    let mut doc = create_simple_pdf();
    let outlines_id = doc.add_object(PdfObject::Dictionary(dictionary(vec![
        ("Type", name("Outlines")),
        ("Count", PdfObject::Integer(1)),
    ])));
    doc.add_object(PdfObject::Dictionary(dictionary(vec![
        ("Type", name("Outline")),
        ("Parent", PdfObject::Reference(outlines_id)),
    ])));
    if let Some(PdfObject::Dictionary(catalog)) = doc.objects.get_mut(&(6, 0)) {
        catalog.set(b"Outlines".to_vec(), PdfObject::Reference(outlines_id));
    }
    let merged = merge_pdfs(vec![create_simple_pdf(), doc]).unwrap();
    assert!(ids_with_role(&merged.objects, Role::Outlines).is_empty());
    assert!(ids_with_role(&merged.objects, Role::Outline).is_empty());
    let descriptors = ids_with_role(&merged.objects, Role::Catalog);
    assert_eq!(descriptors.len(), 1);
    assert_eq!(entry(&merged.objects[&descriptors[0]], "Outlines"), None);
    assert_eq!(merged.trailer.get(b"Root"), Some(&PdfObject::Reference(descriptors[0])));
    assert_eq!(merged.objects.len(), 10);
}
