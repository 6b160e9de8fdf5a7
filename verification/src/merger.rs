//! The merge itself: documents are renumbered and gathered, then assembled into one
//! document, which is numbered anew and compressed.

use vstd::prelude::*;
use std::collections::BTreeMap;
use crate::backend::compress;
use crate::backend::compressed;
use crate::backend::fits;
use crate::backend::numbered_from;
use crate::backend::get_pages;
use crate::backend::page_ids;
use crate::backend::renumber_objects_with;
use crate::backend::renumbered;
use crate::backend::stems_from;
use crate::backend::MAX_OBJECTS;
use crate::document::extend_table;
use crate::document::lemma_table_insert;
use crate::document::object_at;
use crate::document::table_value;
use crate::document::PdfDocument;
use crate::document::DocumentView;
use crate::document::Table;
use crate::error::MergeError;
use crate::ids::id_lt;
use crate::ids::lemma_prefix_step;
use crate::ids::listed_before;
use crate::object::bytes_of;
use crate::object::name;
use crate::object::resembles;
use crate::object::PdfObject;
use crate::object::ObjectId;
use crate::object::Value;
use crate::rebuild::attached;
use crate::rebuild::insert_pages;
use crate::rebuild::is_first_broken_leaf;
use crate::rebuild::leaves_are_dictionaries;
use crate::rebuild::leaves_are_pages;
use crate::rebuild::rebuilt_catalog;
use crate::rebuild::rebuilt_pages_root;
use crate::rebuild::update_catalog_object;
use crate::rebuild::update_pages_object;
use crate::reconcile::find_catalog_and_pages;
use crate::reconcile::has_catalog;
use crate::reconcile::has_pages_root;
use crate::reconcile::kept_catalog_id;
use crate::reconcile::kept_pages_id;
use crate::reconcile::lemma_anchors_unique;
use crate::reconcile::merged_pages_root;
use crate::reconcile::passed_through;

verus! {

/// Whether place `i` is the first whose identifier names no object of the table.
pub open spec fn first_failure(objects: Table, ids: Seq<ObjectId>, i: int) -> bool {
    &&& 0 <= i < ids.len()
    &&& object_at(objects, ids[i]) is Err
    &&& forall|j: int| 0 <= j < i ==> object_at(objects, #[trigger] ids[j]) is Ok
}

/// The leaves of a document: each listed identifier with the object that it names, or
/// the error of the first identifier that names none.
pub open spec fn leaves_of(objects: Table, ids: Seq<ObjectId>) -> Result<Table, MergeError> {
    if exists|i: int| first_failure(objects, ids, i) {
        Err(object_at(objects, ids[choose|i: int| first_failure(objects, ids, i)])->Err_0)
    } else {
        Ok(Map::new(|id: ObjectId| ids.contains(id), |id: ObjectId| object_at(objects, id)->Ok_0))
    }
}

/// Copies out of `document` the objects that the identifiers of `ids` name, in the order
/// of `ids`, and fails at the first that names none.
pub fn collect_pages(document: &PdfDocument, ids: &Vec<ObjectId>) -> (r: Result<
    BTreeMap<ObjectId, PdfObject>,
    MergeError,
>)
    ensures
        match r {
            Ok(leaves) => {
                &&& leaves_of(document@.objects, ids@) == Ok::<Table, MergeError>(
                    table_value(leaves@),
                )
                &&& forall|id: ObjectId| #[trigger]
                    ids@.contains(id) ==> object_at(document@.objects, id) is Ok
            },
            Err(e) => leaves_of(document@.objects, ids@) == Err::<Table, MergeError>(e),
        },
{
    let ghost objects = document@.objects;
    let mut leaves: BTreeMap<ObjectId, PdfObject> = BTreeMap::new();
    let mut i: usize = 0;
    assert(table_value(leaves@) =~= Map::new(
        |id: ObjectId| listed_before(ids@, 0).contains(id),
        |id: ObjectId| object_at(objects, id)->Ok_0,
    ));
    while i < ids.len()
        invariant
            i <= ids.len(),
            objects == document@.objects,
            forall|j: int| 0 <= j < i ==> object_at(objects, #[trigger] ids@[j]) is Ok,
            table_value(leaves@) == Map::new(
                |id: ObjectId| listed_before(ids@, i as int).contains(id),
                |id: ObjectId| object_at(objects, id)->Ok_0,
            ),
        decreases ids.len() - i,
    {
        let id = ids[i];
        match document.get_object(id) {
            Ok(object) => {
                let copy = object.clone();
                proof {
                    lemma_prefix_step(ids@, i as int);
                    lemma_table_insert(leaves@, id, copy);
                    assert(table_value(leaves@).insert(id, copy@) =~= Map::new(
                        |other: ObjectId| listed_before(ids@, i + 1).contains(other),
                        |other: ObjectId| object_at(objects, other)->Ok_0,
                    ));
                }
                leaves.insert(id, copy);
            },
            Err(e) => {
                proof {
                    assert(first_failure(objects, ids@, i as int));
                    let at = choose|at: int| first_failure(objects, ids@, at);
                    assert(at == i);
                }
                return Err(e);
            },
        }
        i += 1;
    }
    proof {
        assert(ids@.take(i as int) =~= ids@);
        assert(!exists|at: int| first_failure(objects, ids@, at));
        assert forall|id: ObjectId| #[trigger] ids@.contains(id) implies object_at(
            objects,
            id,
        ) is Ok by {
            let j = choose|j: int| 0 <= j < ids@.len() && ids@[j] == id;
            assert(object_at(objects, ids@[j]) is Ok);
        }
        assert(table_value(leaves@) =~= Map::new(
            |id: ObjectId| ids@.contains(id),
            |id: ObjectId| object_at(objects, id)->Ok_0,
        ));
    }
    Ok(leaves)
}

/// The leaves of a document: each page that `lopdf` finds in it, with a copy of its
/// object. A leaf that is a dictionary is typed as a leaf or has no type name.
pub fn extract_pages(document: &PdfDocument) -> (r: Result<
    BTreeMap<ObjectId, PdfObject>,
    MergeError,
>)
    ensures
        match r {
            Ok(leaves) => {
                &&& leaves_of(document@.objects, page_ids(document@)) == Ok::<Table, MergeError>(
                    table_value(leaves@),
                )
                &&& forall|id: ObjectId| #[trigger]
                    page_ids(document@).contains(id) ==> document@.objects.contains_key(id)
                &&& leaves_are_pages(table_value(leaves@))
            },
            Err(e) => leaves_of(document@.objects, page_ids(document@)) == Err::<
                Table,
                MergeError,
            >(e),
        },
{
    let ids = get_pages(document);
    let r = collect_pages(document, &ids);
    proof {
        if r is Ok {
            assert forall|id: ObjectId| #[trigger] ids@.contains(id) implies (
            document@.objects).contains_key(id) by {
                assert(object_at(document@.objects, id) is Ok);
            }
        }
    }
    r
}

/// The outcome of renumbering a document from `start` on: what `lopdf` makes of it, where
/// its objects can be numbered.
pub open spec fn renumbering_from(document: DocumentView, start: u32) -> Result<
    DocumentView,
    MergeError,
> {
    if fits(document, start) {
        Ok(renumbered(document, start))
    } else {
        Err(MergeError::NumberOutOfRange)
    }
}

/// Gives the objects of a document the object numbers from `start` on, or fails where
/// they are too many for that. The object numbers of the result are those from `start`
/// up to the document's new highest number, each once, and each object of the result is
/// an object of the document with its role and, as a dictionary, its keys.
pub fn renumber_document(document: &PdfDocument, start: u32) -> (r: Result<
    PdfDocument,
    MergeError,
>)
    ensures
        match r {
            Ok(numbered) => {
                &&& renumbering_from(document@, start) == Ok::<DocumentView, MergeError>(
                    numbered@,
                )
                &&& numbered_from(numbered@, start)
                &&& stems_from(numbered@.objects, document@.objects)
            },
            Err(e) => renumbering_from(document@, start) == Err::<DocumentView, MergeError>(e),
        },
{
    proof {
        assert(document@.objects.dom() =~= document.objects@.dom());
    }
    let count = document.objects.len();
    if count > MAX_OBJECTS || count > (u32::MAX - start) as usize || (count == 0 && start == 0) {
        return Err(MergeError::NumberOutOfRange);
    }
    Ok(renumber_objects_with(document, start))
}

/// What becomes of the documents, given the next free object number and the leaves and
/// objects gathered so far. Each document in turn is renumbered from the next free
/// number on; its leaves and its objects then join those gathered, and the number after
/// its highest is the next free one, where there is such a number.
pub open spec fn aggregate(
    documents: Seq<DocumentView>,
    start: u32,
    pages: Table,
    objects: Table,
) -> Result<(Table, Table), MergeError>
    decreases documents.len(),
{
    if documents.len() == 0 {
        Ok((pages, objects))
    } else if !fits(documents[0], start) {
        Err(MergeError::NumberOutOfRange)
    } else {
        let r = renumbered(documents[0], start);
        if r.max_id == u32::MAX {
            Err(MergeError::NumberOutOfRange)
        } else {
            match leaves_of(r.objects, page_ids(r)) {
                Err(e) => Err(e),
                Ok(leaves) => aggregate(
                    documents.drop_first(),
                    (r.max_id + 1) as u32,
                    pages.union_prefer_right(leaves),
                    objects.union_prefer_right(r.objects),
                ),
            }
        }
    }
}

/// What the documents denote, one by one.
pub open spec fn views(documents: Seq<PdfDocument>) -> Seq<DocumentView> {
    Seq::new(documents.len(), |i: int| documents[i]@)
}

/// The document at place `k` as the merge renumbers it: the first from one on, each
/// other from the number after the highest of the one before.
pub open spec fn renumbering(documents: Seq<DocumentView>, k: int) -> DocumentView
    decreases k,
{
    if k <= 0 {
        renumbered(documents[0], 1)
    } else {
        renumbered(documents[k], (renumbering(documents, k - 1).max_id + 1) as u32)
    }
}

/// The first object number that the document at place `k` gets.
pub open spec fn first_number(documents: Seq<DocumentView>, k: int) -> int {
    if k <= 0 {
        1
    } else {
        renumbering(documents, k - 1).max_id + 1
    }
}

/// The identifiers of the leaves of the document at place `k`, once it is renumbered.
pub open spec fn leaf_ids(documents: Seq<DocumentView>, k: int) -> Seq<ObjectId> {
    page_ids(renumbering(documents, k))
}

/// Whether `objects` holds every object of the first `n` renumbered documents as it is,
/// and nothing else: no object of one document has taken the place of another's.
pub open spec fn keeps_objects(documents: Seq<DocumentView>, n: int, objects: Table) -> bool {
    &&& forall|k: int, id: ObjectId|
        0 <= k < n && #[trigger] renumbering(documents, k).objects.contains_key(id)
            ==> objects.contains_key(id) && objects[id] == renumbering(documents, k).objects[id]
    &&& forall|id: ObjectId| #[trigger]
        objects.contains_key(id) ==> exists|k: int|
            0 <= k < n && renumbering(documents, k).objects.contains_key(id)
}

/// Whether `pages` holds the leaves of the first `n` renumbered documents and no others,
/// those of an earlier document under lower identifiers than those of a later one.
pub open spec fn orders_leaves(documents: Seq<DocumentView>, n: int, pages: Table) -> bool {
    &&& forall|id: ObjectId| #[trigger]
        pages.contains_key(id) <==> exists|k: int|
            0 <= k < n && leaf_ids(documents, k).contains(id)
    &&& forall|j: int, k: int, a: ObjectId, b: ObjectId|
        0 <= j < k < n && #[trigger] leaf_ids(documents, j).contains(a) && #[trigger] leaf_ids(
            documents,
            k,
        ).contains(b) ==> id_lt(a, b)
}

/// Whether the document at place `k`, renumbered, has the object numbers from its first
/// number up to its new highest number, each once.
pub open spec fn numbers_document(documents: Seq<DocumentView>, k: int) -> bool {
    &&& first_number(documents, k) <= u32::MAX
    &&& numbered_from(renumbering(documents, k), first_number(documents, k) as u32)
}

/// Whether each of the first `n` documents, renumbered, has the object numbers from its
/// first number up to its new highest number, each once. The first number of a document
/// is the number after the highest of the one before: so the objects of an earlier
/// document lie below those of a later one.
pub open spec fn numbers_documents(documents: Seq<DocumentView>, n: int) -> bool {
    forall|k: int| 0 <= k < n ==> #[trigger] numbers_document(documents, k)
}

/// Whether the objects and the leaves of the first `n` renumbered documents all have
/// object numbers below `limit`.
spec fn numbered_below(documents: Seq<DocumentView>, n: int, limit: int) -> bool {
    &&& forall|k: int, id: ObjectId|
        0 <= k < n && #[trigger] renumbering(documents, k).objects.contains_key(id) ==> id.0
            < limit
    &&& forall|k: int, id: ObjectId|
        0 <= k < n && #[trigger] leaf_ids(documents, k).contains(id) ==> id.0 < limit
}

/// One more document that is numbered from its first number on keeps the documents
/// numbered.
proof fn lemma_numbers_step(all: Seq<DocumentView>, i: int, start: u32)
    requires
        0 <= i,
        start == first_number(all, i),
        numbers_documents(all, i),
        numbered_from(renumbering(all, i), start),
    ensures
        numbers_documents(all, i + 1),
{
    assert forall|k: int| 0 <= k < i + 1 implies #[trigger] numbers_document(all, k) by {
        if k == i {
            assert(first_number(all, i) as u32 == start);
        }
    }
}

/// One more document keeps what holds of those gathered before it: its objects and its
/// leaves lie above all of theirs, so nothing is lost and the order stands.
proof fn lemma_gather_step(
    all: Seq<DocumentView>,
    i: int,
    start: u32,
    pages_before: Table,
    objects_before: Table,
    new_leaves: Table,
)
    requires
        0 <= i < all.len(),
        start == first_number(all, i),
        keeps_objects(all, i, objects_before),
        orders_leaves(all, i, pages_before),
        leaves_are_pages(pages_before),
        numbered_below(all, i, start as int),
        forall|id: ObjectId| #[trigger]
            renumbering(all, i).objects.contains_key(id) ==> start <= id.0 <= renumbering(
                all,
                i,
            ).max_id,
        start <= renumbering(all, i).max_id + 1,
        forall|id: ObjectId| new_leaves.contains_key(id) <==> leaf_ids(all, i).contains(id),
        forall|id: ObjectId| #[trigger]
            leaf_ids(all, i).contains(id) ==> renumbering(all, i).objects.contains_key(id),
        leaves_are_pages(new_leaves),
    ensures
        first_number(all, i + 1) == renumbering(all, i).max_id + 1,
        keeps_objects(all, i + 1, objects_before.union_prefer_right(renumbering(all, i).objects)),
        orders_leaves(all, i + 1, pages_before.union_prefer_right(new_leaves)),
        leaves_are_pages(pages_before.union_prefer_right(new_leaves)),
        numbered_below(all, i + 1, renumbering(all, i).max_id + 1),
{
    let now = renumbering(all, i);
    let limit = now.max_id + 1;
    let pages_after = pages_before.union_prefer_right(new_leaves);
    let objects_after = objects_before.union_prefer_right(now.objects);
    assert forall|k: int, id: ObjectId|
        0 <= k < i + 1 && #[trigger] renumbering(all, k).objects.contains_key(
            id,
        ) implies objects_after.contains_key(id) && objects_after[id] == renumbering(
        all,
        k,
    ).objects[id] by {
        if k < i {
            assert(id.0 < start);
            assert(!now.objects.contains_key(id));
        }
    }
    assert forall|id: ObjectId| #[trigger] objects_after.contains_key(id) implies exists|k: int|
        0 <= k < i + 1 && renumbering(all, k).objects.contains_key(id) by {
        if now.objects.contains_key(id) {
            assert(renumbering(all, i).objects.contains_key(id));
        } else {
            assert(objects_before.contains_key(id));
            let k = choose|k: int| 0 <= k < i && renumbering(all, k).objects.contains_key(id);
            assert(0 <= k < i + 1 && renumbering(all, k).objects.contains_key(id));
        }
    }
    assert forall|id: ObjectId| #[trigger] pages_after.contains_key(id) <==> exists|k: int|
        0 <= k < i + 1 && leaf_ids(all, k).contains(id) by {
        if pages_after.contains_key(id) {
            if new_leaves.contains_key(id) {
                assert(leaf_ids(all, i).contains(id));
            } else {
                assert(pages_before.contains_key(id));
                let k = choose|k: int| 0 <= k < i && leaf_ids(all, k).contains(id);
                assert(0 <= k < i + 1 && leaf_ids(all, k).contains(id));
            }
        }
        if exists|k: int| 0 <= k < i + 1 && leaf_ids(all, k).contains(id) {
            let k = choose|k: int| 0 <= k < i + 1 && leaf_ids(all, k).contains(id);
            if k < i {
                assert(pages_before.contains_key(id));
            }
        }
    }
    assert forall|j: int, k: int, a: ObjectId, b: ObjectId|
        0 <= j < k < i + 1 && #[trigger] leaf_ids(all, j).contains(a) && #[trigger] leaf_ids(
            all,
            k,
        ).contains(b) implies id_lt(a, b) by {
        if k == i {
            assert(a.0 < start);
            assert(now.objects.contains_key(b));
        }
    }
    assert forall|k: int, id: ObjectId|
        0 <= k < i + 1 && #[trigger] renumbering(all, k).objects.contains_key(id) implies id.0
        < limit by {
        if k < i {
            assert(id.0 < start);
        }
    }
    assert forall|k: int, id: ObjectId|
        0 <= k < i + 1 && #[trigger] leaf_ids(all, k).contains(id) implies id.0 < limit by {
        if k < i {
            assert(id.0 < start);
        } else {
            assert(now.objects.contains_key(id));
        }
    }
}

/// Renumbers the documents in their order, each from the number after the highest of
/// the one before, and gathers the leaves and the objects of all of them. No object is
/// lost to another, and the objects and the leaves of an earlier document come before
/// those of a later one.
pub fn process_documents(documents: Vec<PdfDocument>) -> (r: Result<
    (BTreeMap<ObjectId, PdfObject>, BTreeMap<ObjectId, PdfObject>),
    MergeError,
>)
    ensures
        match r {
            Ok((pages, objects)) => {
                &&& aggregate(views(documents@), 1, Map::empty(), Map::empty()) == Ok::<
                    (Table, Table),
                    MergeError,
                >((table_value(pages@), table_value(objects@)))
                &&& keeps_objects(
                    views(documents@),
                    documents@.len() as int,
                    table_value(objects@),
                )
                &&& orders_leaves(views(documents@), documents@.len() as int, table_value(pages@))
                &&& numbers_documents(views(documents@), documents@.len() as int)
                &&& leaves_are_pages(table_value(pages@))
            },
            Err(e) => aggregate(views(documents@), 1, Map::empty(), Map::empty()) == Err::<
                (Table, Table),
                MergeError,
            >(e),
        },
{
    let ghost all = views(documents@);
    let mut max_id: u32 = 1;
    let mut documents_pages: BTreeMap<ObjectId, PdfObject> = BTreeMap::new();
    let mut documents_objects: BTreeMap<ObjectId, PdfObject> = BTreeMap::new();
    let mut i: usize = 0;
    proof {
        assert(all.skip(0) =~= all);
        assert(table_value(documents_pages@) =~= Map::<ObjectId, Value>::empty());
        assert(table_value(documents_objects@) =~= Map::<ObjectId, Value>::empty());
    }
    while i < documents.len()
        invariant
            i <= documents.len(),
            all == views(documents@),
            max_id == first_number(all, i as int),
            aggregate(all, 1, Map::empty(), Map::empty()) == aggregate(
                all.skip(i as int),
                max_id,
                table_value(documents_pages@),
                table_value(documents_objects@),
            ),
            keeps_objects(all, i as int, table_value(documents_objects@)),
            orders_leaves(all, i as int, table_value(documents_pages@)),
            numbers_documents(all, i as int),
            leaves_are_pages(table_value(documents_pages@)),
            numbered_below(all, i as int, max_id as int),
        decreases documents.len() - i,
    {
        let document = &documents[i];
        let ghost start = max_id;
        let ghost pages_before = table_value(documents_pages@);
        let ghost objects_before = table_value(documents_objects@);
        proof {
            assert(all.skip(i as int)[0] == document@);
            assert(all[i as int] == document@);
            assert(all.skip(i as int).drop_first() =~= all.skip(i + 1));
        }
        let renumbered_document = match renumber_document(document, max_id) {
            Ok(numbered) => numbered,
            Err(e) => {
                return Err(e);
            },
        };
        if renumbered_document.max_id == u32::MAX {
            return Err(MergeError::NumberOutOfRange);
        }
        max_id = renumbered_document.max_id + 1;
        let leaves = match extract_pages(&renumbered_document) {
            Ok(leaves) => leaves,
            Err(e) => {
                return Err(e);
            },
        };
        let ghost now = renumbered_document@;
        let ghost new_leaves = table_value(leaves@);
        proof {
            assert(now == renumbering(all, i as int));
            assert(max_id == first_number(all, i + 1));
        }
        extend_table(&mut documents_pages, leaves);
        extend_table(&mut documents_objects, renumbered_document.objects);
        proof {
            lemma_numbers_step(all, i as int, start);
            lemma_gather_step(all, i as int, start, pages_before, objects_before, new_leaves);
        }
        i += 1;
    }
    Ok((documents_pages, documents_objects))
}

/// The document that the leaves and the objects make, where the objects hold both
/// anchors: what passes through, then the leaves under the merged root, then that root,
/// then the top-level descriptor, each over what stood under its identifier before.
pub open spec fn assembled(pages: Table, objects: Table) -> DocumentView {
    let catalog_id = kept_catalog_id(objects);
    let pages_id = kept_pages_id(objects);
    let written = passed_through(objects).union_prefer_right(attached(pages, pages_id)).insert(
        pages_id,
        Value::Dictionary(rebuilt_pages_root(merged_pages_root(objects), pages)),
    ).insert(
        catalog_id,
        Value::Dictionary(rebuilt_catalog(objects[catalog_id]->Dictionary_0, pages_id)),
    );
    DocumentView {
        version: "1.5"@,
        trailer: Map::<Seq<u8>, Value>::empty().insert(
            bytes_of("Root"),
            Value::Reference(catalog_id),
        ),
        objects: written,
        max_id: written.dom().len() as u32,
    }
}

/// The outcome of putting leaves and objects together: the assembled document, or why
/// there is none. There is none where an anchor is missing, where a leaf is no
/// dictionary, where the top-level descriptor that is kept is no dictionary, or where
/// the objects are too many to number.
pub open spec fn assembly(pages: Table, objects: Table) -> Result<DocumentView, MergeError> {
    if !(has_catalog(objects) && has_pages_root(objects)) {
        Err(MergeError::MissingCatalogOrPages)
    } else if !leaves_are_dictionaries(pages) {
        Err(MergeError::PageNotDictionary(choose|id: ObjectId| is_first_broken_leaf(pages, id)))
    } else if !(objects[kept_catalog_id(objects)] is Dictionary) {
        Err(MergeError::AnchorNotDictionary(kept_catalog_id(objects)))
    } else if assembled(pages, objects).objects.dom().len() > MAX_OBJECTS {
        Err(MergeError::NumberOutOfRange)
    } else {
        Ok(assembled(pages, objects))
    }
}

/// Puts the leaves and the objects together into one document with one top-level
/// descriptor and one root of the pages tree, which lists the leaves. Fails where an
/// anchor is missing or the descriptor is no dictionary, and where a leaf is no
/// dictionary.
pub fn assemble_document(
    documents_pages: BTreeMap<ObjectId, PdfObject>,
    documents_objects: BTreeMap<ObjectId, PdfObject>,
) -> (r: Result<PdfDocument, MergeError>)
    ensures
        match r {
            Ok(document) => assembly(table_value(documents_pages@), table_value(documents_objects@))
                == Ok::<DocumentView, MergeError>(document@),
            Err(e) => assembly(table_value(documents_pages@), table_value(documents_objects@))
                == Err::<DocumentView, MergeError>(e),
        },
{
    let ghost pages = table_value(documents_pages@);
    let ghost objects = table_value(documents_objects@);
    let mut document = PdfDocument::with_version("1.5");
    let ((catalog_id, catalog_object), (pages_id, pages_object)) = match find_catalog_and_pages(
        &mut document,
        &documents_objects,
    ) {
        Ok(found) => found,
        Err(e) => {
            return Err(e);
        },
    };
    proof {
        lemma_anchors_unique(objects, catalog_id, pages_id);
        assert(document@.objects =~= passed_through(objects));
    }
    match insert_pages(&mut document, &documents_pages, pages_id) {
        Ok(()) => {},
        Err(e) => {
            proof {
                let bad = e->PageNotDictionary_0;
                let b = choose|id: ObjectId| is_first_broken_leaf(pages, id);
                assert(!id_lt(b, bad) && !id_lt(bad, b));
            }
            return Err(e);
        },
    }
    match update_pages_object(&mut document, &pages_object, documents_pages, pages_id) {
        Ok(()) => {},
        Err(e) => {
            return Err(e);
        },
    }
    match update_catalog_object(&mut document, &catalog_object, catalog_id, pages_id) {
        Ok(()) => {},
        Err(e) => {
            return Err(e);
        },
    }
    document.trailer.set(name("Root"), PdfObject::Reference(catalog_id));
    proof {
        assert(document@.objects =~= assembled(pages, objects).objects);
        assert(document@.objects.dom() =~= document.objects@.dom());
    }
    let count = document.objects.len();
    if count > MAX_OBJECTS {
        return Err(MergeError::NumberOutOfRange);
    }
    document.max_id = count as u32;
    Ok(document)
}

/// What `lopdf` makes of an assembled document: its objects numbered from one on
/// without gaps, and its streams compressed.
pub open spec fn finished(document: DocumentView) -> DocumentView {
    compressed(renumbered(document, 1))
}

/// Merges the leaves and the objects into one document, numbers its objects from one on
/// without gaps, and compresses its streams. Each object of the result is an object of
/// the assembled document with its role and, as a dictionary, its keys.
pub fn merge_documents(
    documents_pages: BTreeMap<ObjectId, PdfObject>,
    documents_objects: BTreeMap<ObjectId, PdfObject>,
) -> (r: Result<PdfDocument, MergeError>)
    ensures
        match r {
            Ok(document) => {
                &&& assembly(table_value(documents_pages@), table_value(documents_objects@)) is Ok
                &&& document@ == finished(
                    assembly(table_value(documents_pages@), table_value(documents_objects@))->Ok_0,
                )
                &&& numbered_from(document@, 1)
                &&& stems_from(
                    document@.objects,
                    assembly(
                        table_value(documents_pages@),
                        table_value(documents_objects@),
                    )->Ok_0.objects,
                )
            },
            Err(e) => assembly(table_value(documents_pages@), table_value(documents_objects@))
                == Err::<DocumentView, MergeError>(e),
        },
{
    let document = match assemble_document(documents_pages, documents_objects) {
        Ok(document) => document,
        Err(e) => {
            return Err(e);
        },
    };
    let numbered = renumber_objects_with(&document, 1);
    let compressed_document = compress(&numbered);
    proof {
        reveal(stems_from);
        assert forall|id: ObjectId| #[trigger]
            compressed_document@.objects.contains_key(id) implies exists|origin: ObjectId|
            document@.objects.contains_key(origin) && resembles(
                document@.objects[origin],
                compressed_document@.objects[id],
            ) by {
            assert(numbered@.objects.contains_key(id));
            let origin = choose|origin: ObjectId|
                document@.objects.contains_key(origin) && resembles(
                    document@.objects[origin],
                    numbered@.objects[id],
                );
            assert(resembles(document@.objects[origin], compressed_document@.objects[id]));
        }
    }
    Ok(compressed_document)
}

/// The leaves and the objects that all the documents give, each renumbered in its turn.
pub open spec fn gathered(documents: Seq<DocumentView>) -> Result<(Table, Table), MergeError> {
    aggregate(documents, 1, Map::empty(), Map::empty())
}

/// The outcome of a whole merge: the documents gathered, assembled and finished.
pub open spec fn merged(documents: Seq<DocumentView>) -> Result<DocumentView, MergeError> {
    match gathered(documents) {
        Err(e) => Err(e),
        Ok((pages, objects)) => match assembly(pages, objects) {
            Err(e) => Err(e),
            Ok(document) => Ok(finished(document)),
        },
    }
}

/// Merges the documents, in their order, into one.
pub fn merge_pdfs(documents: Vec<PdfDocument>) -> (r: Result<PdfDocument, MergeError>)
    ensures
        match r {
            Ok(document) => {
                &&& merged(views(documents@)) == Ok::<DocumentView, MergeError>(document@)
                &&& numbered_from(document@, 1)
                &&& gathered(views(documents@)) is Ok
                &&& stems_from(
                    document@.objects,
                    assembly(
                        gathered(views(documents@))->Ok_0.0,
                        gathered(views(documents@))->Ok_0.1,
                    )->Ok_0.objects,
                )
                &&& leaves_are_pages(gathered(views(documents@))->Ok_0.0)
                &&& orders_leaves(
                    views(documents@),
                    documents@.len() as int,
                    gathered(views(documents@))->Ok_0.0,
                )
            },
            Err(e) => merged(views(documents@)) == Err::<DocumentView, MergeError>(e),
        },
{
    let (documents_pages, documents_objects) = match process_documents(documents) {
        Ok(gathered) => gathered,
        Err(e) => {
            return Err(e);
        },
    };
    merge_documents(documents_pages, documents_objects)
}

} // verus!
