//! What holds of every merge, proved from the contracts of the functions that make it.

use vstd::prelude::*;
use crate::document::DocumentView;
use crate::document::Table;
use crate::error::MergeError;
use crate::ids::ascending_ids;
use crate::ids::id_lt;
use crate::ids::lemma_ascending_ids;
use crate::backend::stems_from;
use crate::ids::lists;
use crate::merger::assembled;
use crate::merger::assembly;
use crate::merger::leaf_ids;
use crate::merger::first_number;
use crate::merger::merged;
use crate::merger::numbers_document;
use crate::merger::numbers_documents;
use crate::merger::orders_leaves;
use crate::merger::renumbering;
use crate::object::bytes_of;
use crate::object::lemma_keys_differ;
use crate::object::lemma_page_is_a_role;
use crate::object::resembles;
use crate::object::role_of;
use crate::object::ObjectId;
use crate::object::Role;
use crate::object::Value;
use crate::rebuild::broken_leaf_at;
use crate::rebuild::kids_of;
use crate::rebuild::leaves_are_dictionaries;
use crate::rebuild::leaves_are_pages;
use crate::rebuild::rebuilt_pages_root;
use crate::rebuild::reparented;
use crate::reconcile::defines;
use crate::reconcile::first_defines;
use crate::reconcile::is_first_catalog;
use crate::reconcile::is_last_pages_root;
use crate::reconcile::kept_catalog_id;
use crate::reconcile::kept_pages_id;
use crate::reconcile::lemma_first_exists;
use crate::reconcile::lemma_kept_anchors;
use crate::reconcile::merged_pages_root;

verus! {

/// Where each of the merged documents has one leaf, the merge has as many leaves as
/// documents, in the order of the documents: the root of the pages tree counts that
/// many, and lists the leaf of the first document first, and so on.
pub proof fn lemma_single_leaf_documents(
    documents: Seq<DocumentView>,
    pages: Table,
    root: Map<Seq<u8>, Value>,
)
    requires
        orders_leaves(documents, documents.len() as int, pages),
        forall|k: int| 0 <= k < documents.len() ==> (#[trigger] leaf_ids(documents, k)).len() == 1,
    ensures
        pages.dom().finite(),
        pages.dom().len() == documents.len(),
        ascending_ids(pages.dom()) == Seq::new(
            documents.len(),
            |k: int| leaf_ids(documents, k)[0],
        ),
        rebuilt_pages_root(root, pages)[bytes_of("Count")] == Value::Integer(
            documents.len() as int,
        ),
        rebuilt_pages_root(root, pages)[bytes_of("Kids")] == Value::Array(
            Seq::new(documents.len(), |k: int| Value::Reference(leaf_ids(documents, k)[0])),
        ),
{
    let n = documents.len();
    let s = Seq::new(n, |k: int| leaf_ids(documents, k)[0]);
    assert forall|i: int, j: int| 0 <= i < j < s.len() implies id_lt(
        #[trigger] s[i],
        #[trigger] s[j],
    ) by {
        assert(leaf_ids(documents, i).contains(leaf_ids(documents, i)[0]));
        assert(leaf_ids(documents, j).contains(leaf_ids(documents, j)[0]));
    }
    assert forall|id: ObjectId| pages.dom().contains(id) <==> s.contains(id) by {
        if pages.contains_key(id) {
            let k = choose|k: int| 0 <= k < n && leaf_ids(documents, k).contains(id);
            assert(leaf_ids(documents, k)[0] == id);
            assert(s[k] == id);
        }
        if s.contains(id) {
            let k = choose|k: int| 0 <= k < s.len() && s[k] == id;
            assert(leaf_ids(documents, k).contains(leaf_ids(documents, k)[0]));
        }
    }
    assert(lists(s, pages.dom()));
    lemma_ascending_ids(s, pages.dom());
    assert(s.no_duplicates());
    s.unique_seq_to_set();
    assert(s.to_set() =~= pages.dom());
    lemma_keys_differ();
    assert(kids_of(pages) =~= Seq::new(n, |k: int| Value::Reference(leaf_ids(documents, k)[0])));
}

/// Whether the object under `id` has the given role.
pub open spec fn role_at(t: Table, id: ObjectId, role: Role) -> bool {
    t.contains_key(id) && role_of(t[id]) == role
}

/// The roles in an assembled document: the top-level descriptor and the root of the
/// pages tree have theirs, a leaf keeps its own, and all else has none of note.
proof fn lemma_assembled_roles(pages: Table, objects: Table)
    requires
        assembly(pages, objects) is Ok,
    ensures
        is_first_catalog(objects, kept_catalog_id(objects)),
        is_last_pages_root(objects, kept_pages_id(objects)),
        kept_catalog_id(objects) != kept_pages_id(objects),
        role_at(assembled(pages, objects).objects, kept_catalog_id(objects), Role::Catalog),
        role_at(assembled(pages, objects).objects, kept_pages_id(objects), Role::Pages),
        forall|id: ObjectId|
            id != kept_catalog_id(objects) && id != kept_pages_id(objects) && #[trigger] assembled(
                pages,
                objects,
            ).objects.contains_key(id) ==> role_of(assembled(pages, objects).objects[id])
                == if pages.contains_key(id) {
                role_of(pages[id])
            } else {
                Role::Other
            },
{
    lemma_keys_differ();
    lemma_kept_anchors(objects);
    let pages_id = kept_pages_id(objects);
    let merged_root = merged_pages_root(objects);
    assert(defines(objects, pages_id, bytes_of("Type")));
    lemma_first_exists(objects, pages_id, bytes_of("Type"));
    let first = choose|id: ObjectId| first_defines(objects, id, bytes_of("Type"));
    assert(merged_root[bytes_of("Type")] == objects[first]->Dictionary_0[bytes_of("Type")]);
    assert(role_of(Value::Dictionary(rebuilt_pages_root(merged_root, pages))) == Role::Pages);
    assert forall|id: ObjectId| pages.contains_key(id) implies role_of(
        reparented(pages[id], pages_id),
    ) == role_of(pages[id]) by {
        assert(!broken_leaf_at(pages, id));
    }
}

/// A leaf that is typed as a leaf, or has no type name, has the role of a leaf or none.
proof fn lemma_leaf_roles(pages: Table)
    requires
        leaves_are_dictionaries(pages),
        leaves_are_pages(pages),
    ensures
        forall|id: ObjectId| #[trigger]
            pages.contains_key(id) ==> role_of(pages[id]) == Role::Page || role_of(pages[id])
                == Role::Other,
{
    lemma_page_is_a_role();
    assert forall|id: ObjectId| #[trigger] pages.contains_key(id) implies role_of(pages[id])
        == Role::Page || role_of(pages[id]) == Role::Other by {
        assert(!broken_leaf_at(pages, id));
    }
}

/// A merge that succeeds leaves one top-level descriptor and one root of a pages tree,
/// however many the merged documents had: the descriptor of lowest identifier, which the
/// trailer names, and under the highest identifier of a root the merged root, which the
/// descriptor names. This holds of leaves as a document gives them: typed as leaves, or
/// without a type name.
pub proof fn lemma_one_descriptor_one_root(pages: Table, objects: Table)
    requires
        assembly(pages, objects) is Ok,
        leaves_are_pages(pages),
    ensures
        is_first_catalog(objects, kept_catalog_id(objects)),
        is_last_pages_root(objects, kept_pages_id(objects)),
        forall|id: ObjectId|
            role_at(assembled(pages, objects).objects, id, Role::Catalog) <==> id
                == kept_catalog_id(objects),
        forall|id: ObjectId|
            role_at(assembled(pages, objects).objects, id, Role::Pages) <==> id == kept_pages_id(
                objects,
            ),
        assembled(pages, objects).trailer[bytes_of("Root")] == Value::Reference(
            kept_catalog_id(objects),
        ),
        assembled(pages, objects).objects[kept_catalog_id(
            objects,
        )]->Dictionary_0[bytes_of("Pages")] == Value::Reference(kept_pages_id(objects)),
{
    let out = assembled(pages, objects).objects;
    lemma_keys_differ();
    lemma_assembled_roles(pages, objects);
    lemma_leaf_roles(pages);
    assert forall|id: ObjectId| role_at(out, id, Role::Catalog) <==> id == kept_catalog_id(
        objects,
    ) by {
        if role_at(out, id, Role::Catalog) {
            assert(out.contains_key(id));
        }
    }
    assert forall|id: ObjectId| role_at(out, id, Role::Pages) <==> id == kept_pages_id(
        objects,
    ) by {
        if role_at(out, id, Role::Pages) {
            assert(out.contains_key(id));
        }
    }
}

/// The tree of an assembled document hangs together: the trailer refers to the top-level
/// descriptor, the descriptor to the root of the pages tree, and every leaf to that root
/// as its parent; the root counts the leaves and lists them all.
pub proof fn lemma_assembled_tree(pages: Table, objects: Table)
    requires
        assembly(pages, objects) is Ok,
    ensures
        kept_catalog_id(objects) != kept_pages_id(objects),
        assembled(pages, objects).trailer[bytes_of("Root")] == Value::Reference(
            kept_catalog_id(objects),
        ),
        assembled(pages, objects).objects[kept_catalog_id(
            objects,
        )]->Dictionary_0[bytes_of("Pages")] == Value::Reference(kept_pages_id(objects)),
        assembled(pages, objects).objects[kept_pages_id(
            objects,
        )]->Dictionary_0[bytes_of("Count")] == Value::Integer(pages.dom().len() as int),
        assembled(pages, objects).objects[kept_pages_id(
            objects,
        )]->Dictionary_0[bytes_of("Kids")] == Value::Array(kids_of(pages)),
        kids_of(pages).len() == pages.dom().len(),
        forall|id: ObjectId|
            pages.contains_key(id) && id != kept_pages_id(objects) && id != kept_catalog_id(
                objects,
            ) ==> (#[trigger] assembled(pages, objects).objects[id])->Dictionary_0[bytes_of(
                "Parent",
            )] == Value::Reference(kept_pages_id(objects)),
{
    lemma_keys_differ();
    lemma_kept_anchors(objects);
}

/// No outline of a merged document is left in the merge: none of its objects is the root
/// or an entry of an outline, and its top-level descriptor refers to none. This holds of
/// leaves as a document gives them: typed as leaves, or without a type name.
pub proof fn lemma_no_outline_survives(pages: Table, objects: Table)
    requires
        assembly(pages, objects) is Ok,
        leaves_are_pages(pages),
    ensures
        forall|id: ObjectId|
            !role_at(assembled(pages, objects).objects, id, Role::Outlines) && !role_at(
                assembled(pages, objects).objects,
                id,
                Role::Outline,
            ),
        !(assembled(pages, objects).objects[kept_catalog_id(
            objects,
        )]->Dictionary_0).contains_key(bytes_of("Outlines")),
{
    let out = assembled(pages, objects).objects;
    lemma_assembled_roles(pages, objects);
    lemma_leaf_roles(pages);
    assert forall|id: ObjectId|
        !role_at(out, id, Role::Outlines) && !role_at(out, id, Role::Outline) by {
        if out.contains_key(id) {
            assert(role_of(out[id]) != Role::Outlines);
        }
    }
}

/// What holds of the roles in an assembled document holds of every document whose
/// objects stem from it, as those of the finished document do: none of its objects is
/// part of an outline, and each that is typed as a top-level descriptor is a dictionary
/// without `Outlines`.
pub proof fn lemma_no_outline_in_result(pages: Table, objects: Table, result: Table)
    requires
        assembly(pages, objects) is Ok,
        leaves_are_pages(pages),
        stems_from(result, assembled(pages, objects).objects),
    ensures
        forall|id: ObjectId|
            !role_at(result, id, Role::Outlines) && !role_at(result, id, Role::Outline),
        forall|id: ObjectId|
            role_at(result, id, Role::Catalog) ==> result[id] is Dictionary && !(
            result[id]->Dictionary_0).contains_key(bytes_of("Outlines")),
{
    let out = assembled(pages, objects).objects;
    reveal(stems_from);
    lemma_no_outline_survives(pages, objects);
    lemma_one_descriptor_one_root(pages, objects);
    assert forall|id: ObjectId|
        !role_at(result, id, Role::Outlines) && !role_at(result, id, Role::Outline) by {
        if result.contains_key(id) {
            let origin = choose|origin: ObjectId|
                out.contains_key(origin) && resembles(out[origin], result[id]);
            assert(!role_at(out, origin, Role::Outlines) && !role_at(out, origin, Role::Outline));
        }
    }
    assert forall|id: ObjectId| role_at(result, id, Role::Catalog) implies result[id] is Dictionary
        && !(result[id]->Dictionary_0).contains_key(bytes_of("Outlines")) by {
        let origin = choose|origin: ObjectId|
            out.contains_key(origin) && resembles(out[origin], result[id]);
        assert(role_at(out, origin, Role::Catalog));
        assert(origin == kept_catalog_id(objects));
    }
}

/// Where several roots of pages trees have a key, the merged root has it with the value
/// of the root of lowest identifier, which comes from the earliest document; and every
/// key of every root is a key of the merged root. Rebuilding the root changes `Count`
/// and `Kids` only.
pub proof fn lemma_earliest_root_wins(objects: Table, pages: Table, id: ObjectId, key: Seq<u8>)
    requires
        defines(objects, id, key),
    ensures
        merged_pages_root(objects).contains_key(key),
        rebuilt_pages_root(merged_pages_root(objects), pages).contains_key(key),
        first_defines(objects, id, key) ==> merged_pages_root(objects)[key]
            == objects[id]->Dictionary_0[key],
        first_defines(objects, id, key) && key != bytes_of("Count") && key != bytes_of("Kids")
            ==> rebuilt_pages_root(merged_pages_root(objects), pages)[key]
            == objects[id]->Dictionary_0[key],
{
    lemma_first_exists(objects, id, key);
    if first_defines(objects, id, key) {
        let first = choose|first: ObjectId| first_defines(objects, first, key);
        assert(!id_lt(first, id) && !id_lt(id, first));
    }
}

/// The first number of a later document is above the highest number of an earlier one.
proof fn lemma_first_numbers_ascend(documents: Seq<DocumentView>, n: int, j: int, k: int)
    requires
        numbers_documents(documents, n),
        0 <= j < k < n,
    ensures
        renumbering(documents, j).max_id < first_number(documents, k),
    decreases k,
{
    if j < k - 1 {
        lemma_first_numbers_ascend(documents, n, j, k - 1);
        assert(numbers_document(documents, k - 1));
    }
}

/// In a merge every object of an earlier document lies below every object of a later
/// one: the object numbers of each document run from the number after the highest of
/// the document before.
pub proof fn lemma_documents_in_order(
    documents: Seq<DocumentView>,
    n: int,
    j: int,
    k: int,
    a: ObjectId,
    b: ObjectId,
)
    requires
        numbers_documents(documents, n),
        0 <= j < k < n,
        renumbering(documents, j).objects.contains_key(a),
        renumbering(documents, k).objects.contains_key(b),
    ensures
        id_lt(a, b),
{
    lemma_first_numbers_ascend(documents, n, j, k);
    assert(numbers_document(documents, j));
    assert(numbers_document(documents, k));
}

/// A merge of no documents finds no top-level descriptor and fails.
pub proof fn lemma_nothing_to_merge()
    ensures
        merged(Seq::<DocumentView>::empty()) == Err::<DocumentView, MergeError>(
            MergeError::MissingCatalogOrPages,
        ),
{
    assert(!crate::reconcile::has_catalog(Map::<ObjectId, Value>::empty()));
}

/// A leaf that is no dictionary makes the merge fail, and so does a top-level descriptor
/// that is no dictionary: with an error that says that the structure of the input is at
/// fault.
pub proof fn lemma_broken_structure_fails(pages: Table, objects: Table)
    requires
        !leaves_are_dictionaries(pages) || !(objects[kept_catalog_id(objects)] is Dictionary),
    ensures
        assembly(pages, objects) is Err,
        assembly(pages, objects)->Err_0.is_structural(),
{
}

} // verus!
