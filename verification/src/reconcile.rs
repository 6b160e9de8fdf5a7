//! The anchors of a merged document: from the objects of all documents, one top-level
//! descriptor and one root of the pages tree.

use vstd::prelude::*;
use std::collections::BTreeMap;
use crate::document::lemma_table_insert;
use crate::document::table_value;
use crate::document::PdfDocument;
use crate::document::DocumentView;
use crate::document::Table;
use crate::error::MergeError;
use crate::ids::id_lt;
use crate::ids::lemma_listed_ends;
use crate::ids::lemma_listed_step;
use crate::ids::listed_before;
use crate::ids::lists;
use crate::ids::ordered_ids;
use crate::object::role_of;
use crate::object::PdfDictionary;
use crate::object::PdfObject;
use crate::object::ObjectId;
use crate::object::Role;
use crate::object::Value;

verus! {

/// Whether the table holds a top-level descriptor under `id`.
pub open spec fn catalog_at(t: Table, id: ObjectId) -> bool {
    t.contains_key(id) && role_of(t[id]) == Role::Catalog
}

/// Whether the table holds, under `id`, a dictionary that is the root of a pages tree.
pub open spec fn pages_root_at(t: Table, id: ObjectId) -> bool {
    t.contains_key(id) && role_of(t[id]) == Role::Pages && t[id] is Dictionary
}

/// Whether the object under `id` is neither an anchor, nor a leaf, nor part of an outline.
pub open spec fn passes_at(t: Table, id: ObjectId) -> bool {
    t.contains_key(id) && role_of(t[id]) == Role::Other
}

/// Whether the table holds a top-level descriptor at all.
pub open spec fn has_catalog(t: Table) -> bool {
    exists|id: ObjectId| catalog_at(t, id)
}

/// Whether the table holds the root of a pages tree at all.
pub open spec fn has_pages_root(t: Table) -> bool {
    exists|id: ObjectId| pages_root_at(t, id)
}

/// Whether `id` is the lowest identifier of a top-level descriptor.
pub open spec fn is_first_catalog(t: Table, id: ObjectId) -> bool {
    &&& catalog_at(t, id)
    &&& forall|other: ObjectId| catalog_at(t, other) ==> !id_lt(other, id)
}

/// Whether `id` is the highest identifier of a root of a pages tree.
pub open spec fn is_last_pages_root(t: Table, id: ObjectId) -> bool {
    &&& pages_root_at(t, id)
    &&& forall|other: ObjectId| pages_root_at(t, other) ==> !id_lt(id, other)
}

/// Whether the root of a pages tree under `id` has an entry under `key`.
pub open spec fn defines(t: Table, id: ObjectId, key: Seq<u8>) -> bool {
    pages_root_at(t, id) && t[id]->Dictionary_0.contains_key(key)
}

/// Whether `id` is the lowest identifier of a root of a pages tree with an entry under `key`.
pub open spec fn first_defines(t: Table, id: ObjectId, key: Seq<u8>) -> bool {
    &&& defines(t, id, key)
    &&& forall|other: ObjectId| defines(t, other, key) ==> !id_lt(other, id)
}

/// The one root that stands for all roots of pages trees in the table: it has every
/// key that one of them has, with the value that the root of lowest identifier gives it.
pub open spec fn merged_pages_root(t: Table) -> Map<Seq<u8>, Value> {
    Map::new(
        |key: Seq<u8>| exists|id: ObjectId| defines(t, id, key),
        |key: Seq<u8>| t[choose|id: ObjectId| first_defines(t, id, key)]->Dictionary_0[key],
    )
}

/// The identifier of the top-level descriptor that a merge keeps: the lowest of them.
pub open spec fn kept_catalog_id(t: Table) -> ObjectId {
    choose|id: ObjectId| is_first_catalog(t, id)
}

/// The identifier under which the merged root of the pages trees stands: the highest of
/// the identifiers of the roots.
pub open spec fn kept_pages_id(t: Table) -> ObjectId {
    choose|id: ObjectId| is_last_pages_root(t, id)
}

/// Among the top-level descriptors, one has the lowest identifier.
pub proof fn lemma_first_catalog_exists(t: Table, id: ObjectId)
    requires
        catalog_at(t, id),
    ensures
        exists|first: ObjectId| is_first_catalog(t, first),
    decreases id.0, id.1,
{
    if !is_first_catalog(t, id) {
        let other = choose|other: ObjectId| catalog_at(t, other) && id_lt(other, id);
        lemma_first_catalog_exists(t, other);
    }
}

/// Among the roots of pages trees, one has the highest identifier.
pub proof fn lemma_last_pages_root_exists(t: Table, id: ObjectId)
    requires
        pages_root_at(t, id),
    ensures
        exists|last: ObjectId| is_last_pages_root(t, last),
    decreases u32::MAX - id.0, u16::MAX - id.1,
{
    if !is_last_pages_root(t, id) {
        let other = choose|other: ObjectId| pages_root_at(t, other) && id_lt(id, other);
        lemma_last_pages_root_exists(t, other);
    }
}

/// Among the roots of pages trees that have `key`, one has the lowest identifier.
pub proof fn lemma_first_exists(t: Table, id: ObjectId, key: Seq<u8>)
    requires
        defines(t, id, key),
    ensures
        exists|first: ObjectId| first_defines(t, first, key),
    decreases id.0, id.1,
{
    if !first_defines(t, id, key) {
        let other = choose|other: ObjectId| defines(t, other, key) && id_lt(other, id);
        lemma_first_exists(t, other, key);
    }
}

/// A table with both anchors has a descriptor to keep and a place for the merged root,
/// and the two are different.
pub proof fn lemma_kept_anchors(t: Table)
    requires
        has_catalog(t),
        has_pages_root(t),
    ensures
        is_first_catalog(t, kept_catalog_id(t)),
        is_last_pages_root(t, kept_pages_id(t)),
        kept_catalog_id(t) != kept_pages_id(t),
{
    let some_catalog = choose|id: ObjectId| catalog_at(t, id);
    let some_root = choose|id: ObjectId| pages_root_at(t, id);
    lemma_first_catalog_exists(t, some_catalog);
    lemma_last_pages_root_exists(t, some_root);
}

/// The lowest descriptor and the highest root are the ones that a merge keeps.
pub proof fn lemma_anchors_unique(t: Table, catalog_id: ObjectId, pages_id: ObjectId)
    requires
        is_first_catalog(t, catalog_id),
        is_last_pages_root(t, pages_id),
    ensures
        kept_catalog_id(t) == catalog_id,
        kept_pages_id(t) == pages_id,
        catalog_id != pages_id,
{
    let c = kept_catalog_id(t);
    let p = kept_pages_id(t);
    assert(!id_lt(c, catalog_id) && !id_lt(catalog_id, c));
    assert(!id_lt(p, pages_id) && !id_lt(pages_id, p));
}

/// The objects that a merge carries over as they are.
pub open spec fn passed_through(t: Table) -> Table {
    Map::new(|id: ObjectId| passes_at(t, id), |id: ObjectId| t[id])
}

/// Whether `d` has every key that a root of a pages tree has, each with the value of the
/// root of lowest identifier.
pub open spec fn merges(t: Table, d: Map<Seq<u8>, Value>) -> bool {
    &&& forall|key: Seq<u8>| #[trigger]
        d.contains_key(key) <==> exists|id: ObjectId| defines(t, id, key)
    &&& forall|key: Seq<u8>| #[trigger]
        d.contains_key(key) ==> exists|id: ObjectId|
            first_defines(t, id, key) && d[key] == t[id]->Dictionary_0[key]
}

/// There is one merged root only.
pub proof fn lemma_merges_unique(t: Table, d: Map<Seq<u8>, Value>)
    requires
        merges(t, d),
    ensures
        d == merged_pages_root(t),
{
    let m = merged_pages_root(t);
    assert forall|key: Seq<u8>| d.contains_key(key) implies #[trigger] m[key] == d[key] by {
        let a = choose|id: ObjectId|
            first_defines(t, id, key) && d[key] == t[id]->Dictionary_0[key];
        let b = choose|id: ObjectId| first_defines(t, id, key);
        assert(first_defines(t, a, key));
        assert(!id_lt(a, b) && !id_lt(b, a));
        assert(a == b);
    }
    assert(d =~= m);
}

/// Whether every identifier of the table is below `id`.
pub open spec fn below(t: Table, id: ObjectId) -> bool {
    forall|other: ObjectId| #[trigger] t.contains_key(other) ==> id_lt(other, id)
}

/// The first top-level descriptor stays the first when an object comes in above all others.
pub proof fn lemma_catalog_step(t: Table, id: ObjectId, v: Value, first: Option<ObjectId>)
    requires
        below(t, id),
        match first {
            Some(c) => is_first_catalog(t, c),
            None => !has_catalog(t),
        },
    ensures
        match first {
            Some(c) => is_first_catalog(t.insert(id, v), c),
            None => if role_of(v) == Role::Catalog {
                is_first_catalog(t.insert(id, v), id)
            } else {
                !has_catalog(t.insert(id, v))
            },
        },
{
    let t2 = t.insert(id, v);
    assert forall|other: ObjectId| catalog_at(t2, other) implies other == id || catalog_at(
        t,
        other,
    ) by {}
    match first {
        Some(c) => {
            assert(t.contains_key(c));
            assert(catalog_at(t2, c));
        },
        None => {
            if role_of(v) == Role::Catalog {
                assert(catalog_at(t2, id));
            }
        },
    }
}

/// How the merged root changes when an object comes in above all others: a root of a pages
/// tree adds its own keys to those that the roots below it have.
pub proof fn lemma_pages_step(
    t: Table,
    id: ObjectId,
    v: Value,
    last: Option<ObjectId>,
    d: Map<Seq<u8>, Value>,
)
    requires
        below(t, id),
        match last {
            Some(p) => is_last_pages_root(t, p) && merges(t, d),
            None => !has_pages_root(t),
        },
    ensures
        role_of(v) == Role::Pages && v is Dictionary ==> is_last_pages_root(t.insert(id, v), id)
            && merges(
            t.insert(id, v),
            if last is Some {
                v->Dictionary_0.union_prefer_right(d)
            } else {
                v->Dictionary_0
            },
        ),
        !(role_of(v) == Role::Pages && v is Dictionary) ==> match last {
            Some(p) => is_last_pages_root(t.insert(id, v), p) && merges(t.insert(id, v), d),
            None => !has_pages_root(t.insert(id, v)),
        },
{
    let t2 = t.insert(id, v);
    assert(!t.contains_key(id));
    assert forall|other: ObjectId| pages_root_at(t2, other) implies other == id || pages_root_at(
        t,
        other,
    ) by {}
    assert forall|other: ObjectId, key: Seq<u8>| defines(t2, other, key) implies other == id
        || defines(t, other, key) by {}
    assert forall|other: ObjectId, key: Seq<u8>| defines(t, other, key) implies defines(
        t2,
        other,
        key,
    ) by {
        assert(t.contains_key(other));
    }
    if role_of(v) == Role::Pages && v is Dictionary {
        let own = v->Dictionary_0;
        assert(pages_root_at(t2, id));
        let d2 = if last is Some {
            own.union_prefer_right(d)
        } else {
            own
        };
        assert forall|key: Seq<u8>| #[trigger] d2.contains_key(key) <==> exists|other: ObjectId|
            defines(t2, other, key) by {
            if own.contains_key(key) {
                assert(defines(t2, id, key));
            }
            if last is Some && d.contains_key(key) {
                let a = choose|a: ObjectId| defines(t, a, key);
                assert(defines(t2, a, key));
            }
            if exists|other: ObjectId| defines(t2, other, key) {
                let a = choose|a: ObjectId| defines(t2, a, key);
                if a != id {
                    assert(defines(t, a, key));
                    assert(pages_root_at(t, a));
                }
            }
        }
        assert forall|key: Seq<u8>| #[trigger] d2.contains_key(key) implies exists|other: ObjectId|
            first_defines(t2, other, key) && d2[key] == t2[other]->Dictionary_0[key] by {
            if last is Some && d.contains_key(key) {
                let a = choose|a: ObjectId|
                    first_defines(t, a, key) && d[key] == t[a]->Dictionary_0[key];
                assert(t.contains_key(a));
                assert(first_defines(t2, a, key));
                assert(d2[key] == t2[a]->Dictionary_0[key]);
            } else {
                assert(own.contains_key(key));
                assert(defines(t2, id, key));
                assert forall|other: ObjectId| defines(t2, other, key) implies !id_lt(
                    other,
                    id,
                ) by {
                    if other != id {
                        assert(defines(t, other, key));
                        assert(pages_root_at(t, other));
                    }
                }
                assert(first_defines(t2, id, key));
            }
        }
    } else {
        match last {
            Some(p) => {
                assert(t.contains_key(p));
                assert(pages_root_at(t2, p));
                assert forall|key: Seq<u8>| #[trigger] d.contains_key(key) <==> exists|
                    other: ObjectId,
                | defines(t2, other, key) by {
                    if d.contains_key(key) {
                        let a = choose|a: ObjectId| defines(t, a, key);
                        assert(defines(t2, a, key));
                    }
                    if exists|other: ObjectId| defines(t2, other, key) {
                        let a = choose|a: ObjectId| defines(t2, a, key);
                        assert(defines(t, a, key));
                    }
                }
                assert forall|key: Seq<u8>| #[trigger] d.contains_key(key) implies exists|
                    other: ObjectId,
                | first_defines(t2, other, key) && d[key] == t2[other]->Dictionary_0[key] by {
                    let a = choose|a: ObjectId|
                        first_defines(t, a, key) && d[key] == t[a]->Dictionary_0[key];
                    assert(t.contains_key(a));
                    assert(first_defines(t2, a, key));
                }
            },
            None => {},
        }
    }
}

/// What passes through when an object comes in under a new identifier.
pub proof fn lemma_passed_step(t: Table, id: ObjectId, v: Value)
    requires
        !t.contains_key(id),
    ensures
        passed_through(t.insert(id, v)) == if role_of(v) == Role::Other {
            passed_through(t).insert(id, v)
        } else {
            passed_through(t)
        },
{
    let t2 = t.insert(id, v);
    if role_of(v) == Role::Other {
        assert(passed_through(t2) =~= passed_through(t).insert(id, v));
    } else {
        assert(passed_through(t2) =~= passed_through(t));
    }
}

/// The identifier of what a search has found so far.
spec fn found_id(found: Option<(ObjectId, PdfObject)>) -> Option<ObjectId> {
    match found {
        Some((id, _)) => Some(id),
        None => None,
    }
}

/// The entries of the dictionary that a search has found so far.
spec fn found_dictionary(found: Option<(ObjectId, PdfObject)>) -> Map<Seq<u8>, Value> {
    match found {
        Some((_, o)) => o@->Dictionary_0,
        None => Map::empty(),
    }
}

/// Sorts the objects by role, in ascending order of identifier. Objects that are neither
/// anchors, nor leaves, nor parts of an outline go into `document` as they are. The result
/// is the top-level descriptor of lowest identifier, and the merged root of the pages trees
/// under the highest identifier of such a root.
pub fn find_catalog_and_pages(
    document: &mut PdfDocument,
    documents_objects: &BTreeMap<ObjectId, PdfObject>,
) -> (r: Result<((ObjectId, PdfObject), (ObjectId, PdfObject)), MergeError>)
    ensures
        final(document)@ == (DocumentView {
            objects: old(document)@.objects.union_prefer_right(
                passed_through(table_value(documents_objects@)),
            ),
            ..old(document)@
        }),
        match r {
            Ok((catalog, pages)) => {
                &&& is_first_catalog(table_value(documents_objects@), catalog.0)
                &&& catalog.1@ == table_value(documents_objects@)[catalog.0]
                &&& is_last_pages_root(table_value(documents_objects@), pages.0)
                &&& pages.1@ == Value::Dictionary(
                    merged_pages_root(table_value(documents_objects@)),
                )
            },
            Err(e) => {
                &&& e == MergeError::MissingCatalogOrPages
                &&& !(has_catalog(table_value(documents_objects@)) && has_pages_root(
                    table_value(documents_objects@),
                ))
            },
        },
{
    let ghost t = table_value(documents_objects@);
    let mut catalog_object: Option<(ObjectId, PdfObject)> = None;
    let mut pages_object: Option<(ObjectId, PdfObject)> = None;
    let ids = ordered_ids(documents_objects);
    proof {
        assert(t.dom() =~= documents_objects@.dom());
        lemma_listed_ends(ids@, t.dom());
        assert(t.restrict(listed_before(ids@, 0)) =~= Map::<ObjectId, Value>::empty());
        assert(passed_through(Map::<ObjectId, Value>::empty()) =~= Map::<
            ObjectId,
            Value,
        >::empty());
        assert(table_value(document.objects@) =~= table_value(
            old(document).objects@,
        ).union_prefer_right(Map::<ObjectId, Value>::empty()));
    }
    let mut i: usize = 0;
    while i < ids.len()
        invariant
            i <= ids.len(),
            t == table_value(documents_objects@),
            lists(ids@, t.dom()),
            document.version == old(document).version,
            document.trailer == old(document).trailer,
            document.max_id == old(document).max_id,
            table_value(document.objects@) == table_value(
                old(document).objects@,
            ).union_prefer_right(passed_through(t.restrict(listed_before(ids@, i as int)))),
            match catalog_object {
                Some((c, o)) => is_first_catalog(t.restrict(listed_before(ids@, i as int)), c)
                    && o@ == t[c],
                None => !has_catalog(t.restrict(listed_before(ids@, i as int))),
            },
            match pages_object {
                Some((p, o)) => is_last_pages_root(t.restrict(listed_before(ids@, i as int)), p)
                    && o@ is Dictionary && merges(
                    t.restrict(listed_before(ids@, i as int)),
                    o@->Dictionary_0,
                ),
                None => !has_pages_root(t.restrict(listed_before(ids@, i as int))),
            },
        decreases ids.len() - i,
    {
        let id = ids[i];
        let ghost seen = t.restrict(listed_before(ids@, i as int));
        let ghost next = t.restrict(listed_before(ids@, i + 1));
        proof {
            lemma_listed_step(ids@, i as int);
            assert(ids@.contains(id));
            assert(t.contains_key(id));
            assert(next =~= seen.insert(id, t[id]));
            assert(below(seen, id));
            lemma_catalog_step(
                seen,
                id,
                t[id],
                found_id(catalog_object),
            );
            lemma_pages_step(
                seen,
                id,
                t[id],
                found_id(pages_object),
                found_dictionary(pages_object),
            );
            lemma_passed_step(seen, id, t[id]);
        }
        let object = documents_objects.get(&id).unwrap();
        match object.role() {
            Role::Catalog => {
                if catalog_object.is_none() {
                    catalog_object = Some((id, object.clone()));
                }
            },
            Role::Pages => {
                if let Some(dictionary) = object.as_dict() {
                    let merged = match &pages_object {
                        Some((_, existing)) => {
                            match existing.as_dict() {
                                Some(accumulated) => PdfDictionary::merge(accumulated, dictionary),
                                None => dictionary.clone(),
                            }
                        },
                        None => dictionary.clone(),
                    };
                    pages_object = Some((id, PdfObject::Dictionary(merged)));
                }
            },
            Role::Page | Role::Outlines | Role::Outline => {},
            Role::Other => {
                let copy = object.clone();
                proof {
                    lemma_table_insert(document.objects@, id, copy);
                    assert(table_value(document.objects@).insert(id, copy@) =~= table_value(
                        old(document).objects@,
                    ).union_prefer_right(passed_through(seen).insert(id, t[id])));
                }
                document.objects.insert(id, copy);
            },
        }
        i += 1;
    }
    proof {
        lemma_listed_ends(ids@, t.dom());
        assert(t.restrict(t.dom()) =~= t);
    }
    match (catalog_object, pages_object) {
        (Some(catalog), Some(pages)) => {
            proof {
                lemma_merges_unique(t, pages.1@->Dictionary_0);
            }
            Ok((catalog, pages))
        },
        _ => Err(MergeError::MissingCatalogOrPages),
    }
}

} // verus!
