//! The pages tree of a merged document: leaves under one root, which the top-level
//! descriptor refers to.

use vstd::prelude::*;
use std::collections::BTreeMap;
use crate::document::lemma_table_insert;
use crate::document::table_value;
use crate::document::PdfDocument;
use crate::document::DocumentView;
use crate::document::Table;
use crate::error::MergeError;
use crate::ids::ascending_ids;
use crate::ids::id_lt;
use crate::ids::lemma_ids_bound;
use crate::ids::lemma_listed_ends;
use crate::ids::lemma_listed_step;
use crate::ids::listed_before;
use crate::ids::lists;
use crate::ids::ordered_ids;
use crate::object::bytes_of;
use crate::object::is_page_or_untyped;
use crate::object::name;
use crate::object::PdfObject;
use crate::object::ObjectId;
use crate::object::Value;

verus! {

/// A leaf with its `Parent` set to `parent`.
pub open spec fn reparented(leaf: Value, parent: ObjectId) -> Value {
    Value::Dictionary(leaf->Dictionary_0.insert(bytes_of("Parent"), Value::Reference(parent)))
}

/// The leaves, each with its `Parent` set to `parent`.
pub open spec fn attached(leaves: Table, parent: ObjectId) -> Table {
    Map::new(|id: ObjectId| leaves.contains_key(id), |id: ObjectId| reparented(leaves[id], parent))
}

/// Whether the leaf under `id` is no dictionary.
pub open spec fn broken_leaf_at(leaves: Table, id: ObjectId) -> bool {
    leaves.contains_key(id) && !(leaves[id] is Dictionary)
}

/// Whether `id` is the lowest identifier of a leaf that is no dictionary.
pub open spec fn is_first_broken_leaf(leaves: Table, id: ObjectId) -> bool {
    &&& broken_leaf_at(leaves, id)
    &&& forall|other: ObjectId| broken_leaf_at(leaves, other) ==> !id_lt(other, id)
}

/// Whether every leaf is a dictionary.
pub open spec fn leaves_are_dictionaries(leaves: Table) -> bool {
    forall|id: ObjectId| !broken_leaf_at(leaves, id)
}

/// Whether every leaf that is a dictionary is typed as a leaf or has no type name.
pub open spec fn leaves_are_pages(leaves: Table) -> bool {
    forall|id: ObjectId| #[trigger] leaves.contains_key(id) ==> is_page_or_untyped(leaves[id])
}

/// The leaves whose identifier is below `id`.
pub open spec fn leaves_below(leaves: Table, id: ObjectId) -> Table {
    leaves.restrict(Set::new(|other: ObjectId| id_lt(other, id)))
}

/// Puts every leaf into `document` with its `Parent` set to `pages_id`, in ascending order
/// of identifier, and stops at the first leaf that is no dictionary.
pub fn insert_pages(
    document: &mut PdfDocument,
    documents_pages: &BTreeMap<ObjectId, PdfObject>,
    pages_id: ObjectId,
) -> (r: Result<(), MergeError>)
    ensures
        match r {
            Ok(()) => {
                &&& leaves_are_dictionaries(table_value(documents_pages@))
                &&& final(document)@ == (DocumentView {
                    objects: old(document)@.objects.union_prefer_right(
                        attached(table_value(documents_pages@), pages_id),
                    ),
                    ..old(document)@
                })
            },
            Err(MergeError::PageNotDictionary(id)) => {
                &&& is_first_broken_leaf(table_value(documents_pages@), id)
                &&& final(document)@ == (DocumentView {
                    objects: old(document)@.objects.union_prefer_right(
                        attached(leaves_below(table_value(documents_pages@), id), pages_id),
                    ),
                    ..old(document)@
                })
            },
            Err(_) => false,
        },
{
    let ghost t = table_value(documents_pages@);
    let ids = ordered_ids(documents_pages);
    proof {
        assert(t.dom() =~= documents_pages@.dom());
        lemma_listed_ends(ids@, t.dom());
        assert(table_value(document.objects@) =~= table_value(
            old(document).objects@,
        ).union_prefer_right(attached(t.restrict(listed_before(ids@, 0)), pages_id)));
    }
    let mut i: usize = 0;
    while i < ids.len()
        invariant
            i <= ids.len(),
            t == table_value(documents_pages@),
            lists(ids@, t.dom()),
            document.version == old(document).version,
            document.trailer == old(document).trailer,
            document.max_id == old(document).max_id,
            leaves_are_dictionaries(t.restrict(listed_before(ids@, i as int))),
            table_value(document.objects@) == table_value(
                old(document).objects@,
            ).union_prefer_right(attached(t.restrict(listed_before(ids@, i as int)), pages_id)),
        decreases ids.len() - i,
    {
        let id = ids[i];
        let ghost seen = t.restrict(listed_before(ids@, i as int));
        let ghost next = t.restrict(listed_before(ids@, i + 1));
        proof {
            lemma_listed_step(ids@, i as int);
            assert(ids@.contains(id));
            assert(t.contains_key(id));
            assert(next =~= seen.insert(id, t[id]));
        }
        let object = documents_pages.get(&id).unwrap();
        match object.as_dict() {
            Some(dictionary) => {
                let mut dictionary = dictionary.clone();
                dictionary.set(name("Parent"), PdfObject::Reference(pages_id));
                let leaf = PdfObject::Dictionary(dictionary);
                proof {
                    assert(leaf@ == reparented(t[id], pages_id));
                    lemma_table_insert(document.objects@, id, leaf);
                    assert(table_value(document.objects@).insert(id, leaf@) =~= table_value(
                        old(document).objects@,
                    ).union_prefer_right(attached(next, pages_id)));
                    assert forall|other: ObjectId| !broken_leaf_at(next, other) by {
                        if other != id {
                            assert(!broken_leaf_at(seen, other));
                        }
                    }
                }
                document.objects.insert(id, leaf);
            },
            None => {
                proof {
                    assert(broken_leaf_at(t, id));
                    assert forall|other: ObjectId| broken_leaf_at(t, other) implies !id_lt(
                        other,
                        id,
                    ) by {
                        if id_lt(other, id) {
                            let j = choose|j: int| 0 <= j < ids@.len() && ids@[j] == other;
                            if j < i {
                                assert(ids@.take(i as int)[j] == other);
                                assert(listed_before(ids@, i as int).contains(other));
                                assert(broken_leaf_at(seen, other));
                            } else if j > i {
                                assert(id_lt(ids@[i as int], ids@[j]));
                            }
                        }
                    }
                    assert(seen =~= leaves_below(t, id)) by {
                        assert forall|other: ObjectId| t.contains_key(other) && id_lt(
                            other,
                            id,
                        ) implies listed_before(ids@, i as int).contains(other) by {
                            let j = choose|j: int| 0 <= j < ids@.len() && ids@[j] == other;
                            if j < i {
                                assert(ids@.take(i as int)[j] == other);
                            } else if j > i {
                                assert(id_lt(ids@[i as int], ids@[j]));
                            }
                        }
                    }
                }
                return Err(MergeError::PageNotDictionary(id));
            },
        }
        i += 1;
    }
    proof {
        lemma_listed_ends(ids@, t.dom());
        assert(t.restrict(t.dom()) =~= t);
    }
    Ok(())
}

/// References to the leaves, in ascending order of identifier.
pub open spec fn kids_of(leaves: Table) -> Seq<Value> {
    Seq::new(
        leaves.dom().len(),
        |i: int| Value::Reference(ascending_ids(leaves.dom())[i]),
    )
}

/// The root of the pages tree once it counts and lists the leaves.
pub open spec fn rebuilt_pages_root(root: Map<Seq<u8>, Value>, leaves: Table) -> Map<
    Seq<u8>,
    Value,
> {
    root.insert(bytes_of("Count"), Value::Integer(leaves.dom().len() as int)).insert(
        bytes_of("Kids"),
        Value::Array(kids_of(leaves)),
    )
}

/// Writes the root of the pages tree into `document` under `pages_id`, with `Count` set
/// to the number of leaves and `Kids` to references to them, in ascending order of
/// identifier. Fails, and writes nothing, where the root is no dictionary.
pub fn update_pages_object(
    document: &mut PdfDocument,
    pages_object: &PdfObject,
    documents_pages: BTreeMap<ObjectId, PdfObject>,
    pages_id: ObjectId,
) -> (r: Result<(), MergeError>)
    ensures
        match r {
            Ok(()) => {
                &&& pages_object@ is Dictionary
                &&& final(document)@ == (DocumentView {
                    objects: old(document)@.objects.insert(
                        pages_id,
                        Value::Dictionary(
                            rebuilt_pages_root(
                                pages_object@->Dictionary_0,
                                table_value(documents_pages@),
                            ),
                        ),
                    ),
                    ..old(document)@
                })
            },
            Err(e) => {
                &&& !(pages_object@ is Dictionary)
                &&& e == MergeError::AnchorNotDictionary(pages_id)
                &&& final(document)@ == old(document)@
            },
        },
{
    if let Some(dictionary) = pages_object.as_dict() {
        let ghost t = table_value(documents_pages@);
        let mut dictionary = dictionary.clone();
        let ids = ordered_ids(&documents_pages);
        proof {
            assert(t.dom() =~= documents_pages@.dom());
            lemma_ids_bound(t.dom());
        }
        let count = documents_pages.len();
        let mut kids: Vec<PdfObject> = Vec::new();
        let mut i: usize = 0;
        while i < ids.len()
            invariant
                i <= ids.len(),
                kids@.len() == i,
                forall|j: int| 0 <= j < i ==> (#[trigger] kids@[j])@ == Value::Reference(ids@[j]),
            decreases ids.len() - i,
        {
            kids.push(PdfObject::Reference(ids[i]));
            i += 1;
        }
        let kids = PdfObject::Array(kids);
        proof {
            assert(kids@->Array_0 =~= kids_of(t));
        }
        dictionary.set(name("Count"), PdfObject::Integer(count as i64));
        dictionary.set(name("Kids"), kids);
        let root = PdfObject::Dictionary(dictionary);
        proof {
            lemma_table_insert(document.objects@, pages_id, root);
        }
        document.objects.insert(pages_id, root);
        Ok(())
    } else {
        Err(MergeError::AnchorNotDictionary(pages_id))
    }
}

/// The top-level descriptor once it refers to the root of the pages tree and to no outline.
pub open spec fn rebuilt_catalog(catalog: Map<Seq<u8>, Value>, pages_id: ObjectId) -> Map<
    Seq<u8>,
    Value,
> {
    catalog.insert(bytes_of("Pages"), Value::Reference(pages_id)).remove(bytes_of("Outlines"))
}

/// Writes the top-level descriptor into `document` under `catalog_id`, with `Pages` set to
/// a reference to `pages_id` and without `Outlines`. Fails, and writes nothing, where the
/// descriptor is no dictionary.
pub fn update_catalog_object(
    document: &mut PdfDocument,
    catalog_object: &PdfObject,
    catalog_id: ObjectId,
    pages_id: ObjectId,
) -> (r: Result<(), MergeError>)
    ensures
        match r {
            Ok(()) => {
                &&& catalog_object@ is Dictionary
                &&& final(document)@ == (DocumentView {
                    objects: old(document)@.objects.insert(
                        catalog_id,
                        Value::Dictionary(
                            rebuilt_catalog(catalog_object@->Dictionary_0, pages_id),
                        ),
                    ),
                    ..old(document)@
                })
            },
            Err(e) => {
                &&& !(catalog_object@ is Dictionary)
                &&& e == MergeError::AnchorNotDictionary(catalog_id)
                &&& final(document)@ == old(document)@
            },
        },
{
    if let Some(dictionary) = catalog_object.as_dict() {
        let mut dictionary = dictionary.clone();
        dictionary.set(name("Pages"), PdfObject::Reference(pages_id));
        dictionary.remove("Outlines".as_bytes());
        let catalog = PdfObject::Dictionary(dictionary);
        proof {
            lemma_table_insert(document.objects@, catalog_id, catalog);
        }
        document.objects.insert(catalog_id, catalog);
        Ok(())
    } else {
        Err(MergeError::AnchorNotDictionary(catalog_id))
    }
}

} // verus!
