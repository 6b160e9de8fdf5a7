//! The order of identifiers, and listings of sets of identifiers in that order.

use vstd::prelude::*;
use std::collections::BTreeMap;
use vstd::std_specs::iter::IteratorSpec;
use vstd::std_specs::cmp::OrdSpec;
use crate::object::ObjectId;

verus! {

/// The order of identifiers: by object number, then by generation number.
pub open spec fn id_lt(a: ObjectId, b: ObjectId) -> bool {
    a.0 < b.0 || (a.0 == b.0 && a.1 < b.1)
}

/// Whether each identifier of the sequence is below all that follow it.
pub open spec fn ascending(s: Seq<ObjectId>) -> bool {
    forall|i: int, j: int| 0 <= i < j < s.len() ==> id_lt(#[trigger] s[i], #[trigger] s[j])
}

/// Whether `s` lists the identifiers of `ids`, each once, in ascending order.
pub open spec fn lists(s: Seq<ObjectId>, ids: Set<ObjectId>) -> bool {
    &&& ascending(s)
    &&& forall|id: ObjectId| ids.contains(id) <==> s.contains(id)
}

/// The identifiers of a finite set, in ascending order.
pub open spec fn ascending_ids(ids: Set<ObjectId>) -> Seq<ObjectId> {
    choose|s: Seq<ObjectId>| lists(s, ids)
}

/// A set has at most one ascending listing.
pub proof fn lemma_lists_unique(a: Seq<ObjectId>, b: Seq<ObjectId>, ids: Set<ObjectId>)
    requires
        lists(a, ids),
        lists(b, ids),
    ensures
        a == b,
    decreases a.len(),
{
    if a.len() == 0 {
        if b.len() > 0 {
            assert(b.contains(b[0]));
            assert(ids.contains(b[0]));
        }
        assert(a =~= b);
    } else {
        assert(a.contains(a[0]));
        assert(ids.contains(a[0]));
        assert(b.contains(a[0]));
        let j = choose|j: int| 0 <= j < b.len() && b[j] == a[0];
        assert(b.contains(b[0]));
        assert(a.contains(b[0]));
        let i = choose|i: int| 0 <= i < a.len() && a[i] == b[0];
        if j > 0 {
            assert(id_lt(b[0], b[j]));
            if i > 0 {
                assert(id_lt(a[0], a[i]));
            }
        }
        assert(a[0] == b[0]);
        let rest = ids.remove(a[0]);
        let a1 = a.drop_first();
        let b1 = b.drop_first();
        assert forall|id: ObjectId| rest.contains(id) <==> a1.contains(id) by {
            if rest.contains(id) {
                let k = choose|k: int| 0 <= k < a.len() && a[k] == id;
                assert(a1[k - 1] == id);
            }
            if a1.contains(id) {
                let k = choose|k: int| 0 <= k < a1.len() && a1[k] == id;
                assert(a[k + 1] == id);
                assert(a.contains(id));
                assert(id_lt(a[0], a[k + 1]));
            }
        }
        assert forall|id: ObjectId| rest.contains(id) <==> b1.contains(id) by {
            if rest.contains(id) {
                let k = choose|k: int| 0 <= k < b.len() && b[k] == id;
                assert(b1[k - 1] == id);
            }
            if b1.contains(id) {
                let k = choose|k: int| 0 <= k < b1.len() && b1[k] == id;
                assert(b[k + 1] == id);
                assert(b.contains(id));
                assert(id_lt(b[0], b[k + 1]));
            }
        }
        assert(ascending(a1)) by {
            assert forall|x: int, y: int| 0 <= x < y < a1.len() implies id_lt(
                #[trigger] a1[x],
                #[trigger] a1[y],
            ) by {
                assert(id_lt(a[x + 1], a[y + 1]));
            }
        }
        assert(ascending(b1)) by {
            assert forall|x: int, y: int| 0 <= x < y < b1.len() implies id_lt(
                #[trigger] b1[x],
                #[trigger] b1[y],
            ) by {
                assert(id_lt(b[x + 1], b[y + 1]));
            }
        }
        lemma_lists_unique(a1, b1, rest);
        assert(a =~= seq![a[0]] + a1);
        assert(b =~= seq![b[0]] + b1);
    }
}

/// An ascending listing of a set is the set's listing.
pub proof fn lemma_ascending_ids(s: Seq<ObjectId>, ids: Set<ObjectId>)
    requires
        lists(s, ids),
    ensures
        ascending_ids(ids) == s,
{
    lemma_lists_unique(ascending_ids(ids), s, ids);
}

/// The keys of the map, in ascending order.
pub fn ordered_ids<V>(m: &BTreeMap<ObjectId, V>) -> (r: Vec<ObjectId>)
    ensures
        lists(r@, m@.dom()),
        r@ == ascending_ids(m@.dom()),
        r@.len() == m@.dom().len(),
{
    let mut out: Vec<ObjectId> = Vec::new();
    let iter = m.iter();
    let ghost keys = iter.remaining().map_values(|kv: (&ObjectId, &V)| *kv.0);
    proof {
        vstd::std_specs::btree::axiom_increasing_seq_meaning::<ObjectId>(keys);
        assert forall|i: int, j: int| 0 <= i < j < keys.len() implies id_lt(
            #[trigger] keys[i],
            #[trigger] keys[j],
        ) by {
            assert(keys[i].cmp_spec(&keys[j]) is Less);
        }
        assert forall|id: ObjectId| m@.dom().contains(id) implies keys.contains(id) by {
            let kv = (&id, &m@[id]);
            assert(iter.remaining().contains(kv));
            let i = choose|i: int| 0 <= i < iter.remaining().len() && iter.remaining()[i] == kv;
            assert(keys[i] == id);
        }
        assert forall|id: ObjectId| keys.contains(id) implies m@.dom().contains(id) by {
            let i = choose|i: int| 0 <= i < keys.len() && keys[i] == id;
            assert(m@.contains_key(*iter.remaining()[i].0));
        }
        assert(lists(keys, m@.dom()));
        lemma_ascending_ids(keys, m@.dom());
    }
    for kv in it: iter
        invariant
            out@.len() == it.index(),
            keys.len() == it.seq().len(),
            forall|i: int| 0 <= i < keys.len() ==> #[trigger] keys[i] == *it.seq()[i].0,
            forall|i: int| 0 <= i < out@.len() ==> #[trigger] out@[i] == keys[i],
    {
        out.push(*kv.0);
    }
    assert(out@ =~= keys);
    out
}

/// The identifiers that `s` lists before place `i`.
pub open spec fn listed_before(s: Seq<ObjectId>, i: int) -> Set<ObjectId> {
    s.take(i).to_set()
}

/// One more place of a listing adds the identifier at that place.
pub proof fn lemma_prefix_step(s: Seq<ObjectId>, i: int)
    requires
        0 <= i < s.len(),
    ensures
        listed_before(s, i + 1) == listed_before(s, i).insert(s[i]),
{
    let prefix = s.take(i);
    let next = s.take(i + 1);
    assert(next =~= prefix.push(s[i]));
    assert forall|id: ObjectId| next.to_set().contains(id) <==> prefix.to_set().insert(
        s[i],
    ).contains(id) by {
        if prefix.contains(id) {
            let j = choose|j: int| 0 <= j < prefix.len() && prefix[j] == id;
            assert(next[j] == id);
        }
        if id == s[i] {
            assert(next[i] == id);
        }
        if next.contains(id) {
            let j = choose|j: int| 0 <= j < next.len() && next[j] == id;
            if j < i {
                assert(prefix[j] == id);
            }
        }
    }
    assert(next.to_set() =~= prefix.to_set().insert(s[i]));
}

/// One more place of an ascending listing adds one identifier, above all before it.
pub proof fn lemma_listed_step(s: Seq<ObjectId>, i: int)
    requires
        ascending(s),
        0 <= i < s.len(),
    ensures
        listed_before(s, i + 1) == listed_before(s, i).insert(s[i]),
        !listed_before(s, i).contains(s[i]),
        forall|id: ObjectId| #[trigger] listed_before(s, i).contains(id) ==> id_lt(id, s[i]),
{
    lemma_prefix_step(s, i);
    let prefix = s.take(i);
    assert forall|id: ObjectId| #[trigger] listed_before(s, i).contains(id) implies id_lt(
        id,
        s[i],
    ) by {
        let j = choose|j: int| 0 <= j < prefix.len() && prefix[j] == id;
        assert(id_lt(s[j], s[i]));
    }
}

/// Before the first place nothing is listed; before the end, the whole set.
pub proof fn lemma_listed_ends(s: Seq<ObjectId>, ids: Set<ObjectId>)
    requires
        lists(s, ids),
    ensures
        listed_before(s, 0) == Set::<ObjectId>::empty(),
        listed_before(s, s.len() as int) == ids,
{
    assert(s.take(0).to_set() =~= Set::<ObjectId>::empty());
    assert(s.take(s.len() as int) =~= s);
    assert(s.to_set() =~= ids);
}

/// How many identifiers there are in all.
pub open spec fn id_count() -> int {
    0x1_0000_0000_0000
}

/// A set of identifiers has no more members than there are identifiers.
pub proof fn lemma_ids_bound(ids: Set<ObjectId>)
    requires
        ids.finite(),
    ensures
        ids.len() <= id_count(),
{
    let f = |id: ObjectId| id.0 * 0x1_0000 + id.1;
    let image = ids.map(f);
    assert(vstd::relations::injective_on(f, ids)) by {
        assert forall|a: ObjectId, b: ObjectId|
            ids.contains(a) && ids.contains(b) && #[trigger] f(a) == #[trigger] f(b) implies a
            == b by {
            assert(a.0 * 0x1_0000 + a.1 == b.0 * 0x1_0000 + b.1);
        }
    }
    vstd::set_lib::lemma_map_size(ids, image, f);
    vstd::set_lib::lemma_int_range(0, id_count());
    assert(image.subset_of(vstd::set_lib::set_int_range(0, id_count()))) by {
        assert forall|n: int| image.contains(n) implies vstd::set_lib::set_int_range(
            0,
            id_count(),
        ).contains(n) by {
            let a = choose|a: ObjectId| ids.contains(a) && n == f(a);
            assert(n == a.0 * 0x1_0000 + a.1);
        }
    }
    vstd::set_lib::lemma_len_subset(image, vstd::set_lib::set_int_range(0, id_count()));
}

} // verus!
