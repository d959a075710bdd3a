//! Ordered sets and maps keyed by `u64`, with the facts about them that the
//! switchboard relies on.
//!
//! The collections are the standard B-tree ones. Their contracts hold for key
//! types that are compared as their specification says; this module settles
//! that once for `u64` and states each operation over plain sets and maps.
use std::collections::{BTreeMap, BTreeSet};
use vstd::prelude::*;
use vstd::std_specs::btree::{
    axiom_increasing_seq_meaning, group_btree_axioms, increasing_seq, key_obeys_cmp_spec,
};
use vstd::std_specs::cmp::OrdSpec;
use vstd::std_specs::iter::IteratorSpec;

verus! {

/// Whether a sequence of keys is strictly increasing.
pub(crate) open spec fn ascending(s: Seq<u64>) -> bool {
    forall|i: int, j: int| 0 <= i < j < s.len() ==> s[i] < s[j]
}

proof fn lemma_u64_keys()
    ensures
        key_obeys_cmp_spec::<u64>(),
        vstd::laws_cmp::obeys_cmp::<u64>(),
{
    broadcast use vstd::laws_cmp::group_laws_cmp;
    broadcast use group_btree_axioms;

}

proof fn lemma_iteration_order(s: Seq<&u64>)
    requires
        increasing_seq(s),
    ensures
        ascending(s.unref()),
{
    broadcast use vstd::laws_cmp::group_laws_cmp;
    broadcast use vstd::laws_cmp::lemma_ref_obeys_cmp_spec;

    assert(vstd::laws_cmp::obeys_cmp::<u64>());
    assert(vstd::laws_cmp::obeys_cmp::<&u64>());
    axiom_increasing_seq_meaning::<&u64>(s);
    let keys = s.unref();
    assert forall|i: int, j: int| 0 <= i < j < keys.len() implies keys[i] < keys[j] by {
        assert((&s[i]).cmp_spec(&&s[j]) is Less);
    }
}

/// Adds `k` to the set.
pub(crate) fn set_insert(s: &mut BTreeSet<u64>, k: u64)
    ensures
        final(s)@ == old(s)@.insert(k),
{
    proof {
        lemma_u64_keys();
    }
    s.insert(k);
}

/// Takes `k` out of the set.
pub(crate) fn set_remove(s: &mut BTreeSet<u64>, k: u64)
    ensures
        final(s)@ == old(s)@.remove(k),
{
    broadcast use group_btree_axioms;

    proof {
        lemma_u64_keys();
    }
    s.remove(&k);
}

/// The members of the set, smallest first.
pub(crate) fn set_members(s: &BTreeSet<u64>) -> (v: Vec<u64>)
    ensures
        ascending(v@),
        forall|k: u64| v@.contains(k) <==> s@.contains(k),
{
    broadcast use group_btree_axioms;

    proof {
        lemma_u64_keys();
    }
    let mut v: Vec<u64> = Vec::new();
    let ghost all = s.iter().remaining();
    for k in it: s.iter()
        invariant
            it.seq() == all,
            v@ == it.seq().take(it.index() as int).unref(),
    {
        v.push(*k);
        assert(it.seq().take(it.index() + 1).unref() =~= v@);
    }
    proof {
        assert(all.take(all.len() as int) =~= all);
        lemma_iteration_order(all);
        assert(v@.to_set() == s@);
        assert forall|k: u64| v@.contains(k) <==> s@.contains(k) by {
            assert(v@.to_set().contains(k) <==> v@.contains(k));
        }
    }
    v
}

/// Takes the entry of `k` out of the map and returns its value, if there is
/// one.
pub(crate) fn map_take<V>(m: &mut BTreeMap<u64, V>, k: u64) -> (r: Option<V>)
    ensures
        final(m)@ == old(m)@.remove(k),
        match r {
            Some(v) => old(m)@.contains_key(k) && old(m)@[k] == v,
            None => !old(m)@.contains_key(k),
        },
{
    broadcast use group_btree_axioms;

    proof {
        lemma_u64_keys();
    }
    m.remove(&k)
}

/// The value of `k` in the map, if there is one.
pub(crate) fn map_get<V>(m: &BTreeMap<u64, V>, k: u64) -> (r: Option<&V>)
    ensures
        match r {
            Some(v) => m@.contains_key(k) && m@[k] == *v,
            None => !m@.contains_key(k),
        },
{
    broadcast use group_btree_axioms;

    proof {
        lemma_u64_keys();
    }
    m.get(&k)
}

/// Sets the value of `k` in the map.
pub(crate) fn map_put<V>(m: &mut BTreeMap<u64, V>, k: u64, v: V)
    ensures
        final(m)@ == old(m)@.insert(k, v),
{
    proof {
        lemma_u64_keys();
    }
    let _ = m.insert(k, v);
}

/// Whether the map has an entry for `k`.
pub(crate) fn map_has<V>(m: &BTreeMap<u64, V>, k: u64) -> (r: bool)
    ensures
        r == m@.contains_key(k),
{
    broadcast use group_btree_axioms;

    proof {
        lemma_u64_keys();
    }
    m.contains_key(&k)
}

} // verus!
