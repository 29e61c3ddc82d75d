//! The keys of an ordered map in their order.
use vstd::prelude::*;
use vstd::std_specs::iter::IteratorSpec;
use vstd::std_specs::cmp::OrdSpec;
use std::collections::BTreeMap;

verus! {

/// Whether every key is less than the ones behind it.
pub open spec fn increasing(s: Seq<u64>) -> bool {
    forall|i: int, j: int| 0 <= i < j < s.len() ==> s[i] < s[j]
}

/// The keys of a map, the smallest first.
pub fn sorted_keys<V>(m: &BTreeMap<u64, V>) -> (r: Vec<u64>)
    ensures
        r@.to_set() == m@.dom(),
        increasing(r@),
{
    broadcast use vstd::std_specs::btree::group_btree_axioms;
    broadcast use vstd::laws_cmp::group_laws_cmp;

    let mut out: Vec<u64> = Vec::new();
    let keys = m.keys();
    assert(vstd::std_specs::btree::key_obeys_cmp_spec::<u64>());
    let ghost all = keys.remaining();
    for k in it: keys
        invariant
            it.seq() == all,
            out@.len() == it.index(),
            forall|j: int| 0 <= j < out.len() ==> out@[j] == *it.seq()[j],
    {
        out.push(*k);
    }
    assert(out@ =~= all.unref());
    proof {
        assert(vstd::laws_cmp::obeys_cmp::<&u64>());
        vstd::std_specs::btree::axiom_increasing_seq_meaning::<&u64>(all);
    }
    assert forall|i: int, j: int| 0 <= i < j < out@.len() implies out@[i] < out@[j] by {
        assert(OrdSpec::cmp_spec(&all[i], &all[j]) is Less);
    }
    out
}

} // verus!
