//! Reading an integer-keyed `BTreeMap` out in key order.
use std::collections::BTreeMap;
use vstd::prelude::*;
use vstd::std_specs::btree::{increasing_seq, spec_btree_map_iter};
use vstd::std_specs::cmp::OrdSpec;
use vstd::std_specs::iter::IteratorSpec;

verus! {

broadcast use vstd::std_specs::btree::group_btree_axioms;

/// The entries of `m` in increasing key order, each with a borrowed value.
pub fn entries_in_order<V>(m: &BTreeMap<u64, V>) -> (out: Vec<(u64, &V)>)
    ensures
        out@.len() == m@.dom().len(),
        forall|i: int, j: int| 0 <= i < j < out@.len() ==> out@[i].0 < out@[j].0,
        forall|i: int|
            0 <= i < out@.len() ==> m@.contains_key(#[trigger] out@[i].0) && m@[out@[i].0]
                == *out@[i].1,
        forall|k: u64| #[trigger]
            m@.contains_key(k) ==> exists|i: int| 0 <= i < out@.len() && out@[i].0 == k,
{
    let mut out: Vec<(u64, &V)> = Vec::new();
    let ghost all = spec_btree_map_iter(m).remaining();
    for (k, v) in it: m.iter()
        invariant
            all == spec_btree_map_iter(m).remaining(),
            out@.len() == it.index(),
            forall|i: int| 0 <= i < it.index() ==> (#[trigger] out@[i]).0 == *all[i].0 && out@[i].1 == all[i].1,
    {
        out.push((*k, v));
    }
    proof {
        let keys = all.map_values(|kv: (&u64, &V)| *kv.0);
        assert(increasing_seq(keys));
        assert(vstd::laws_cmp::obeys_cmp::<u64>());
        assert forall|i: int, j: int| 0 <= i < j < out@.len() implies out@[i].0 < out@[j].0 by {
            assert(keys[i] == out@[i].0 && keys[j] == out@[j].0);
            assert(keys[i].cmp_spec(&keys[j]) is Less);
        }
        assert forall|k: u64| #[trigger] m@.contains_key(k) implies exists|i: int|
            0 <= i < out@.len() && out@[i].0 == k by {
            assert(all.contains((&k, &m@[k])));
            let i = choose|i: int| 0 <= i < all.len() && all[i] == (&k, &m@[k]);
            assert(out@[i].0 == k);
        }
    }
    out
}

} // verus!
