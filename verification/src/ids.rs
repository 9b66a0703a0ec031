//! The documents of a map, in order.

use std::collections::BTreeMap;

use vstd::prelude::*;
use vstd::std_specs::btree::*;
use vstd::std_specs::iter::*;

use crate::sort;

verus! {

/// The documents of a map, in ascending order.
pub fn ordered_ids<V>(m: &BTreeMap<u64, V>) -> (r: Vec<u64>)
    ensures
        sort::ascends(r@),
        r@.to_set() == m@.dom(),
{
    broadcast use group_btree_axioms;

    let ghost all = IteratorSpec::remaining(&spec_keys_iter(m));
    let mut keys: Vec<u64> = Vec::new();
    for k in it: m.keys()
        invariant
            it.seq() == all,
            keys@.len() == it.index(),
            forall|i: int| 0 <= i < keys@.len() ==> keys@[i] == *all[i],
    {
        keys.push(*k);
    }
    assert(keys@ =~= all.unref());
    let r: Vec<u64> = sort::sorted_unique(&keys);
    assert(r@.to_set() =~= keys@.to_set());
    r
}

} // verus!
