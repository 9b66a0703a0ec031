//! Compressed sets of document ids.
//!
//! The sets are those of the `roaring` crate. What a set holds is known by the
//! name [`treemap_ids`]; the contracts of the functions here say over that name
//! what the crate does and are not proved.

use roaring::RoaringTreemap;

use vstd::prelude::*;
use vstd::set_lib::*;

use crate::sort;

verus! {

/// A set of 64-bit integers of the `roaring` crate.
#[verifier::external_type_specification]
#[verifier::external_body]
pub struct ExRoaringTreemap(roaring::RoaringTreemap);

/// The ids that a set holds.
pub uninterp spec fn treemap_ids(set: RoaringTreemap) -> Set<u64>;

/// The ids of the set that serialized bytes spell, or in words why they spell none.
pub uninterp spec fn treemap_decoded(bytes: Seq<u8>) -> Result<Set<u64>, Seq<char>>;

/// How many ids in front ascend without repetition.
pub open spec fn ascending_front(ids: Seq<u64>) -> nat
    decreases ids.len(),
{
    if ids.len() == 0 {
        0
    } else if sort::ascends(ids) {
        ids.len()
    } else {
        ascending_front(ids.drop_last())
    }
}

/// The ids from `lo` to `hi`, both included.
pub open spec fn id_range(lo: u64, hi: u64) -> Set<u64> {
    Set::new(|x: u64| lo <= x <= hi)
}

/// `RoaringTreemap::from_sorted_iter`: the set of ids that ascend without
/// repetition; of others it says how many in front do.
#[verifier::external_body]
pub(crate) fn treemap_from_sorted(ids: &[u64]) -> (r: Result<RoaringTreemap, u64>)
    ensures
        r is Ok <==> sort::ascends(ids@),
        r is Ok ==> treemap_ids(r->Ok_0) == ids@.to_set(),
        r is Err ==> r->Err_0 == ascending_front(ids@),
{
    match RoaringTreemap::from_sorted_iter(ids.iter().copied()) {
        Ok(set) => Ok(set),
        Err(e) => Err(e.valid_until()),
    }
}

/// `RoaringTreemap::new`: the empty set.
#[verifier::external_body]
pub(crate) fn treemap_new() -> (r: RoaringTreemap)
    ensures
        treemap_ids(r) == Set::<u64>::empty(),
{
    RoaringTreemap::new()
}

/// `RoaringTreemap::insert`: puts an id into the set; says whether it is new.
#[verifier::external_body]
pub(crate) fn treemap_insert(set: &mut RoaringTreemap, id: u64) -> (r: bool)
    ensures
        treemap_ids(*final(set)) == treemap_ids(*old(set)).insert(id),
        r == !treemap_ids(*old(set)).contains(id),
{
    set.insert(id)
}

/// The difference of two sets, by `RoaringTreemap`'s `Sub`: the ids of the first that
/// the second does not hold.
#[verifier::external_body]
pub(crate) fn treemap_difference(a: &RoaringTreemap, b: &RoaringTreemap) -> (r: RoaringTreemap)
    ensures
        treemap_ids(r) == treemap_ids(*a).difference(treemap_ids(*b)),
{
    a - b
}

/// The union of two sets, by `RoaringTreemap`'s `BitOrAssign`: the first then holds the
/// ids of both.
#[verifier::external_body]
pub(crate) fn treemap_unite(a: &mut RoaringTreemap, b: &RoaringTreemap)
    ensures
        treemap_ids(*final(a)) == treemap_ids(*old(a)).union(treemap_ids(*b)),
{
    *a |= b;
}

/// `RoaringTreemap::contains`: whether the set holds an id.
#[verifier::external_body]
pub(crate) fn treemap_contains(set: &RoaringTreemap, id: u64) -> (r: bool)
    ensures
        r == treemap_ids(*set).contains(id),
{
    set.contains(id)
}

/// `RoaringTreemap::len`: how many ids the set holds; of the one set that holds
/// all ids nothing is said.
#[verifier::external_body]
pub(crate) fn treemap_len(set: &RoaringTreemap) -> (r: u64)
    ensures
        treemap_ids(*set).len() <= u64::MAX ==> r == treemap_ids(*set).len(),
{
    set.len()
}

/// `RoaringTreemap::min`: the least id.
#[verifier::external_body]
pub(crate) fn treemap_min(set: &RoaringTreemap) -> (r: Option<u64>)
    ensures
        r is None <==> treemap_ids(*set) == Set::<u64>::empty(),
        r matches Some(v) ==> treemap_ids(*set).contains(v) && forall|x: u64| #[trigger]
            treemap_ids(*set).contains(x) ==> v <= x,
{
    set.min()
}

/// `RoaringTreemap::max`: the greatest id.
#[verifier::external_body]
pub(crate) fn treemap_max(set: &RoaringTreemap) -> (r: Option<u64>)
    ensures
        r is None <==> treemap_ids(*set) == Set::<u64>::empty(),
        r matches Some(v) ==> treemap_ids(*set).contains(v) && forall|x: u64| #[trigger]
            treemap_ids(*set).contains(x) ==> x <= v,
{
    set.max()
}

/// `RoaringTreemap::range_cardinality`: how many ids from `lo` to `hi` the set
/// holds; where these are all ids nothing is said.
#[verifier::external_body]
pub(crate) fn treemap_range_cardinality(set: &RoaringTreemap, lo: u64, hi: u64) -> (r: u64)
    ensures
        treemap_ids(*set).intersect(id_range(lo, hi)).len() <= u64::MAX ==> r == treemap_ids(
            *set,
        ).intersect(id_range(lo, hi)).len(),
{
    set.range_cardinality(lo..=hi)
}

/// `RoaringTreemap::intersection_len`: how many ids two sets both hold; where
/// these are all ids nothing is said.
#[verifier::external_body]
pub(crate) fn treemap_intersection_len(a: &RoaringTreemap, b: &RoaringTreemap) -> (r: u64)
    ensures
        treemap_ids(*a).intersect(treemap_ids(*b)).len() <= u64::MAX ==> r == treemap_ids(
            *a,
        ).intersect(treemap_ids(*b)).len(),
{
    a.intersection_len(b)
}

/// `RoaringTreemap::serialize_into` a vector, which does not fail: the bytes
/// spell the ids of the set.
#[verifier::external_body]
pub(crate) fn treemap_to_bytes(set: &RoaringTreemap) -> (r: Result<Vec<u8>, String>)
    ensures
        r is Ok,
        treemap_decoded(r->Ok_0@) is Ok,
        treemap_decoded(r->Ok_0@)->Ok_0 == treemap_ids(*set),
{
    let mut bytes = Vec::new();
    match set.serialize_into(&mut bytes) {
        Ok(()) => Ok(bytes),
        Err(e) => Err(e.to_string()),
    }
}

/// `RoaringTreemap::deserialize_from`: the set that bytes spell, or the words of its
/// error, a function of the bytes alone.
#[verifier::external_body]
pub(crate) fn treemap_from_bytes(bytes: &[u8]) -> (r: Result<RoaringTreemap, String>)
    ensures
        match treemap_decoded(bytes@) {
            Ok(ids) => r is Ok && treemap_ids(r->Ok_0) == ids,
            Err(words) => r is Err && r->Err_0@ == words,
        },
{
    match RoaringTreemap::deserialize_from(bytes) {
        Ok(set) => Ok(set),
        Err(e) => Err(e.to_string()),
    }
}

/// Sets of ids are finite.
pub proof fn lemma_ids_finite(s: Set<u64>)
    ensures
        s.finite(),
{
    broadcast use full_set_properties;

    assert(s.subset_of(Set::<u64>::full()));
    lemma_set_subset_finite(Set::<u64>::full(), s);
}

/// How many ids a range has.
pub proof fn lemma_id_range(lo: u64, hi: u64)
    ensures
        id_range(lo, hi).finite(),
        lo <= hi ==> id_range(lo, hi).len() == hi - lo + 1,
        lo > hi ==> id_range(lo, hi).len() == 0,
{
    lemma_ids_finite(id_range(lo, hi));
    if lo > hi {
        assert(id_range(lo, hi) =~= Set::<u64>::empty());
    } else {
        range_set_properties::<u64>(lo, hi);
        assert(id_range(lo, hi) =~= Set::<u64>::range(lo, hi).insert(hi));
    }
}

} // verus!
