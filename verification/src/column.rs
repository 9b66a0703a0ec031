//! Values by document in a hash map of the `ahash` crate.
//!
//! What a map holds is known by the name [`column_values`]; the contracts of the
//! functions here say over that name what the crate does and are not proved.

use ahash::AHashMap;

use vstd::prelude::*;

use crate::data::DataValue;

verus! {

/// The hasher of the `ahash` crate.
#[verifier::external_type_specification]
#[verifier::external_body]
pub struct ExRandomState(ahash::RandomState);

/// A hash map of the `ahash` crate.
#[verifier::external_type_specification]
#[verifier::external_body]
#[verifier::reject_recursive_types(K)]
#[verifier::reject_recursive_types(V)]
#[verifier::reject_recursive_types(S)]
pub struct ExAHashMap<K, V, S>(ahash::AHashMap<K, V, S>);

/// The values that a map holds, by document.
pub uninterp spec fn column_values(m: AHashMap<u64, DataValue>) -> Map<u64, DataValue>;

/// No document with a value.
pub open spec fn no_values() -> Map<u64, DataValue> {
    Map::empty()
}

/// `AHashMap::new`: a map without values.
#[verifier::external_body]
pub(crate) fn column_new() -> (r: AHashMap<u64, DataValue>)
    ensures
        column_values(r) == no_values(),
{
    AHashMap::new()
}

/// `AHashMap::insert`: sets the value of a document.
#[verifier::external_body]
pub(crate) fn column_insert(m: &mut AHashMap<u64, DataValue>, doc_id: u64, value: DataValue)
    ensures
        column_values(*final(m)) == column_values(*old(m)).insert(doc_id, value),
{
    m.insert(doc_id, value);
}

/// `AHashMap::get`: the value of a document.
#[verifier::external_body]
pub(crate) fn column_get(m: &AHashMap<u64, DataValue>, doc_id: u64) -> (r: Option<&DataValue>)
    ensures
        match r {
            Some(v) => column_values(*m).dom().contains(doc_id) && *v == column_values(*m)[doc_id],
            None => !column_values(*m).dom().contains(doc_id),
        },
{
    m.get(&doc_id)
}

/// `AHashMap::len`: how many documents have a value.
#[verifier::external_body]
pub(crate) fn column_len(m: &AHashMap<u64, DataValue>) -> (r: usize)
    ensures
        r == column_values(*m).dom().len(),
{
    m.len()
}

/// `AHashMap::keys`: the documents that have a value, each once; in which order
/// they come is not said.
#[verifier::external_body]
pub(crate) fn column_keys(m: &AHashMap<u64, DataValue>) -> (r: Vec<u64>)
    ensures
        r@.no_duplicates(),
        r@.to_set() == column_values(*m).dom(),
{
    m.keys().copied().collect()
}

} // verus!
