//! Requests that wait for an address to be resolved, grouped by address.

use im::hashmap::HashMap;
use vstd::prelude::*;

verus! {

/// The persistent hash map of the `im` crate.
#[verifier::external_type_specification]
#[verifier::external_body]
#[verifier::reject_recursive_types(K)]
#[verifier::reject_recursive_types(V)]
#[verifier::reject_recursive_types(S)]
pub struct ExPersistentMap<K, V, S>(HashMap<K, V, S>);

/// The map of waiting requests.
pub type WaitingMap = HashMap<u32, Vec<u64>>;

/// What a map of waiting requests holds: for each key the requests that wait,
/// in the order in which they came.
pub uninterp spec fn waiting(m: WaitingMap) -> Map<u32, Seq<u64>>;

/// An empty map, by `im::hashmap::HashMap::new`.
#[verifier::external_body]
pub(crate) fn map_new() -> (m: WaitingMap)
    ensures
        forall|k: u32| !waiting(m).contains_key(k),
{
    HashMap::new()
}

/// Stores a list under a key, in place of what was there, by
/// `im::hashmap::HashMap::insert`.
#[verifier::external_body]
pub(crate) fn map_insert(m: &mut WaitingMap, key: u32, list: Vec<u64>)
    ensures
        waiting(*final(m)) == waiting(*old(m)).insert(key, list@),
{
    m.insert(key, list);
}

/// Takes a key out of the map and returns the list that was there, by
/// `im::hashmap::HashMap::remove`.
#[verifier::external_body]
pub(crate) fn map_remove(m: &mut WaitingMap, key: u32) -> (r: Option<Vec<u64>>)
    ensures
        waiting(*final(m)) == waiting(*old(m)).remove(key),
        match r {
            Some(list) => waiting(*old(m)).contains_key(key) && list@ == waiting(*old(m))[key],
            None => !waiting(*old(m)).contains_key(key),
        },
{
    m.remove(&key)
}

} // verus!
