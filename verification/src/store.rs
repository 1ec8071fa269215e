//! The durable keyed store behind the registry: a stable B-tree map from an
//! event identifier to the encoded bytes of its record.
//!
//! The map itself comes from an outside crate; its contents are modelled by
//! the uninterpreted [`stored`] map, and each operation the registry uses is
//! a trusted wrapper whose contract states what the crate's own code does.

use ic_stable_structures::{DefaultMemoryImpl, StableBTreeMap};
use vstd::prelude::*;

verus! {

/// The durable map from event identifier to encoded record bytes.
#[verifier::external_body]
pub struct EventStore {
    map: StableBTreeMap<u64, Vec<u8>, DefaultMemoryImpl>,
}

/// What the store holds: one byte sequence per identifier.
pub uninterp spec fn stored(s: EventStore) -> Map<u64, Seq<u8>>;

/// Relies on `StableBTreeMap::new` over a fresh in-process memory: the new
/// map holds no entries.
#[verifier::external_body]
pub fn store_new() -> (r: EventStore)
    ensures
        stored(r).dom() == Set::<u64>::empty(),
{
    EventStore { map: StableBTreeMap::new(DefaultMemoryImpl::default()) }
}

/// Relies on `StableBTreeMap::get`: returns the value stored under the key,
/// if one is present.
#[verifier::external_body]
pub fn store_get(s: &EventStore, key: u64) -> (r: Option<Vec<u8>>)
    ensures
        r is Some <==> stored(*s).dom().contains(key),
        r matches Some(v) ==> v@ == stored(*s)[key],
{
    s.map.get(&key)
}

/// Relies on `StableBTreeMap::insert`: stores the value under the key,
/// replacing and returning any previous value.
#[verifier::external_body]
pub fn store_insert(s: &mut EventStore, key: u64, value: Vec<u8>) -> (prev: Option<Vec<u8>>)
    ensures
        stored(*final(s)).dom() == stored(*old(s)).dom().insert(key),
        stored(*final(s))[key] == value@,
        forall|k: u64|
            k != key && stored(*old(s)).dom().contains(k) ==> stored(*final(s))[k]
                == stored(*old(s))[k],
        prev is Some <==> stored(*old(s)).dom().contains(key),
        prev matches Some(p) ==> p@ == stored(*old(s))[key],
{
    s.map.insert(key, value)
}

/// Relies on `StableBTreeMap::iter`: it visits every entry of the map
/// exactly once.
#[verifier::external_body]
pub fn store_entries(s: &EventStore) -> (r: Vec<(u64, Vec<u8>)>)
    ensures
        r@.len() == stored(*s).dom().len(),
        forall|i: int|
            0 <= i < r@.len() ==> stored(*s).dom().contains(#[trigger] r@[i].0)
                && stored(*s)[r@[i].0] == r@[i].1@,
        forall|k: u64|
            #[trigger] stored(*s).dom().contains(k) ==> exists|i: int|
                0 <= i < r@.len() && r@[i].0 == k,
{
    s.map.iter().map(|e| e.into_pair()).collect()
}

} // verus!
