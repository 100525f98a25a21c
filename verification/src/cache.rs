use vstd::prelude::*;

use crate::record::CacheEntry;
use std::sync::Arc;

verus! {

#[verifier::external_type_specification]
#[verifier::external_body]
#[verifier::reject_recursive_types(K)]
#[verifier::reject_recursive_types(V)]
#[verifier::reject_recursive_types(S)]
pub struct ExDashMap<K, V, S>(dashmap::DashMap<K, V, S>);

#[verifier::external_type_specification]
#[verifier::external_body]
pub struct ExRandomXxh3HashBuilder128(twox_hash::RandomXxh3HashBuilder128);

/// The shared result cache: a concurrent mapping from an input value to the
/// entry its worker published. Many workers read and write it at once, so no
/// contract relates two calls on it: every guarantee about its contents is
/// re-established by verified checks on what comes back out.
#[derive(Clone)]
pub struct ResultCache {
    inner: Arc<dashmap::DashMap<u64, CacheEntry, twox_hash::RandomXxh3HashBuilder128>>,
}

impl ResultCache {
    /// Relies on dashmap::DashMap::with_capacity_and_hasher to build an empty
    /// concurrent map, hashed by twox_hash's randomly seeded xxh3 builder.
    #[verifier::external_body]
    pub fn with_capacity(capacity: usize) -> (r: Self) {
        ResultCache {
            inner: Arc::new(
                dashmap::DashMap::with_capacity_and_hasher(
                    capacity,
                    twox_hash::RandomXxh3HashBuilder128::default(),
                ),
            ),
        }
    }

    /// Relies on dashmap::DashMap::get: a non-blocking concurrent read that
    /// yields a copy of some published entry for the key, or nothing.
    #[verifier::external_body]
    pub fn try_get(&self, key: u64) -> (r: Option<CacheEntry>) {
        self.inner.get(&key).map(|e| e.value().clone())
    }

    /// Relies on dashmap::DashMap::entry / Entry::or_insert: publishes the
    /// entry under the key unless one is already present, in which case the
    /// new entry is dropped.
    #[verifier::external_body]
    pub fn insert_if_absent(&self, key: u64, entry: CacheEntry) {
        self.inner.entry(key).or_insert(entry);
    }

    /// Relies on dashmap::DashMap::len: the number of entries currently
    /// published.
    #[verifier::external_body]
    pub fn size(&self) -> (r: usize) {
        self.inner.len()
    }

    /// Relies on dashmap::DashMap::iter: copies out the published entries,
    /// in no promised order.
    #[verifier::external_body]
    pub fn entries(&self) -> (r: Vec<CacheEntry>) {
        self.inner.iter().map(|e| e.value().clone()).collect()
    }
}

} // verus!
