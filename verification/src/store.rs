use vstd::prelude::*;
use std::collections::BTreeMap;
use std::sync::Arc;

verus! {

/// Declares lock_api's readers-writer lock (the type behind
/// parking_lot::RwLock) so that the store can carry one; the lock is
/// opaque here, touched only through the trusted functions below.
#[verifier::external_type_specification]
#[verifier::external_body]
#[verifier::reject_recursive_types(R)]
#[verifier::reject_recursive_types(T)]
pub struct ExRwLock<R, T: ?Sized>(parking_lot::lock_api::RwLock<R, T>);

/// Declares parking_lot's raw lock, the `R` of the lock above.
#[verifier::external_type_specification]
#[verifier::external_body]
pub struct ExRawRwLock(parking_lot::RawRwLock);

/// The shared runtime key/value store: any number of concurrent
/// readers or exactly one writer, shared between the tree and any
/// external updater. Its contents may change between any two reads, so
/// nothing is assumed about what a lookup returns.
pub type Store = Arc<parking_lot::RwLock<BTreeMap<String, String>>>;

/// Relies on parking_lot::RwLock::new to build an empty shared store.
#[verifier::external_body]
pub fn new_store() -> (r: Store) {
    Arc::new(parking_lot::RwLock::new(BTreeMap::new()))
}

/// Relies on Arc::clone: hands out one more handle to the same store.
#[verifier::external_body]
pub fn clone_store(s: &Store) -> (r: Store) {
    Arc::clone(s)
}

/// Relies on parking_lot::RwLock::read and BTreeMap::get: takes the
/// reader lock and copies out the value under `k`, if any. The store is
/// shared and mutable, so no relation between two lookups is assumed.
#[verifier::external_body]
pub fn store_get(s: &Store, k: &str) -> (r: Option<String>) {
    s.read().get(k).cloned()
}

/// Relies on parking_lot::RwLock::write and BTreeMap::insert: takes the
/// writer lock and maps `k` to `v`.
#[verifier::external_body]
pub fn store_set(s: &Store, k: String, v: String) {
    s.write().insert(k, v);
}

} // verus!
