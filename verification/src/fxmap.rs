//! The operations of `FxHashMap` that the virtual machine uses, on maps keyed by `u64`.
//!
//! `FxHashMap` is std's `HashMap` with the deterministic hasher of `rustc_hash`. The
//! standard library specifications of vstd promise what `insert`, `remove`, `get` and `len`
//! do only for hashers that are known to be well behaved, so those calls carry their own
//! contracts here, each of them what the `HashMap` documentation states.
use rustc_hash::{FxBuildHasher, FxHashMap};
use vstd::prelude::*;

verus! {

/// The hasher that `FxHashMap` builds its hashes with.
#[verifier::external_type_specification]
#[verifier::external_body]
pub struct ExFxBuildHasher(FxBuildHasher);

/// The map without any entry.
pub open spec fn no_entries<V>() -> Map<u64, V> {
    Map::empty()
}

/// Makes an empty `FxHashMap` (`HashMap::default`, which vstd specifies for every hasher).
pub(crate) fn map_new<V>() -> (r: FxHashMap<u64, V>)
    ensures
        r@ == no_entries::<V>(),
{
    FxHashMap::default()
}

/// Removes an entry of an `FxHashMap` (`HashMap::remove`): returns the value that the key had,
/// if any, and leaves the map without the key.
#[verifier::external_body]
pub(crate) fn map_remove<V>(m: &mut FxHashMap<u64, V>, k: u64) -> (r: Option<V>)
    ensures
        final(m)@ == old(m)@.remove(k),
        old(m)@.contains_key(k) ==> r == Some(old(m)@[k]),
        !old(m)@.contains_key(k) ==> r is None,
{
    m.remove(&k)
}

/// Inserts an entry into an `FxHashMap` (`HashMap::insert`), replacing the value that the key
/// had. The value that was replaced is dropped.
#[verifier::external_body]
pub(crate) fn map_insert<V>(m: &mut FxHashMap<u64, V>, k: u64, v: V)
    ensures
        final(m)@ == old(m)@.insert(k, v),
{
    m.insert(k, v);
}

/// Reads the value of a key of an `FxHashMap` (`HashMap::get`).
#[verifier::external_body]
pub(crate) fn map_get<V>(m: &FxHashMap<u64, V>, k: u64) -> (r: Option<&V>)
    ensures
        m@.contains_key(k) ==> r == Some(&m@[k]),
        !m@.contains_key(k) ==> r is None,
{
    m.get(&k)
}

/// The number of entries of an `FxHashMap` (`HashMap::len`). vstd ties the length to the map's
/// view only for hashers it knows to be well behaved, which the one of `rustc_hash` is not among.
#[verifier::external_body]
pub(crate) fn map_len<V>(m: &FxHashMap<u64, V>) -> (r: usize)
    ensures
        r == m@.len(),
{
    m.len()
}

} // verus!
