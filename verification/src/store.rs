//! Tables keyed by the word of a ball, held in `fnv`'s hash map and hash set.
//!
//! `FnvHashMap` and `FnvHashSet` are std's `HashMap` and `HashSet` with the
//! FNV hasher of the `fnv` crate.  The map is seen through vstd's view of a
//! `HashMap` (a `Map`), the set through vstd's view of a `HashSet` (a `Set`).
//!
//! vstd states what std's `HashMap` and `HashSet` do only for hashers that
//! build equal hashes for equal keys, and has that fact for std's own hasher
//! alone.  The wrappers below state it for `fnv`'s hasher: `FnvHasher::write`
//! and `FnvHasher::finish` compute the FNV-1a hash of the bytes written from
//! a fixed start value, so equal keys always get equal hashes.  That is what
//! these contracts rest on; it is not proved here.
use vstd::prelude::*;
use fnv::{FnvHashMap, FnvHashSet, FnvHasher};
use std::hash::BuildHasherDefault;

verus! {

/// `fnv::FnvHasher`, the hasher of the tables; nothing is said of its state.
#[verifier::external_type_specification]
#[verifier::external_body]
pub struct ExFnvHasher(FnvHasher);

/// std's `BuildHasherDefault`, which builds the tables' hashers; nothing is
/// said of it.
#[verifier::external_type_specification]
#[verifier::external_body]
#[verifier::reject_recursive_types(H)]
pub struct ExBuildHasherDefault<H>(BuildHasherDefault<H>);

/// Calls std's `HashMap::insert` on an `FnvHashMap`.  Claimed: afterwards `k`
/// maps to `v`, and every other key maps to what it mapped to before.
#[verifier::external_body]
pub(crate) fn table_insert<V>(m: &mut FnvHashMap<u64, V>, k: u64, v: V)
    ensures
        final(m)@ == old(m)@.insert(k, v),
{
    m.insert(k, v);
}

/// Calls std's `HashMap::get` on an `FnvHashMap`.  Claimed: it gives the value
/// of `k` where `k` is a key, and nothing where it is not.
#[verifier::external_body]
pub(crate) fn table_get<V>(m: &FnvHashMap<u64, V>, k: u64) -> (r: Option<&V>)
    ensures
        match r {
            Some(v) => m@.contains_key(k) && *v == m@[k],
            None => !m@.contains_key(k),
        },
{
    m.get(&k)
}

/// Calls std's `HashMap::len` on an `FnvHashMap`.  Claimed: it gives the
/// number of keys.
#[verifier::external_body]
pub(crate) fn table_len<V>(m: &FnvHashMap<u64, V>) -> (r: usize)
    ensures
        r == m@.dom().len(),
{
    m.len()
}

/// Calls std's `HashSet::insert` on an `FnvHashSet`.  Claimed: afterwards the
/// set holds `k` and exactly the elements it held before.
#[verifier::external_body]
pub(crate) fn set_insert(m: &mut FnvHashSet<u64>, k: u64)
    ensures
        final(m)@ == old(m)@.insert(k),
{
    m.insert(k);
}

/// Calls std's `HashSet::contains` on an `FnvHashSet`.  Claimed: it tells
/// whether the set holds `k`.
#[verifier::external_body]
pub(crate) fn set_contains(m: &FnvHashSet<u64>, k: u64) -> (r: bool)
    ensures
        r == m@.contains(k),
{
    m.contains(&k)
}

} // verus!
