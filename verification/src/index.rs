//! Integer-keyed hash collections.
//!
//! The scene graph and the component tables find their entries through
//! `nohash::IntMap` and `nohash::IntSet`: std's `HashMap` and `HashSet` with a
//! hasher that hands an integer key back as its own hash.  The functions in this
//! module are the only code that touches those collections.  Their contracts are
//! not proved; they restate, over the map and set views that vstd gives to std's
//! collections, what std documents for each method.  Keys are raw `usize`
//! values, which hash by one `write_usize` call, as the hasher demands.

use nohash::IntMap;
use nohash::IntSet;
use vstd::prelude::*;

verus! {

/// `nohash::NoHashHasher`, the hasher of `IntMap` and `IntSet`.  Nothing is
/// claimed of it; the declaration lets the two collection types be named.
#[verifier::external_type_specification]
#[verifier::external_body]
#[verifier::reject_recursive_types(T)]
pub struct ExNoHashHasher<T>(nohash::NoHashHasher<T>);

/// `core::hash::BuildHasherDefault`, through which `IntMap` and `IntSet` make
/// their hashers.  Nothing is claimed of it.
#[verifier::external_type_specification]
#[verifier::external_body]
#[verifier::reject_recursive_types(H)]
pub struct ExBuildHasherDefault<H>(core::hash::BuildHasherDefault<H>);

/// `HashMap::get` on an `IntMap`: the value that the key is bound to, if any.
#[verifier::external_body]
pub(crate) fn map_get<V>(map: &IntMap<usize, V>, key: usize) -> (value: Option<&V>)
    ensures
        value == (if map@.contains_key(key) {
            Some(&map@[key])
        } else {
            None
        }),
{
    map.get(&key)
}

/// `HashMap::insert` on an `IntMap`: the key is bound to the value, every other
/// binding stays, and the value that the key was bound to before, if any, is
/// returned.
#[verifier::external_body]
pub(crate) fn map_insert<V>(
    map: &mut IntMap<usize, V>,
    key: usize,
    value: V,
) -> (previous: Option<V>)
    ensures
        final(map)@ == old(map)@.insert(key, value),
        previous == (if old(map)@.contains_key(key) {
            Some(old(map)@[key])
        } else {
            None
        }),
{
    map.insert(key, value)
}

/// `HashMap::remove` on an `IntMap`: the key is unbound, every other binding
/// stays, and the value that the key was bound to, if any, is returned.
#[verifier::external_body]
pub(crate) fn map_remove<V>(map: &mut IntMap<usize, V>, key: usize) -> (previous: Option<V>)
    ensures
        final(map)@ == old(map)@.remove(key),
        previous == (if old(map)@.contains_key(key) {
            Some(old(map)@[key])
        } else {
            None
        }),
{
    map.remove(&key)
}

/// `HashSet::contains` on an `IntSet`: whether the key is a member.
#[verifier::external_body]
pub(crate) fn set_contains(set: &IntSet<usize>, key: usize) -> (found: bool)
    ensures
        found == set@.contains(key),
{
    set.contains(&key)
}

/// `HashSet::insert` on an `IntSet`: the key becomes a member, every other
/// member stays, and the result says whether the key was new.
#[verifier::external_body]
pub(crate) fn set_insert(set: &mut IntSet<usize>, key: usize) -> (fresh: bool)
    ensures
        final(set)@ == old(set)@.insert(key),
        fresh == !old(set)@.contains(key),
{
    set.insert(key)
}

/// `HashSet::remove` on an `IntSet`: the key stops being a member, every other
/// member stays, and the result says whether the key was a member.
#[verifier::external_body]
pub(crate) fn set_remove(set: &mut IntSet<usize>, key: usize) -> (found: bool)
    ensures
        final(set)@ == old(set)@.remove(key),
        found == old(set)@.contains(key),
{
    set.remove(&key)
}

/// `HashSet::iter` on an `IntSet`, collected: every member exactly once.  The
/// order is the one in which the set walks its buckets, of which nothing is
/// claimed.
#[verifier::external_body]
pub(crate) fn set_members(set: &IntSet<usize>) -> (members: Vec<usize>)
    ensures
        members@.no_duplicates(),
        forall|key: usize| members@.contains(key) <==> set@.contains(key),
{
    set.iter().copied().collect()
}

} // verus!
