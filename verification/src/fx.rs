//! The hash collections of the switch: `FxHashMap` and `FxHashSet`, which are
//! the standard library's `HashMap` and `HashSet` hashing with `FxHasher`.
//!
//! The standard collections are specified for a hasher that is known to be
//! deterministic. `FxHasher` is one (it starts from a fixed state and has no
//! seed), but that is a fact about code outside this crate. Every function
//! here therefore states, without proof, what one method of the standard
//! collection does to the contents when the hasher is `FxHasher`. The contents
//! are the collection's view: a `Set` of keys, or a `Map` from keys to values.

use fxhash::{FxHashMap, FxHashSet};
use std::hash::Hash;
use vstd::prelude::*;
use vstd::std_specs::hash::obeys_key_model;

verus! {

/// `fxhash::FxHasher`, the hasher of both collections. Nothing is said of
/// what it holds.
#[verifier::external_type_specification]
#[verifier::external_body]
pub struct ExFxHasher(fxhash::FxHasher);

/// `std::hash::BuildHasherDefault`, through which the collections make their
/// hashers. Nothing is said of what it holds.
#[verifier::external_type_specification]
#[verifier::external_body]
#[verifier::reject_recursive_types(H)]
pub struct ExBuildHasherDefault<H>(std::hash::BuildHasherDefault<H>);

/// `HashSet::insert`: afterwards the set holds `key` besides what it held, and
/// the result tells whether `key` was new to it.
#[verifier::external_body]
pub(crate) fn set_insert(set: &mut FxHashSet<usize>, key: usize) -> (fresh: bool)
    ensures
        final(set)@ == old(set)@.insert(key),
        fresh == !old(set)@.contains(key),
{
    set.insert(key)
}

/// `HashSet::contains`: whether the set holds `key`.
#[verifier::external_body]
pub(crate) fn set_contains(set: &FxHashSet<usize>, key: usize) -> (found: bool)
    ensures
        found == set@.contains(key),
{
    set.contains(&key)
}

/// `HashSet::iter`: every key of the set once, in an order that nothing is
/// said about.
#[verifier::external_body]
pub(crate) fn set_items(set: &FxHashSet<usize>) -> (items: Vec<usize>)
    ensures
        items@.no_duplicates(),
        items@.to_set() == set@,
{
    set.iter().copied().collect()
}

/// `HashSet::clone`: a set with the same keys.
#[verifier::external_body]
pub(crate) fn set_clone(set: &FxHashSet<usize>) -> (copy: FxHashSet<usize>)
    ensures
        copy@ == set@,
{
    set.clone()
}

/// `HashMap::insert`: afterwards the map sends `key` to `value` and is
/// otherwise as before; the result is the value that `key` had, if any.
#[verifier::external_body]
pub(crate) fn map_insert<V>(map: &mut FxHashMap<usize, V>, key: usize, value: V) -> (previous:
    Option<V>)
    ensures
        final(map)@ == old(map)@.insert(key, value),
        previous == if old(map)@.contains_key(key) {
            Some(old(map)@[key])
        } else {
            None
        },
{
    map.insert(key, value)
}

/// `HashMap::get`: the value of `key`, if the map has one. Asked of a key
/// type whose hashing and equality are deterministic and agree.
#[verifier::external_body]
pub(crate) fn map_get<'a, K: Eq + Hash, V>(map: &'a FxHashMap<K, V>, key: &K) -> (found: Option<
    &'a V,
>)
    requires
        obeys_key_model::<K>(),
    ensures
        found == if map@.contains_key(*key) {
            Some(&map@[*key])
        } else {
            None
        },
{
    map.get(key)
}

/// `HashMap::keys`: every key of the map once, in an order that nothing is
/// said about.
#[verifier::external_body]
pub(crate) fn map_keys<V>(map: &FxHashMap<usize, V>) -> (keys: Vec<usize>)
    ensures
        keys@.no_duplicates(),
        keys@.to_set() == map@.dom(),
{
    map.keys().copied().collect()
}

} // verus!
