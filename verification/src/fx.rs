//! Hash maps from kinds to values, hashed by `fxhash`.

use std::collections::HashMap;
use std::hash::BuildHasherDefault;
use vstd::prelude::*;

verus! {

/// The hasher of `fxhash`, opaque here.
#[verifier::external_type_specification]
#[verifier::external_body]
pub struct ExFxHasher(fxhash::FxHasher);

/// `std::hash::BuildHasherDefault`, opaque here.
#[verifier::external_type_specification]
#[verifier::external_body]
#[verifier::reject_recursive_types(H)]
pub struct ExBuildHasherDefault<H>(BuildHasherDefault<H>);

/// A hash map from kinds to values, hashed by `fxhash`: `fxhash::FxHashMap`
/// with `u64` keys. What vstd states of `HashMap` holds for hashers that it
/// knows to be sound, and it does not know this one, so each method that the
/// library calls on such a map stands behind a function below, whose contract
/// is taken on trust.
pub type FxMap<T> = HashMap<u64, T, BuildHasherDefault<fxhash::FxHasher>>;

/// `fxhash::FxHashMap::default`: the new map holds nothing.
#[verifier::external_body]
pub(crate) fn fx_map_new<T>() -> (table: FxMap<T>)
    ensures
        (table@ == Map::<u64, T>::empty()),
{
    fxhash::FxHashMap::default()
}

/// `HashMap::get` on a map hashed by `fxhash`: the value stored under `key`,
/// if there is one.
#[verifier::external_body]
pub(crate) fn fx_map_get<'a, T>(table: &'a FxMap<T>, key: u64) -> (found: Option<&'a T>)
    ensures
        found == (if table@.contains_key(key) {
            Some(&table@[key])
        } else {
            None
        }),
{
    table.get(&key)
}

/// `HashMap::contains_key` on a map hashed by `fxhash`: whether a value is
/// stored under `key`.
#[verifier::external_body]
pub(crate) fn fx_map_contains<T>(table: &FxMap<T>, key: u64) -> (found: bool)
    ensures
        found == table@.contains_key(key),
{
    table.contains_key(&key)
}

/// `HashMap::insert` on a map hashed by `fxhash`: afterwards `key` maps to
/// `value`, and every other key is as it was.
#[verifier::external_body]
pub(crate) fn fx_map_insert<T>(table: &mut FxMap<T>, key: u64, value: T)
    ensures
        final(table)@ == old(table)@.insert(key, value),
{
    table.insert(key, value);
}

/// `HashMap::get_mut` on a map hashed by `fxhash`: a reference into the map
/// to the value stored under `key`, if there is one. What the caller leaves
/// behind the reference is what the map holds under `key` afterwards; without
/// such a value the map stays as it was.
#[verifier::external_body]
pub(crate) fn fx_map_get_mut<'a, T>(table: &'a mut FxMap<T>, key: u64) -> (found: Option<
    &'a mut T,
>)
    ensures
        (match found {
            Some(value) => {
                &&& old(table)@.contains_key(key)
                &&& *value == old(table)@[key]
                &&& final(table)@ == old(table)@.insert(key, *final(value))
            },
            None => !old(table)@.contains_key(key) && final(table)@ == old(table)@,
        }),
{
    table.get_mut(&key)
}

/// `HashMap::iter` on a map hashed by `fxhash`, collected: every entry of the
/// map once, each key with a reference to its value, in an order that is not
/// stated.
#[verifier::external_body]
pub(crate) fn fx_map_entries<'a, T>(table: &'a FxMap<T>) -> (entries: Vec<(u64, &'a T)>)
    ensures
        (forall|i: int|
            0 <= i < entries@.len() ==> table@.contains_key(#[trigger] entries@[i].0)
                && *entries@[i].1 == table@[entries@[i].0]),
        (forall|i: int, j: int| 0 <= i < j < entries@.len() ==> entries@[i].0 != entries@[j].0),
        (forall|key: u64|
            table@.contains_key(key) ==> exists|i: int|
                0 <= i < entries@.len() && entries@[i].0 == key),
{
    table.iter().map(|(key, value)| (*key, value)).collect()
}

/// `HashMap::into_iter` on a map hashed by `fxhash`, collected: every entry
/// of the map once, key and value, in an order that is not stated.
#[verifier::external_body]
pub(crate) fn fx_map_into_entries<T>(table: FxMap<T>) -> (entries: Vec<(u64, T)>)
    ensures
        (forall|i: int|
            0 <= i < entries@.len() ==> table@.contains_key(#[trigger] entries@[i].0)
                && entries@[i].1 == table@[entries@[i].0]),
        (forall|i: int, j: int| 0 <= i < j < entries@.len() ==> entries@[i].0 != entries@[j].0),
        (forall|key: u64|
            table@.contains_key(key) ==> exists|i: int|
                0 <= i < entries@.len() && entries@[i].0 == key),
{
    table.into_iter().collect()
}

} // verus!
