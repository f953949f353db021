//! Hash maps and hash sets keyed by node id, with `ahash` as the hasher.
//!
//! Searches touch a small part of a large graph, so their per-search tables
//! are hash tables rather than arrays over all nodes. What the functions here
//! state of those tables is taken on trust from `std` and `ahash`: the rest of
//! the library is proved against it.

use ahash::RandomState;
use std::collections::HashMap;
use std::collections::HashSet;
use vstd::prelude::*;

verus! {

/// `ahash::RandomState`, the keyed hasher factory. Verus sees nothing inside.
#[verifier::external_type_specification]
#[verifier::external_body]
pub struct ExRandomState(RandomState);

/// The map without keys.
pub open spec fn no_costs() -> Map<u32, u32> {
    Map::empty()
}

/// `HashMap::with_hasher`: an empty map.
#[verifier::external_body]
pub(crate) fn map_with_hasher(hasher: RandomState) -> (table: HashMap<u32, u32, RandomState>)
    ensures
        table@ == no_costs(),
{
    HashMap::with_hasher(hasher)
}

/// `HashMap::insert`: afterwards `key` is mapped to `value` and every other
/// key is as before.
#[verifier::external_body]
pub(crate) fn map_insert(table: &mut HashMap<u32, u32, RandomState>, key: u32, value: u32)
    ensures
        final(table)@ == old(table)@.insert(key, value),
{
    table.insert(key, value);
}

/// `HashMap::get`: the value that `key` is mapped to, if any.
#[verifier::external_body]
pub(crate) fn map_get(table: &HashMap<u32, u32, RandomState>, key: u32) -> (value: Option<u32>)
    ensures
        value == (if table@.contains_key(key) {
            Some(table@[key])
        } else {
            None
        }),
{
    table.get(&key).copied()
}

/// `HashMap::remove`: takes `key` out and hands back what it was mapped to.
#[verifier::external_body]
pub(crate) fn map_remove(table: &mut HashMap<u32, u32, RandomState>, key: u32) -> (value: Option<
    u32,
>)
    ensures
        final(table)@ == old(table)@.remove(key),
        value == (if old(table)@.contains_key(key) {
            Some(old(table)@[key])
        } else {
            None
        }),
{
    table.remove(&key)
}

/// `HashMap::clone`: a map with the same keys and values.
#[verifier::external_body]
pub(crate) fn map_copy(table: &HashMap<u32, u32, RandomState>) -> (copy: HashMap<
    u32,
    u32,
    RandomState,
>)
    ensures
        copy@ == table@,
{
    table.clone()
}

/// `HashSet::with_hasher`: an empty set.
#[verifier::external_body]
pub(crate) fn set_with_hasher(hasher: RandomState) -> (nodes: HashSet<u32, RandomState>)
    ensures
        nodes@ == Set::<u32>::empty(),
{
    HashSet::with_hasher(hasher)
}

/// `HashSet::insert`: afterwards `key` is in the set.
#[verifier::external_body]
pub(crate) fn set_insert(nodes: &mut HashSet<u32, RandomState>, key: u32)
    ensures
        final(nodes)@ == old(nodes)@.insert(key),
{
    nodes.insert(key);
}

/// `HashSet::contains`: whether `key` is in the set.
#[verifier::external_body]
pub(crate) fn set_contains(nodes: &HashSet<u32, RandomState>, key: u32) -> (found: bool)
    ensures
        found == nodes@.contains(key),
{
    nodes.contains(&key)
}

/// `ahash::RandomState::new`: a factory with fresh keys. Nothing is claimed
/// of the keys.
pub assume_specification[ RandomState::new ]() -> (state: RandomState);

} // verus!
