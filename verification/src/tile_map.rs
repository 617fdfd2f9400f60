//! The map from tile numbers to lists of triangle numbers.
//!
//! The map is a hash map of the standard library that hashes with
//! `rustc_hash::FxBuildHasher`. What it holds is known to the verifier
//! only through the functions of this module, whose contracts are taken
//! on trust from the documentation of `std::collections::HashMap`.

use rustc_hash::FxBuildHasher;
use std::collections::HashMap;
use vstd::prelude::*;

verus! {

/// The hasher builder of `rustc_hash`, a unit struct.
#[verifier::external_type_specification]
#[verifier::external_body]
pub struct ExFxBuildHasher(FxBuildHasher);

/// A map from tile numbers to lists of triangle numbers.
pub type TileMap = HashMap<u32, Vec<usize>, FxBuildHasher>;

/// What a tile map holds: for each tile number that has an entry, its
/// list of triangle numbers.
pub uninterp spec fn tile_entries(m: TileMap) -> Map<u32, Seq<usize>>;

/// Calls `HashMap::default`, which gives an empty map.
#[verifier::external_body]
pub(crate) fn tile_map_new() -> (m: TileMap)
    ensures
        tile_entries(m).dom() == Set::<u32>::empty(),
{
    HashMap::default()
}

/// Calls `HashMap::remove`, which takes the entry of `key` out of the map
/// and returns its value, or returns `None` where the key has no entry
/// and leaves the map as it is.
#[verifier::external_body]
pub(crate) fn tile_map_remove(m: &mut TileMap, key: u32) -> (r: Option<Vec<usize>>)
    ensures
        tile_entries(*final(m)) == tile_entries(*old(m)).remove(key),
        r matches Some(v) ==> tile_entries(*old(m)).contains_key(key) && v@ == tile_entries(
            *old(m),
        )[key],
        r is None ==> !tile_entries(*old(m)).contains_key(key),
{
    m.remove(&key)
}

/// Calls `HashMap::insert`, which sets the entry of `key` to `value`,
/// in place of an earlier one if there is one.
#[verifier::external_body]
pub(crate) fn tile_map_insert(m: &mut TileMap, key: u32, value: Vec<usize>)
    ensures
        tile_entries(*final(m)) == tile_entries(*old(m)).insert(key, value@),
{
    m.insert(key, value);
}

/// Calls `HashMap::get`, which returns the value of the entry of `key`,
/// or `None` where the key has no entry.
#[verifier::external_body]
pub(crate) fn tile_map_get(m: &TileMap, key: u32) -> (r: Option<&Vec<usize>>)
    ensures
        r matches Some(v) ==> tile_entries(*m).contains_key(key) && v@ == tile_entries(*m)[key],
        r is None ==> !tile_entries(*m).contains_key(key),
{
    m.get(&key)
}

/// Walks `HashMap::keys`, which visits every key of the map once, in an
/// order that is not told.
#[verifier::external_body]
pub(crate) fn tile_map_keys(m: &TileMap) -> (keys: Vec<u32>)
    ensures
        keys@.no_duplicates(),
        forall|k: u32| keys@.contains(k) <==> tile_entries(*m).contains_key(k),
{
    m.keys().copied().collect()
}

} // verus!
