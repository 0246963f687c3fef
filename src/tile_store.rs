//! The two concurrent maps behind the hot ownership index, and the only code
//! that touches them. What each map holds is named by a spec function; every
//! operation states its effect over that name.
use std::collections::HashSet;
use vstd::prelude::*;
use crate::model::TileData;

verus! {

#[verifier::external_type_specification]
#[verifier::external_body]
#[verifier::reject_recursive_types(K)]
#[verifier::reject_recursive_types(V)]
#[verifier::reject_recursive_types(S)]
pub struct ExConcurrentMap<K, V, S>(papaya::HashMap<K, V, S>);

/// The forward map of the hot index: tile id to its owner.
pub type TileMap = papaya::HashMap<u32, TileData>;

/// The reverse map of the hot index: country to the tiles it owns.
pub type CountryTileMap = papaya::HashMap<String, HashSet<u32>>;

/// What the forward map holds: tile id to (country, timestamp).
pub uninterp spec fn tile_entries(m: TileMap) -> Map<u32, (Seq<char>, u64)>;

/// What the reverse map holds: country to the set of its tiles.
pub uninterp spec fn country_entries(m: CountryTileMap) -> Map<Seq<char>, Set<u32>>;

/// Relies on papaya::HashMap::new: a new map holds no entry.
#[verifier::external_body]
pub(crate) fn new_tile_map() -> (r: TileMap)
    ensures
        tile_entries(r).dom() == Set::<u32>::empty(),
{
    papaya::HashMap::new()
}

/// Relies on papaya::HashMapRef::get: the value stored under the key, if any.
#[verifier::external_body]
pub(crate) fn tile_map_get(m: &TileMap, tile_id: u32) -> (r: Option<TileData>)
    ensures
        match r {
            Some(d) => tile_entries(*m).contains_key(tile_id) && tile_entries(*m)[tile_id] == (
                d.country_id@,
                d.timestamp_ns,
            ),
            None => !tile_entries(*m).contains_key(tile_id),
        },
{
    m.pin().get(&tile_id).cloned()
}

/// Relies on papaya::HashMapRef::insert: the key maps to the new value afterwards,
/// every other key is left as it was.
#[verifier::external_body]
pub(crate) fn tile_map_insert(m: &mut TileMap, tile_id: u32, data: TileData)
    ensures
        tile_entries(*final(m)) == tile_entries(*old(m)).insert(
            tile_id,
            (data.country_id@, data.timestamp_ns),
        ),
{
    m.pin().insert(tile_id, data);
}

/// Relies on papaya::HashMapRef::iter: with no concurrent writer (the map is
/// borrowed), it visits every entry exactly once, in no particular order.
#[verifier::external_body]
pub(crate) fn tile_map_entries(m: &TileMap) -> (r: Vec<(u32, TileData)>)
    ensures
        forall|i: int|
            0 <= i < r.len() ==> tile_entries(*m).contains_key(#[trigger] r[i].0)
                && tile_entries(*m)[r[i].0] == (r[i].1.country_id@, r[i].1.timestamp_ns),
        forall|i: int, j: int| 0 <= i < j < r.len() ==> r[i].0 != r[j].0,
        forall|t: u32|
            tile_entries(*m).contains_key(t) ==> exists|i: int| 0 <= i < r.len() && r[i].0 == t,
{
    m.pin().iter().map(|(k, v)| (*k, v.clone())).collect()
}

/// Relies on papaya::HashMap::new: a new map holds no entry.
#[verifier::external_body]
pub(crate) fn new_country_map() -> (r: CountryTileMap)
    ensures
        country_entries(r).dom() == Set::<Seq<char>>::empty(),
{
    papaya::HashMap::new()
}

/// Relies on papaya::HashMapRef::get: a copy of the set stored under the country, if any.
#[verifier::external_body]
pub(crate) fn country_map_get(m: &CountryTileMap, country: &str) -> (r: Option<HashSet<u32>>)
    ensures
        match r {
            Some(s) => country_entries(*m).contains_key(country@) && country_entries(*m)[country@]
                == s@,
            None => !country_entries(*m).contains_key(country@),
        },
{
    m.pin().get(country).cloned()
}

/// Relies on papaya::HashMapRef::insert: the country maps to the new set afterwards,
/// every other country is left as it was.
#[verifier::external_body]
pub(crate) fn country_map_insert(m: &mut CountryTileMap, country: String, tiles: HashSet<u32>)
    ensures
        country_entries(*final(m)) == country_entries(*old(m)).insert(country@, tiles@),
{
    m.pin().insert(country, tiles);
}

/// Relies on papaya::HashMapRef::remove: the country has no entry afterwards,
/// every other country is left as it was.
#[verifier::external_body]
pub(crate) fn country_map_remove(m: &mut CountryTileMap, country: &str)
    ensures
        country_entries(*final(m)) == country_entries(*old(m)).remove(country@),
{
    m.pin().remove(country);
}

/// Relies on papaya::HashMapRef::iter: with no concurrent writer (the map is
/// borrowed), it visits every entry exactly once, in no particular order.
#[verifier::external_body]
pub(crate) fn country_map_entries(m: &CountryTileMap) -> (r: Vec<(String, HashSet<u32>)>)
    ensures
        forall|i: int|
            0 <= i < r.len() ==> country_entries(*m).contains_key(#[trigger] r[i].0@)
                && country_entries(*m)[r[i].0@] == r[i].1@,
        forall|i: int, j: int| 0 <= i < j < r.len() ==> r[i].0@ != r[j].0@,
        forall|c: Seq<char>|
            country_entries(*m).contains_key(c) ==> exists|i: int| 0 <= i < r.len() && r[i].0@ == c,
{
    m.pin().iter().map(|(k, v)| (k.clone(), v.clone())).collect()
}

} // verus!
