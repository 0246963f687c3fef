//! Client-side state of the game: the tile-to-country bindings a client
//! holds, the updates it receives, and an in-process backend that serves them
//! without a server.
use std::collections::HashMap;
use vstd::prelude::*;

verus! {

broadcast use vstd::std_specs::hash::group_hash_axioms;

/// Something a tile can be claimed through.
pub trait TileClicker {
    fn click_tile(&mut self, tile_id: u32, country_id: String);
}

/// A batch of tile-to-country bindings.
#[derive(Debug, Clone)]
pub struct Ownerships {
    pub bindings: HashMap<u32, String>,
}

impl Ownerships {
    /// No binding.
    pub fn new() -> (r: Self)
        ensures
            r.bindings@ == Map::<u32, String>::empty(),
    {
        Ownerships { bindings: HashMap::new() }
    }

    /// Binds `tile_id` to `country_id`, replacing any earlier binding.
    pub fn set_binding(&mut self, tile_id: u32, country_id: String)
        ensures
            final(self).bindings@ == old(self).bindings@.insert(tile_id, country_id),
    {
        self.bindings.insert(tile_id, country_id);
    }

    /// The bindings.
    pub fn get_bindings(&self) -> (r: &HashMap<u32, String>)
        ensures
            r@ == self.bindings@,
    {
        &self.bindings
    }
}

/// A change of a tile's country, as a client sees it.
#[derive(Debug, Clone)]
pub struct Update {
    pub tile: u32,
    pub previous_country: Option<String>,
    pub new_country: String,
}

impl Update {
    /// An update of `tile` from `previous_country` to `new_country`.
    pub fn new(tile: u32, previous_country: Option<String>, new_country: String) -> (r: Self)
        ensures
            r.tile == tile,
            r.previous_country == previous_country,
            r.new_country == new_country,
    {
        Update { tile, previous_country, new_country }
    }
}

/// An in-process backend: it holds the bindings itself and answers a click
/// with the update it makes.
pub struct FakeBackend {
    tile_bindings: HashMap<u32, String>,
}

impl FakeBackend {
    /// The bindings the backend holds.
    pub closed spec fn bindings(&self) -> Map<u32, String> {
        self.tile_bindings@
    }

    /// A backend where tiles `1..=last_tile` all belong to `country_id`.
    pub fn with_default_owner(last_tile: u32, country_id: &str) -> (r: Self)
        ensures
            r.bindings().dom() == Set::new(|t: u32| 1 <= t <= last_tile),
            forall|t: u32| 1 <= t <= last_tile ==> #[trigger] r.bindings()[t]@ == country_id@,
    {
        let mut tile_bindings: HashMap<u32, String> = HashMap::new();
        let mut t: u32 = 1;
        while t <= last_tile
            invariant
                1 <= t,
                t <= last_tile + 1,
                tile_bindings@.dom() == Set::new(|u: u32| 1 <= u < t),
                forall|u: u32| 1 <= u < t ==> #[trigger] tile_bindings@[u]@ == country_id@,
            decreases last_tile + 1 - t,
        {
            tile_bindings.insert(t, String::from_str(country_id));
            proof {
                assert(tile_bindings@.dom() =~= Set::new(|u: u32| 1 <= u < t + 1));
            }
            if t == u32::MAX {
                proof {
                    assert(tile_bindings@.dom() =~= Set::new(|u: u32| 1 <= u <= last_tile));
                }
                return FakeBackend { tile_bindings };
            }
            t = t + 1;
        }
        proof {
            assert(tile_bindings@.dom() =~= Set::new(|u: u32| 1 <= u <= last_tile));
        }
        FakeBackend { tile_bindings }
    }

    /// The bindings the backend holds.
    pub fn tile_bindings(&self) -> (r: &HashMap<u32, String>)
        ensures
            r@ == self.bindings(),
    {
        &self.tile_bindings
    }

    /// Binds `tile_id` to `country_id` and returns the update that makes,
    /// with the country the tile had before, if any.
    pub fn click_tile(&mut self, tile_id: u32, country_id: String) -> (r: Update)
        ensures
            final(self).bindings() == old(self).bindings().insert(tile_id, country_id),
            r.tile == tile_id,
            r.new_country@ == country_id@,
            r.previous_country == (if old(self).bindings().contains_key(tile_id) {
                Some(old(self).bindings()[tile_id])
            } else {
                None
            }),
    {
        let new_country = country_id.clone();
        let previous_country = self.tile_bindings.insert(tile_id, country_id);
        Update { tile: tile_id, previous_country, new_country }
    }
}

impl TileClicker for FakeBackend {
    fn click_tile(&mut self, tile_id: u32, country_id: String) {
        let _ = FakeBackend::click_tile(self, tile_id, country_id);
    }
}

} // verus!
