//! The hot ownership index: a forward map from tile to owner with the
//! last-writer-wins rule, and a reverse map from country to its tiles.
use std::collections::HashSet;
use vstd::prelude::*;
use crate::model::{
    ownership_view, ClickRepositoryError, Click, LeaderboardEntry, LeaderboardError, Ownership,
    OwnershipState, TileData,
};
use crate::tile_store::{
    country_entries, country_map_entries, country_map_get, country_map_insert, country_map_remove,
    new_country_map, new_tile_map, tile_entries, tile_map_entries, tile_map_get, tile_map_insert,
    CountryTileMap, TileMap,
};

verus! {

broadcast use vstd::std_specs::hash::group_hash_axioms;

/// The forward map as a mathematical map: tile to (country, timestamp).
pub type Owners = Map<u32, (Seq<char>, u64)>;

/// The reverse map as a mathematical map: country to its tiles.
pub type Holdings = Map<Seq<char>, Set<u32>>;

/// The forward map after a click of `country` at `ts` on `tile`: the click
/// replaces the stored value only when the tile is unowned or its stored
/// timestamp is strictly older.
pub open spec fn lww_save(f: Owners, tile: u32, country: Seq<char>, ts: u64) -> Owners {
    if f.contains_key(tile) && ts <= f[tile].1 {
        f
    } else {
        f.insert(tile, (country, ts))
    }
}

/// The reverse map with `tile` taken out of `country`'s set; a set left
/// empty is removed with its key.
pub open spec fn without_tile(r: Holdings, country: Seq<char>, tile: u32) -> Holdings {
    if r.contains_key(country) {
        if r[country].remove(tile) == Set::<u32>::empty() {
            r.remove(country)
        } else {
            r.insert(country, r[country].remove(tile))
        }
    } else {
        r
    }
}

/// The reverse map with `tile` added to `country`'s set.
pub open spec fn with_tile(r: Holdings, country: Seq<char>, tile: u32) -> Holdings {
    if r.contains_key(country) {
        r.insert(country, r[country].insert(tile))
    } else {
        r.insert(country, Set::<u32>::empty().insert(tile))
    }
}

/// The reverse map after moving `tile` from `old` (when given and not empty)
/// to `new_country`.
pub open spec fn reindexed(r: Holdings, tile: u32, new_country: Seq<char>, old: Option<Seq<char>>) -> Holdings {
    match old {
        Some(o) => if o.len() > 0 {
            with_tile(without_tile(r, o, tile), new_country, tile)
        } else {
            with_tile(r, new_country, tile)
        },
        None => with_tile(r, new_country, tile),
    }
}

/// The tiles that `country` owns according to the forward map.
pub open spec fn owned_tiles(f: Owners, country: Seq<char>) -> Set<u32> {
    f.dom().filter(|t: u32| f[t].0 == country)
}

/// The reverse map agrees with the forward map: each country's set is exactly
/// the tiles it owns, and no country is listed with an empty set.
pub open spec fn consistent(f: Owners, r: Holdings) -> bool {
    &&& forall|c: Seq<char>, t: u32|
        r.contains_key(c) && #[trigger] r[c].contains(t) ==> f.contains_key(t) && f[t].0 == c
    &&& forall|t: u32|
        #[trigger] f.contains_key(t) ==> r.contains_key(f[t].0) && r[f[t].0].contains(t)
    &&& forall|c: Seq<char>| #[trigger] r.contains_key(c) ==> r[c] != Set::<u32>::empty()
    &&& forall|t: u32| #[trigger] f.contains_key(t) ==> f[t].0.len() > 0
}

/// The view of an optional country name.
pub open spec fn opt_str_view(o: Option<&str>) -> Option<Seq<char>> {
    match o {
        Some(s) => Some(s@),
        None => None,
    }
}

/// Each country of `v` is listed once, with its score in the reverse map, and
/// every country with a positive score is listed.
pub open spec fn lists_scores(r: Holdings, v: Seq<LeaderboardEntry>) -> bool {
    &&& forall|i: int|
        0 <= i < v.len() ==> r.contains_key(#[trigger] v[i].country_id@) && v[i].score == score_of(
            r[v[i].country_id@],
        ) && v[i].score > 0
    &&& forall|i: int, j: int| 0 <= i < j < v.len() ==> v[i].country_id@ != v[j].country_id@
    &&& forall|c: Seq<char>|
        r.contains_key(c) && score_of(r[c]) > 0 ==> exists|i: int|
            0 <= i < v.len() && v[i].country_id@ == c
}

/// A score is the size of a country's set, capped at the largest `u32`.
pub open spec fn score_of(s: Set<u32>) -> u32 {
    if s.len() > u32::MAX {
        u32::MAX
    } else {
        s.len() as u32
    }
}

/// The score of `country` in the reverse map; 0 when it is absent.
pub open spec fn country_score(r: Holdings, country: Seq<char>) -> u32 {
    if r.contains_key(country) {
        score_of(r[country])
    } else {
        0
    }
}

/// The forward map restricted to the tiles in `[start, end]`.
pub open spec fn in_range(f: Owners, start: u32, end: u32) -> Owners {
    f.restrict(Set::new(|t: u32| start <= t <= end))
}

/// `s` lists the entries of `f`, each exactly once, in some order.
pub open spec fn lists_exactly(f: Owners, s: Seq<Ownership>) -> bool {
    &&& forall|i: int|
        0 <= i < s.len() ==> f.contains_key(#[trigger] s[i].tile_id) && f[s[i].tile_id] == (
            s[i].country_id@,
            s[i].timestamp_ns,
        )
    &&& forall|i: int, j: int| 0 <= i < j < s.len() ==> s[i].tile_id != s[j].tile_id
    &&& forall|t: u32| f.contains_key(t) ==> exists|i: int| 0 <= i < s.len() && s[i].tile_id == t
}

/// The ownership record that `f` holds for `tile`, if any.
pub open spec fn ownership_of(f: Owners, tile: u32) -> Option<(u32, Seq<char>, u64)> {
    if f.contains_key(tile) {
        Some((tile, f[tile].0, f[tile].1))
    } else {
        None
    }
}

/// The view of an optional ownership.
pub open spec fn opt_view(o: Option<Ownership>) -> Option<(u32, Seq<char>, u64)> {
    match o {
        Some(x) => Some(ownership_view(x)),
        None => None,
    }
}

/// Moving a tile whose owner changes keeps the two maps in agreement.
pub proof fn lemma_move_keeps_consistent(f: Owners, r: Holdings, t: u32, c: Seq<char>, ts: u64)
    requires
        consistent(f, r),
        c.len() > 0,
        f.contains_key(t) ==> f[t].0 != c,
    ensures
        consistent(
            f.insert(t, (c, ts)),
            reindexed(
                r,
                t,
                c,
                if f.contains_key(t) {
                    Some(f[t].0)
                } else {
                    None
                },
            ),
        ),
{
    let f2 = f.insert(t, (c, ts));
    if f.contains_key(t) {
        let o = f[t].0;
        let mid = without_tile(r, o, t);
        let r2 = with_tile(mid, c, t);
        assert(reindexed(r, t, c, Some(o)) == r2);
        assert forall|d: Seq<char>, u: u32| r2.contains_key(d) && #[trigger] r2[d].contains(u) implies f2.contains_key(u) && f2[u].0 == d by {
            if d == c {
                if u != t {
                    if mid.contains_key(c) {
                        assert(mid[c].contains(u));
                        assert(r[c].contains(u));
                    }
                }
            } else {
                assert(mid.contains_key(d) && mid[d].contains(u));
                if d == o {
                    assert(r[o].remove(t).contains(u));
                }
                assert(r[d].contains(u));
            }
        }
        assert forall|u: u32| #[trigger] f2.contains_key(u) implies r2.contains_key(f2[u].0) && r2[f2[u].0].contains(u) by {
            if u != t {
                let d = f[u].0;
                assert(r.contains_key(d) && r[d].contains(u));
                if d == o {
                    assert(r[o].remove(t).contains(u));
                }
            }
        }
        assert forall|d: Seq<char>| #[trigger] r2.contains_key(d) implies r2[d] != Set::<u32>::empty() by {
            if d == c {
                assert(r2[d].contains(t));
            } else {
                assert(mid.contains_key(d));
                if d == o {
                    assert(r[o].remove(t) != Set::<u32>::empty());
                }
            }
        }
    } else {
        let r2 = with_tile(r, c, t);
        assert forall|d: Seq<char>, u: u32| r2.contains_key(d) && #[trigger] r2[d].contains(u) implies f2.contains_key(u) && f2[u].0 == d by {
            if d == c && u != t && r.contains_key(c) {
                assert(r[c].contains(u));
            }
            if d != c {
                assert(r[d].contains(u));
            }
        }
        assert forall|d: Seq<char>| #[trigger] r2.contains_key(d) implies r2[d] != Set::<u32>::empty() by {
            if d == c {
                assert(r2[d].contains(t));
            }
        }
    }
}

/// The forward map after saves on one tile, each given as (country,
/// timestamp), in the order they arrive.
pub open spec fn saves_on_tile(f: Owners, tile: u32, saves: Seq<(Seq<char>, u64)>) -> Owners
    decreases saves.len(),
{
    if saves.len() == 0 {
        f
    } else {
        lww_save(saves_on_tile(f, tile, saves.drop_last()), tile, saves.last().0, saves.last().1)
    }
}

proof fn lemma_saves_keep_maximum(f: Owners, tile: u32, saves: Seq<(Seq<char>, u64)>)
    requires
        !f.contains_key(tile),
        saves.len() > 0,
    ensures
        saves_on_tile(f, tile, saves).contains_key(tile),
        exists|i: int| 0 <= i < saves.len() && saves_on_tile(f, tile, saves)[tile] == saves[i],
        forall|j: int| 0 <= j < saves.len() ==> (#[trigger] saves[j]).1 <= saves_on_tile(f, tile, saves)[tile].1,
    decreases saves.len(),
{
    let prefix = saves.drop_last();
    let last = saves.last();
    if prefix.len() == 0 {
        assert(saves[0] == last);
    } else {
        lemma_saves_keep_maximum(f, tile, prefix);
        let i = choose|i: int| 0 <= i < prefix.len() && saves_on_tile(f, tile, prefix)[tile] == prefix[i];
        assert(prefix[i] == saves[i]);
        assert forall|j: int| 0 <= j < saves.len() implies (#[trigger] saves[j]).1 <= saves_on_tile(f, tile, saves)[tile].1 by {
            if j < prefix.len() {
                assert(prefix[j] == saves[j]);
            }
        }
    }
    assert(saves[saves.len() - 1] == last);
}

/// Whatever the order in which saves with distinct timestamps reach an
/// unowned tile, the tile ends up with the save that has the highest
/// timestamp.
pub proof fn lemma_highest_timestamp_wins(f: Owners, tile: u32, saves: Seq<(Seq<char>, u64)>)
    requires
        !f.contains_key(tile),
        saves.len() > 0,
        forall|i: int, j: int| 0 <= i < j < saves.len() ==> saves[i].1 != saves[j].1,
    ensures
        exists|i: int|
            0 <= i < saves.len() && saves_on_tile(f, tile, saves)[tile] == saves[i] && forall|j: int|
                0 <= j < saves.len() && j != i ==> (#[trigger] saves[j]).1 < saves[i].1,
{
    lemma_saves_keep_maximum(f, tile, saves);
    let i = choose|i: int| 0 <= i < saves.len() && saves_on_tile(f, tile, saves)[tile] == saves[i];
    assert forall|j: int| 0 <= j < saves.len() && j != i implies (#[trigger] saves[j]).1 < saves[i].1 by {
        if j < i {
            assert(saves[j].1 != saves[i].1);
        } else {
            assert(saves[i].1 != saves[j].1);
        }
    }
}

/// The forward map after a warm load of `s`, record by record.
pub open spec fn warm_owners(s: Seq<Ownership>) -> Owners
    decreases s.len(),
{
    if s.len() == 0 {
        Map::empty()
    } else {
        lww_save(warm_owners(s.drop_last()), s.last().tile_id, s.last().country_id@, s.last().timestamp_ns)
    }
}

/// The reverse map after a warm load of `s`, record by record: each tile is
/// added under its country, with no previous country.
pub open spec fn warm_holdings(s: Seq<Ownership>) -> Holdings
    decreases s.len(),
{
    if s.len() == 0 {
        Map::empty()
    } else {
        reindexed(warm_holdings(s.drop_last()), s.last().tile_id, s.last().country_id@, None)
    }
}

/// No two records of `s` are for the same tile.
pub open spec fn distinct_tiles(s: Seq<Ownership>) -> bool {
    forall|i: int, j: int| 0 <= i < j < s.len() ==> s[i].tile_id != s[j].tile_id
}

/// The records of `s` as plain values.
pub open spec fn records(s: Seq<Ownership>) -> Seq<(u32, Seq<char>, u64)> {
    s.map_values(|o: Ownership| ownership_view(o))
}

proof fn lemma_warm_owners_of_distinct(s: Seq<Ownership>)
    requires
        distinct_tiles(s),
    ensures
        forall|t: u32|
            warm_owners(s).contains_key(t) <==> exists|i: int| 0 <= i < s.len() && s[i].tile_id == t,
        forall|i: int|
            0 <= i < s.len() ==> warm_owners(s)[#[trigger] s[i].tile_id] == (
                s[i].country_id@,
                s[i].timestamp_ns,
            ),
    decreases s.len(),
{
    if s.len() > 0 {
        let p = s.drop_last();
        assert forall|i: int, j: int| 0 <= i < j < p.len() implies p[i].tile_id != p[j].tile_id by {
            assert(p[i] == s[i] && p[j] == s[j]);
        }
        lemma_warm_owners_of_distinct(p);
        let n = s.len() - 1;
        assert(s.last() == s[n]);
        assert(warm_owners(s) == lww_save(warm_owners(p), s[n].tile_id, s[n].country_id@, s[n].timestamp_ns));
        assert forall|t: u32| warm_owners(s).contains_key(t) implies exists|i: int| 0 <= i < s.len() && s[i].tile_id == t by {
            if t != s[n].tile_id {
                assert(warm_owners(p).contains_key(t));
                let i = choose|i: int| 0 <= i < p.len() && p[i].tile_id == t;
                assert(p[i] == s[i]);
            }
        }
        assert forall|t: u32| (exists|i: int| 0 <= i < s.len() && s[i].tile_id == t) implies warm_owners(s).contains_key(t) by {
            let i = choose|i: int| 0 <= i < s.len() && s[i].tile_id == t;
            if i < n {
                assert(p[i] == s[i]);
            }
        }
        assert(!warm_owners(p).contains_key(s[n].tile_id)) by {
            if warm_owners(p).contains_key(s[n].tile_id) {
                let i = choose|i: int| 0 <= i < p.len() && p[i].tile_id == s[n].tile_id;
                assert(p[i] == s[i]);
            }
        }
        assert forall|i: int| 0 <= i < s.len() implies warm_owners(s)[#[trigger] s[i].tile_id] == (
            s[i].country_id@,
            s[i].timestamp_ns,
        ) by {
            if i < n {
                assert(p[i] == s[i]);
            }
        }
    }
}

proof fn lemma_count_without_duplicates<A>(s: Seq<A>, x: A)
    requires
        s.no_duplicates(),
    ensures
        s.to_multiset().count(x) == (if s.contains(x) { 1nat } else { 0nat }),
    decreases s.len(),
{
    broadcast use vstd::seq_lib::group_to_multiset_ensures;
    broadcast use vstd::multiset::group_multiset_axioms;

    if s.len() > 0 {
        let p = s.drop_last();
        assert(s == p.push(s.last()));
        lemma_count_without_duplicates(p, x);
        if p.contains(s.last()) {
            let i = choose|i: int| 0 <= i < p.len() && p[i] == s.last();
            assert(s[i] == s[s.len() - 1]);
        }
        if s.contains(x) && x != s.last() {
            let i = choose|i: int| 0 <= i < s.len() && s[i] == x;
            assert(p[i] == x);
        }
    }
}

proof fn lemma_same_elements_same_multiset<A>(a: Seq<A>, b: Seq<A>)
    requires
        a.no_duplicates(),
        b.no_duplicates(),
        forall|x: A| a.contains(x) <==> b.contains(x),
    ensures
        a.to_multiset() == b.to_multiset(),
{
    assert forall|x: A| a.to_multiset().count(x) == b.to_multiset().count(x) by {
        lemma_count_without_duplicates(a, x);
        lemma_count_without_duplicates(b, x);
    }
    assert(a.to_multiset() =~= b.to_multiset());
}

/// After a warm load of a snapshot that has one record per tile, reading
/// every ownership back gives the same multiset of records as the snapshot.
pub proof fn lemma_warm_load_round_trip(snapshot: Seq<Ownership>, listed: Seq<Ownership>)
    requires
        distinct_tiles(snapshot),
        lists_exactly(warm_owners(snapshot), listed),
    ensures
        records(listed).to_multiset() == records(snapshot).to_multiset(),
{
    lemma_warm_owners_of_distinct(snapshot);
    let f = warm_owners(snapshot);
    let a = records(listed);
    let b = records(snapshot);
    assert forall|i: int, j: int| 0 <= i < a.len() && 0 <= j < a.len() && i != j implies a[i] != a[j] by {
        if i < j {
            assert(listed[i].tile_id != listed[j].tile_id);
        } else {
            assert(listed[j].tile_id != listed[i].tile_id);
        }
    }
    assert forall|i: int, j: int| 0 <= i < b.len() && 0 <= j < b.len() && i != j implies b[i] != b[j] by {
        if i < j {
            assert(snapshot[i].tile_id != snapshot[j].tile_id);
        } else {
            assert(snapshot[j].tile_id != snapshot[i].tile_id);
        }
    }
    assert forall|x: (u32, Seq<char>, u64)| a.contains(x) <==> b.contains(x) by {
        if a.contains(x) {
            let i = choose|i: int| 0 <= i < a.len() && a[i] == x;
            assert(f.contains_key(listed[i].tile_id));
            let j = choose|j: int| 0 <= j < snapshot.len() && snapshot[j].tile_id == listed[i].tile_id;
            assert(b[j] == x);
        }
        if b.contains(x) {
            let j = choose|j: int| 0 <= j < b.len() && b[j] == x;
            assert(f.contains_key(snapshot[j].tile_id));
            let i = choose|i: int| 0 <= i < listed.len() && listed[i].tile_id == snapshot[j].tile_id;
            assert(a[i] == x);
        }
    }
    lemma_same_elements_same_multiset(a, b);
}

/// A read of the range `[start, end]` gives exactly the records of a full
/// read whose tile lies in the range.
pub proof fn lemma_range_read_is_filtered_full_read(
    f: Owners,
    start: u32,
    end: u32,
    all: Seq<Ownership>,
    part: Seq<Ownership>,
)
    requires
        lists_exactly(f, all),
        lists_exactly(in_range(f, start, end), part),
    ensures
        records(part).to_set() == records(all).to_set().filter(
            |o: (u32, Seq<char>, u64)| start <= o.0 <= end,
        ),
{
    let a = records(all);
    let p = records(part);
    assert forall|x: (u32, Seq<char>, u64)| p.to_set().contains(x) <==> a.to_set().filter(
        |o: (u32, Seq<char>, u64)| start <= o.0 <= end,
    ).contains(x) by {
        if p.contains(x) {
            let i = choose|i: int| 0 <= i < p.len() && p[i] == x;
            assert(in_range(f, start, end).contains_key(part[i].tile_id));
            let j = choose|j: int| 0 <= j < all.len() && all[j].tile_id == part[i].tile_id;
            assert(a[j] == x);
        }
        if a.contains(x) && start <= x.0 <= end {
            let j = choose|j: int| 0 <= j < a.len() && a[j] == x;
            assert(in_range(f, start, end).contains_key(all[j].tile_id));
            let i = choose|i: int| 0 <= i < part.len() && part[i].tile_id == all[j].tile_id;
            assert(p[i] == x);
        }
    }
    assert(p.to_set() =~= a.to_set().filter(|o: (u32, Seq<char>, u64)| start <= o.0 <= end));
}

/// The in-memory index that serves all reads: tile to owner, and country to
/// the tiles it owns.
pub struct PapayaClickRepository {
    tiles: TileMap,
    country_tiles: CountryTileMap,
}

impl PapayaClickRepository {
    /// The forward map.
    pub closed spec fn owners(&self) -> Owners {
        tile_entries(self.tiles)
    }

    /// The reverse map.
    pub closed spec fn holdings(&self) -> Holdings {
        country_entries(self.country_tiles)
    }

    /// An empty index.
    pub fn new() -> (r: Self)
        ensures
            r.owners() == Map::<u32, (Seq<char>, u64)>::empty(),
            r.holdings() == Map::<Seq<char>, Set<u32>>::empty(),
    {
        let r = PapayaClickRepository { tiles: new_tile_map(), country_tiles: new_country_map() };
        assert(r.owners() =~= Map::<u32, (Seq<char>, u64)>::empty());
        assert(r.holdings() =~= Map::<Seq<char>, Set<u32>>::empty());
        r
    }

    /// Builds the index from a snapshot of the cold store, record by record:
    /// each record is saved as a click and then indexed under its country.
    /// With one record per tile and no empty country id, the two maps agree
    /// afterwards.
    pub fn populate_with(state: &OwnershipState) -> (r: Self)
        ensures
            r.owners() == warm_owners(state.ownerships@),
            r.holdings() == warm_holdings(state.ownerships@),
            distinct_tiles(state.ownerships@) && (forall|i: int|
                0 <= i < state.ownerships@.len() ==> (#[trigger] state.ownerships@[i]).country_id@.len()
                    > 0) ==> consistent(r.owners(), r.holdings()),
    {
        let ghost s = state.ownerships@;
        let ghost good = distinct_tiles(s) && (forall|i: int|
            0 <= i < s.len() ==> (#[trigger] s[i]).country_id@.len() > 0);
        let mut index = PapayaClickRepository::new();
        let mut i: usize = 0;
        proof {
            assert(s.subrange(0, 0) =~= Seq::<Ownership>::empty());
            assert(index.owners() =~= warm_owners(s.subrange(0, 0)));
            assert(index.holdings() =~= warm_holdings(s.subrange(0, 0)));
        }
        while i < state.ownerships.len()
            invariant
                i <= s.len(),
                s == state.ownerships@,
                index.owners() == warm_owners(s.subrange(0, i as int)),
                index.holdings() == warm_holdings(s.subrange(0, i as int)),
                good == (distinct_tiles(s) && (forall|i: int|
                    0 <= i < s.len() ==> (#[trigger] s[i]).country_id@.len() > 0)),
                good ==> consistent(index.owners(), index.holdings()),
                good ==> forall|t: u32|
                    index.owners().contains_key(t) ==> exists|k: int| 0 <= k < i && s[k].tile_id == t,
            decreases s.len() - i,
        {
            let o = &state.ownerships[i];
            let click = Click {
                tile_id: o.tile_id as i32,
                country_id: o.country_id.clone(),
                timestamp_ns: o.timestamp_ns,
                click_id: String::new(),
            };
            let ghost f = index.owners();
            let ghost r = index.holdings();
            let _ = index.save_click(o.tile_id, &click);
            index.update_country_index(o.tile_id, o.country_id.as_str(), None);
            proof {
                let pre = s.subrange(0, i as int);
                let next = s.subrange(0, i + 1);
                assert(next.drop_last() =~= pre);
                assert(next.last() == s[i as int]);
                if good {
                    assert(!f.contains_key(o.tile_id)) by {
                        if f.contains_key(o.tile_id) {
                            let k = choose|k: int| 0 <= k < i && s[k].tile_id == o.tile_id;
                            assert(s[k].tile_id != s[i as int].tile_id);
                        }
                    }
                    assert(s[i as int].country_id@.len() > 0);
                    lemma_move_keeps_consistent(f, r, o.tile_id, o.country_id@, o.timestamp_ns);
                    assert forall|t: u32| index.owners().contains_key(t) implies exists|k: int|
                        0 <= k < i + 1 && s[k].tile_id == t by {
                        if t != o.tile_id {
                            assert(f.contains_key(t));
                        } else {
                            assert(s[i as int].tile_id == t);
                        }
                    }
                }
            }
            i = i + 1;
        }
        proof {
            assert(s.subrange(0, s.len() as int) =~= s);
        }
        index
    }

    /// The current owner of a tile, if any.
    pub fn get_tile(&self, tile_id: u32) -> (r: Result<Option<Ownership>, ClickRepositoryError>)
        ensures
            r matches Ok(o) && opt_view(o) == ownership_of(self.owners(), tile_id),
    {
        match tile_map_get(&self.tiles, tile_id) {
            Some(d) => Ok(
                Some(Ownership { tile_id, country_id: d.country_id, timestamp_ns: d.timestamp_ns }),
            ),
            None => Ok(None),
        }
    }

    /// Every ownership in the index, each tile once.
    pub fn get_ownerships(&self) -> (r: Result<OwnershipState, ClickRepositoryError>)
        ensures
            r matches Ok(s) && lists_exactly(self.owners(), s.ownerships@),
    {
        let s = self.get_ownerships_by_batch(0, u32::MAX);
        proof {
            assert(in_range(self.owners(), 0, u32::MAX) =~= self.owners());
        }
        s
    }

    /// The ownerships of the tiles in `[start_tile_id, end_tile_id]`, each once.
    #[verifier::rlimit(30)]
    pub fn get_ownerships_by_batch(&self, start_tile_id: u32, end_tile_id: u32) -> (r: Result<
        OwnershipState,
        ClickRepositoryError,
    >)
        ensures
            r matches Ok(s) && lists_exactly(
                in_range(self.owners(), start_tile_id, end_tile_id),
                s.ownerships@,
            ),
    {
        let entries = tile_map_entries(&self.tiles);
        let ghost f = self.owners();
        let ghost g = in_range(f, start_tile_id, end_tile_id);
        let mut ownerships: Vec<Ownership> = Vec::new();
        let mut i: usize = 0;
        while i < entries.len()
            invariant
                i <= entries.len(),
                g == in_range(f, start_tile_id, end_tile_id),
                f == self.owners(),
                forall|k: int|
                    0 <= k < entries.len() ==> f.contains_key(#[trigger] entries[k].0) && f[entries[k].0]
                        == (entries[k].1.country_id@, entries[k].1.timestamp_ns),
                forall|k: int, l: int| 0 <= k < l < entries.len() ==> entries[k].0 != entries[l].0,
                forall|k: int|
                    0 <= k < ownerships.len() ==> g.contains_key(#[trigger] ownerships[k].tile_id)
                        && g[ownerships[k].tile_id] == (
                        ownerships[k].country_id@,
                        ownerships[k].timestamp_ns,
                    ),
                forall|k: int|
                    0 <= k < ownerships.len() ==> exists|l: int|
                        0 <= l < i && entries[l].0 == #[trigger] ownerships[k].tile_id,
                forall|k: int, l: int|
                    0 <= k < l < ownerships.len() ==> ownerships[k].tile_id != ownerships[l].tile_id,
                forall|l: int|
                    0 <= l < i && start_tile_id <= #[trigger] entries[l].0 <= end_tile_id
                        ==> exists|k: int| 0 <= k < ownerships.len() && ownerships[k].tile_id == entries[l].0,
            decreases entries.len() - i,
        {
            let t = entries[i].0;
            if start_tile_id <= t && t <= end_tile_id {
                let country_id = entries[i].1.country_id.clone();
                let timestamp_ns = entries[i].1.timestamp_ns;
                let ghost before = ownerships@;
                ownerships.push(Ownership { tile_id: t, country_id, timestamp_ns });
                proof {
                    assert forall|k: int| 0 <= k < ownerships.len() implies exists|l: int|
                        0 <= l < i + 1 && entries[l].0 == #[trigger] ownerships[k].tile_id by {
                        if k < before.len() {
                            assert(before[k] == ownerships[k]);
                        } else {
                            assert(entries[i as int].0 == ownerships[k].tile_id);
                        }
                    }
                    assert forall|k: int, l: int|
                        0 <= k < l < ownerships.len() implies ownerships[k].tile_id
                        != ownerships[l].tile_id by {
                        if l == before.len() {
                            assert(before[k] == ownerships[k]);
                            let m = choose|m: int|
                                0 <= m < i && entries[m].0 == #[trigger] before[k].tile_id;
                            assert(entries[m].0 != entries[i as int].0);
                        } else {
                            assert(before[k] == ownerships[k]);
                            assert(before[l] == ownerships[l]);
                        }
                    }
                    assert forall|l: int|
                        0 <= l < i + 1 && start_tile_id <= #[trigger] entries[l].0 <= end_tile_id
                            implies exists|k: int|
                        0 <= k < ownerships.len() && ownerships[k].tile_id == entries[l].0 by {
                        if l < i {
                            let k = choose|k: int|
                                0 <= k < before.len() && before[k].tile_id == entries[l].0;
                            assert(ownerships[k] == before[k]);
                        } else {
                            assert(ownerships[before.len() as int].tile_id == entries[l].0);
                        }
                    }
                }
            }
            i = i + 1;
        }
        proof {
            assert forall|t: u32| g.contains_key(t) implies exists|k: int|
                0 <= k < ownerships.len() && ownerships[k].tile_id == t by {
                assert(f.contains_key(t));
                let l = choose|l: int| 0 <= l < entries.len() && entries[l].0 == t;
                assert(start_tile_id <= entries[l].0 <= end_tile_id);
            }
        }
        Ok(OwnershipState { ownerships })
    }

    /// Records a click on `tile_id` under the last-writer-wins rule: the click
    /// replaces the stored owner only when the tile is unowned or the stored
    /// timestamp is strictly older. Returns the owner from before the call in
    /// both cases. The reverse map is not touched.
    pub fn save_click(&mut self, tile_id: u32, click: &Click) -> (r: Result<
        Option<Ownership>,
        ClickRepositoryError,
    >)
        ensures
            r matches Ok(p) && opt_view(p) == ownership_of(old(self).owners(), tile_id),
            final(self).owners() == lww_save(
                old(self).owners(),
                tile_id,
                click.country_id@,
                click.timestamp_ns,
            ),
            final(self).holdings() == old(self).holdings(),
    {
        let current = tile_map_get(&self.tiles, tile_id);
        match current {
            Some(d) => {
                let previous = Ownership {
                    tile_id,
                    country_id: d.country_id,
                    timestamp_ns: d.timestamp_ns,
                };
                if click.timestamp_ns <= d.timestamp_ns {
                    return Ok(Some(previous));
                }
                tile_map_insert(
                    &mut self.tiles,
                    tile_id,
                    TileData { country_id: click.country_id.clone(), timestamp_ns: click.timestamp_ns },
                );
                Ok(Some(previous))
            },
            None => {
                tile_map_insert(
                    &mut self.tiles,
                    tile_id,
                    TileData { country_id: click.country_id.clone(), timestamp_ns: click.timestamp_ns },
                );
                Ok(None)
            },
        }
    }

    /// Moves `tile_id` in the reverse map: out of `old_country` (when given and
    /// not empty; a set left empty is dropped with its key), then into
    /// `new_country`. The forward map is not touched.
    pub fn update_country_index(&mut self, tile_id: u32, new_country: &str, old_country: Option<&str>)
        ensures
            final(self).holdings() == reindexed(
                old(self).holdings(),
                tile_id,
                new_country@,
                opt_str_view(old_country),
            ),
            final(self).owners() == old(self).owners(),
    {
        if let Some(old_name) = old_country {
            if old_name.unicode_len() > 0 {
                match country_map_get(&self.country_tiles, old_name) {
                    Some(set) => {
                        let mut set = set;
                        set.remove(&tile_id);
                        if set.is_empty() {
                            country_map_remove(&mut self.country_tiles, old_name);
                        } else {
                            country_map_insert(&mut self.country_tiles, String::from_str(old_name), set);
                        }
                    },
                    None => {},
                }
            }
        }
        let ghost mid = self.holdings();
        match country_map_get(&self.country_tiles, new_country) {
            Some(set) => {
                let mut set = set;
                set.insert(tile_id);
                country_map_insert(&mut self.country_tiles, String::from_str(new_country), set);
            },
            None => {
                let mut set: HashSet<u32> = HashSet::new();
                set.insert(tile_id);
                country_map_insert(&mut self.country_tiles, String::from_str(new_country), set);
            },
        }
        proof {
            assert(self.holdings() =~= with_tile(mid, new_country@, tile_id));
        }
    }

    /// The number of tiles `country_id` owns according to the reverse map.
    pub fn get_score(&self, country_id: &str) -> (r: Result<u32, LeaderboardError>)
        ensures
            r matches Ok(n) && n == country_score(self.holdings(), country_id@),
    {
        match country_map_get(&self.country_tiles, country_id) {
            Some(set) => Ok(score_len(set.len())),
            None => Ok(0),
        }
    }

    /// Every country with a positive score, once each, with its score.
    #[verifier::rlimit(30)]
    pub fn leaderboard(&self) -> (r: Result<Vec<LeaderboardEntry>, LeaderboardError>)
        ensures
            r matches Ok(v) && lists_scores(self.holdings(), v@),
    {
        let entries = country_map_entries(&self.country_tiles);
        let ghost h = self.holdings();
        let mut out: Vec<LeaderboardEntry> = Vec::new();
        let mut i: usize = 0;
        while i < entries.len()
            invariant
                i <= entries.len(),
                h == self.holdings(),
                forall|k: int|
                    0 <= k < entries.len() ==> h.contains_key(#[trigger] entries[k].0@)
                        && h[entries[k].0@] == entries[k].1@,
                forall|k: int, l: int| 0 <= k < l < entries.len() ==> entries[k].0@ != entries[l].0@,
                forall|k: int|
                    0 <= k < out.len() ==> h.contains_key(#[trigger] out[k].country_id@) && out[k].score
                        == score_of(h[out[k].country_id@]) && out[k].score > 0,
                forall|k: int|
                    0 <= k < out.len() ==> exists|l: int|
                        0 <= l < i && entries[l].0@ == #[trigger] out[k].country_id@,
                forall|k: int, l: int|
                    0 <= k < l < out.len() ==> out[k].country_id@ != out[l].country_id@,
                forall|l: int|
                    0 <= l < i && score_of(#[trigger] entries[l].1@) > 0 ==> exists|k: int|
                        0 <= k < out.len() && out[k].country_id@ == entries[l].0@,
            decreases entries.len() - i,
        {
            let score = score_len(entries[i].1.len());
            if score > 0 {
                let ghost before = out@;
                out.push(LeaderboardEntry { country_id: entries[i].0.clone(), score });
                proof {
                    assert forall|k: int| 0 <= k < out.len() implies exists|l: int|
                        0 <= l < i + 1 && entries[l].0@ == #[trigger] out[k].country_id@ by {
                        if k < before.len() {
                            assert(before[k] == out[k]);
                        } else {
                            assert(entries[i as int].0@ == out[k].country_id@);
                        }
                    }
                    assert forall|k: int, l: int|
                        0 <= k < l < out.len() implies out[k].country_id@ != out[l].country_id@ by {
                        assert(before[k] == out[k]);
                        if l == before.len() {
                            let m = choose|m: int|
                                0 <= m < i && entries[m].0@ == #[trigger] before[k].country_id@;
                            assert(entries[m].0@ != entries[i as int].0@);
                        } else {
                            assert(before[l] == out[l]);
                        }
                    }
                    assert forall|l: int|
                        0 <= l < i + 1 && score_of(#[trigger] entries[l].1@) > 0 implies exists|k: int|
                        0 <= k < out.len() && out[k].country_id@ == entries[l].0@ by {
                        if l < i {
                            let k = choose|k: int|
                                0 <= k < before.len() && before[k].country_id@ == entries[l].0@;
                            assert(out[k] == before[k]);
                        } else {
                            assert(out[before.len() as int].country_id@ == entries[l].0@);
                        }
                    }
                }
            }
            i = i + 1;
        }
        proof {
            assert forall|c: Seq<char>| h.contains_key(c) && score_of(h[c]) > 0 implies exists|k: int|
                0 <= k < out.len() && out[k].country_id@ == c by {
                let l = choose|l: int| 0 <= l < entries.len() && entries[l].0@ == c;
                assert(score_of(entries[l].1@) > 0);
            }
        }
        Ok(out)
    }
}

/// A source of country scores.
pub trait LeaderboardRepository {
    /// The score of one country.
    fn get_score(&self, country_id: &str) -> Result<u32, LeaderboardError>;

    /// Every country with a positive score, with its score.
    fn leaderboard(&self) -> Result<Vec<LeaderboardEntry>, LeaderboardError>;
}

impl LeaderboardRepository for PapayaClickRepository {
    fn get_score(&self, country_id: &str) -> Result<u32, LeaderboardError> {
        PapayaClickRepository::get_score(self, country_id)
    }

    fn leaderboard(&self) -> Result<Vec<LeaderboardEntry>, LeaderboardError> {
        PapayaClickRepository::leaderboard(self)
    }
}

/// A set size as a score, capped at the largest `u32`.
fn score_len(n: usize) -> (r: u32)
    ensures
        r == (if n > u32::MAX { u32::MAX } else { n as u32 }),
{
    if n > u32::MAX as usize {
        u32::MAX
    } else {
        n as u32
    }
}

} // verus!
