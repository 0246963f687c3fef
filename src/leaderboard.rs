//! The leaderboard: ordering by score, and the format a client asked for.
use vstd::prelude::*;
use crate::hot_index::{
    lists_exactly, owned_tiles, score_of, LeaderboardRepository, Owners, PapayaClickRepository,
};
use crate::model::{LeaderboardEntry, LeaderboardError, Ownership};

verus! {

broadcast use vstd::seq_lib::group_to_multiset_ensures;

/// Scores never increase along `v`.
pub open spec fn sorted_by_score(v: Seq<LeaderboardEntry>) -> bool {
    forall|i: int, j: int| 0 <= i < j < v.len() ==> v[i].score >= v[j].score
}

/// Orders leaderboard entries by score, best first; entries with equal
/// scores keep their order.
pub fn sort_by_score(entries: Vec<LeaderboardEntry>) -> (r: Vec<LeaderboardEntry>)
    ensures
        sorted_by_score(r@),
        r@.to_multiset() == entries@.to_multiset(),
{
    let mut out: Vec<LeaderboardEntry> = Vec::new();
    let mut i: usize = 0;
    while i < entries.len()
        invariant
            i <= entries.len(),
            sorted_by_score(out@),
            out@.to_multiset() == entries@.subrange(0, i as int).to_multiset(),
        decreases entries.len() - i,
    {
        let entry = LeaderboardEntry {
            country_id: entries[i].country_id.clone(),
            score: entries[i].score,
        };
        assert(entry == entries@[i as int]);
        let mut p: usize = 0;
        while p < out.len() && out[p].score >= entry.score
            invariant
                p <= out.len(),
                forall|k: int| 0 <= k < p ==> out@[k].score >= entry.score,
            decreases out.len() - p,
        {
            p = p + 1;
        }
        let ghost before = out@;
        out.insert(p, entry);
        proof {
            assert(out@ == before.insert(p as int, entry));
            assert forall|a: int, b: int| 0 <= a < b < out@.len() implies out@[a].score >= out@[b].score by {
                if b < p {
                } else if b == p {
                } else if a < p {
                    assert(before[a].score >= entry.score);
                    assert(entry.score > before[p as int].score || p == before.len());
                    assert(before[a].score >= before[b - 1].score);
                } else if a == p {
                    assert(entry.score > before[p as int].score);
                    assert(before[p as int].score >= before[b - 1].score);
                } else {
                    assert(before[a - 1].score >= before[b - 1].score);
                }
            }
            assert(entries@.subrange(0, i + 1) == entries@.subrange(0, i as int).push(entries@[i as int]));
        }
        i = i + 1;
    }
    proof {
        assert(entries@.subrange(0, entries.len() as int) =~= entries@);
    }
    out
}

/// Each country of `v` is listed once, with the number of tiles it owns in
/// `f`, which is positive; every country that owns a tile is listed.
pub open spec fn lists_owner_counts(f: Owners, v: Seq<LeaderboardEntry>) -> bool {
    &&& forall|i: int|
        0 <= i < v.len() ==> #[trigger] v[i].score == score_of(owned_tiles(f, v[i].country_id@))
            && owned_tiles(f, v[i].country_id@) != Set::<u32>::empty()
    &&& forall|i: int, j: int| 0 <= i < j < v.len() ==> v[i].country_id@ != v[j].country_id@
    &&& forall|t: u32| #[trigger] f.contains_key(t) ==> exists|i: int| 0 <= i < v.len() && v[i].country_id@ == f[t].0
}

/// The tiles of the records before `i` in `s` whose country is `c`.
pub open spec fn tiles_seen(s: Seq<Ownership>, i: int, c: Seq<char>) -> Set<u32> {
    Set::new(|t: u32| exists|j: int| 0 <= j < i && s[j].tile_id == t && s[j].country_id@ == c)
}

fn capped_increment(n: u32) -> (r: u32)
    ensures
        r == (if n == u32::MAX { u32::MAX } else { (n + 1) as u32 }),
{
    if n == u32::MAX {
        n
    } else {
        n + 1
    }
}

/// A leaderboard derived from the forward map alone: a country's score is the
/// number of tiles it owns there.
pub struct LeaderboardOnClicks(pub PapayaClickRepository);

impl LeaderboardOnClicks {
    /// The number of tiles `country_id` owns.
    pub fn get_score(&self, country_id: &str) -> (r: Result<u32, LeaderboardError>)
        ensures
            r matches Ok(n) && n == score_of(owned_tiles(self.0.owners(), country_id@)),
    {
        let state = match self.0.get_ownerships() {
            Ok(s) => s,
            Err(_) => return Err(LeaderboardError::StorageError(String::from_str("cannot read ownerships"))),
        };
        let ghost f = self.0.owners();
        let listed = &state.ownerships;
        let target = String::from_str(country_id);
        let mut count: u32 = 0;
        let ghost mut seen: Seq<u32> = Seq::empty();
        let mut i: usize = 0;
        while i < listed.len()
            invariant
                i <= listed.len(),
                lists_exactly(f, listed@),
                target@ == country_id@,
                seen.no_duplicates(),
                seen.to_set() == tiles_seen(listed@, i as int, country_id@),
                count == (if seen.len() > u32::MAX { u32::MAX as int } else { seen.len() as int }),
            decreases listed.len() - i,
        {
            if listed[i].country_id == target {
                proof {
                    assert(!seen.contains(listed@[i as int].tile_id)) by {
                        if seen.contains(listed@[i as int].tile_id) {
                            assert(seen.to_set().contains(listed@[i as int].tile_id));
                            let j = choose|j: int| 0 <= j < i && listed@[j].tile_id == listed@[i as int].tile_id && listed@[j].country_id@ == country_id@;
                        }
                    }
                    let old_seen = seen;
                    seen = seen.push(listed@[i as int].tile_id);
                    assert(seen.drop_last() == old_seen);
                    assert(seen.to_set() =~= tiles_seen(listed@, i + 1, country_id@)) by {
                        assert forall|t: u32| tiles_seen(listed@, i + 1, country_id@).contains(t) implies seen.to_set().contains(t) by {
                            let j = choose|j: int| 0 <= j < i + 1 && listed@[j].tile_id == t && listed@[j].country_id@ == country_id@;
                            if j < i {
                                assert(tiles_seen(listed@, i as int, country_id@).contains(t));
                                assert(old_seen.to_set().contains(t));
                                let k = choose|k: int| 0 <= k < old_seen.len() && old_seen[k] == t;
                                assert(seen[k] == t);
                            } else {
                                assert(seen[seen.len() - 1] == t);
                            }
                        }
                        assert forall|t: u32| seen.to_set().contains(t) implies tiles_seen(listed@, i + 1, country_id@).contains(t) by {
                            let k = choose|k: int| 0 <= k < seen.len() && seen[k] == t;
                            if k < seen.len() - 1 {
                                assert(seen.drop_last()[k] == t);
                                assert(seen.drop_last().to_set().contains(t));
                            }
                        }
                    }
                }
                count = capped_increment(count);
            } else {
                proof {
                    assert(seen.to_set() =~= tiles_seen(listed@, i + 1, country_id@)) by {
                        assert forall|t: u32| tiles_seen(listed@, i + 1, country_id@).contains(t) implies seen.to_set().contains(t) by {
                            let j = choose|j: int| 0 <= j < i + 1 && listed@[j].tile_id == t && listed@[j].country_id@ == country_id@;
                            assert(j < i);
                            assert(tiles_seen(listed@, i as int, country_id@).contains(t));
                        }
                    }
                }
            }
            i = i + 1;
        }
        proof {
            seen.unique_seq_to_set();
            assert(tiles_seen(listed@, listed@.len() as int, country_id@) =~= owned_tiles(f, country_id@)) by {
                assert forall|t: u32| owned_tiles(f, country_id@).contains(t) implies tiles_seen(listed@, listed@.len() as int, country_id@).contains(t) by {
                    let j = choose|j: int| 0 <= j < listed@.len() && listed@[j].tile_id == t;
                }
            }
        }
        Ok(count)
    }

    /// Every country that owns a tile, once each, with the number of tiles it
    /// owns.
    #[verifier::rlimit(60)]
    pub fn leaderboard(&self) -> (r: Result<Vec<LeaderboardEntry>, LeaderboardError>)
        ensures
            r matches Ok(v) && lists_owner_counts(self.0.owners(), v@),
    {
        let state = match self.0.get_ownerships() {
            Ok(s) => s,
            Err(_) => return Err(LeaderboardError::StorageError(String::from_str("cannot read ownerships"))),
        };
        let ghost f = self.0.owners();
        let listed = &state.ownerships;
        let mut out: Vec<LeaderboardEntry> = Vec::new();
        let ghost mut tiles: Seq<Seq<u32>> = Seq::empty();
        let mut i: usize = 0;
        while i < listed.len()
            invariant
                i <= listed.len(),
                lists_exactly(f, listed@),
                out.len() == tiles.len(),
                forall|k: int|
                    0 <= k < out.len() ==> (#[trigger] tiles[k]).no_duplicates() && tiles[k].len() > 0
                        && out[k].score == (if tiles[k].len() > u32::MAX {
                        u32::MAX as int
                    } else {
                        tiles[k].len() as int
                    }) && tiles[k].to_set() == tiles_seen(listed@, i as int, out[k].country_id@),
                forall|k: int, l: int| 0 <= k < l < out.len() ==> out[k].country_id@ != out[l].country_id@,
                forall|j: int|
                    0 <= j < i ==> exists|k: int|
                        0 <= k < out.len() && out[k].country_id@ == (#[trigger] listed@[j]).country_id@,
            decreases listed.len() - i,
        {
            let ghost t = listed@[i as int].tile_id;
            let ghost c = listed@[i as int].country_id@;
            let mut k: usize = 0;
            while k < out.len() && out[k].country_id != listed[i].country_id
                invariant
                    k <= out.len(),
                    i < listed.len(),
                    forall|m: int| 0 <= m < k ==> out[m].country_id@ != listed@[i as int].country_id@,
                decreases out.len() - k,
            {
                k = k + 1;
            }
            let ghost old_out = out@;
            let ghost old_tiles = tiles;
            proof {
                assert forall|m: int, u: u32| 0 <= m < old_out.len() && #[trigger] old_tiles[m].contains(u) implies u != t by {
                    assert(old_tiles[m].to_set().contains(u));
                    let j = choose|j: int| 0 <= j < i && listed@[j].tile_id == u && listed@[j].country_id@ == old_out[m].country_id@;
                }
            }
            if k < out.len() {
                let score = capped_increment(out[k].score);
                out[k].score = score;
                proof {
                    tiles = tiles.update(k as int, tiles[k as int].push(t));
                }
            } else {
                out.push(LeaderboardEntry { country_id: listed[i].country_id.clone(), score: 1 });
                proof {
                    tiles = tiles.push(seq![t]);
                }
            }
            proof {
                assert forall|m: int| 0 <= m < out.len() implies (#[trigger] tiles[m]).no_duplicates() && tiles[m].len() > 0
                    && out[m].score == (if tiles[m].len() > u32::MAX {
                    u32::MAX as int
                } else {
                    tiles[m].len() as int
                }) && tiles[m].to_set() == tiles_seen(listed@, i + 1, out[m].country_id@) by {
                    let cm = out[m].country_id@;
                    if m == k {
                        if m < old_out.len() {
                            assert(tiles[m] == old_tiles[m].push(t));
                            assert(!old_tiles[m].contains(t)) by {
                                if old_tiles[m].contains(t) {
                                }
                            }
                        }
                        assert(cm == c);
                        assert forall|u: u32| tiles[m].to_set().contains(u) <==> tiles_seen(listed@, i + 1, cm).contains(u) by {
                            if tiles_seen(listed@, i + 1, cm).contains(u) {
                                let j = choose|j: int| 0 <= j < i + 1 && listed@[j].tile_id == u && listed@[j].country_id@ == cm;
                                if j < i {
                                    assert(tiles_seen(listed@, i as int, cm).contains(u));
                                    assert(m < old_out.len());
                                    assert(old_tiles[m].to_set().contains(u));
                                    let q = choose|q: int| 0 <= q < old_tiles[m].len() && old_tiles[m][q] == u;
                                    assert(tiles[m][q] == u);
                                } else {
                                    assert(tiles[m][tiles[m].len() - 1] == u);
                                }
                            }
                            if tiles[m].to_set().contains(u) {
                                let q = choose|q: int| 0 <= q < tiles[m].len() && tiles[m][q] == u;
                                if q < tiles[m].len() - 1 {
                                    assert(m < old_out.len());
                                    assert(old_tiles[m][q] == u);
                                    assert(old_tiles[m].to_set().contains(u));
                                } else {
                                    assert(u == t);
                                }
                            }
                        }
                        assert(tiles[m].to_set() =~= tiles_seen(listed@, i + 1, cm));
                    } else {
                        assert(old_out[m] == out[m]);
                        assert(tiles[m] == old_tiles[m]);
                        assert(cm != c);
                        assert(tiles_seen(listed@, i + 1, cm) =~= tiles_seen(listed@, i as int, cm));
                    }
                }
                assert forall|a: int, b: int| 0 <= a < b < out.len() implies out[a].country_id@ != out[b].country_id@ by {
                    if b == old_out.len() {
                        assert(old_out[a] == out[a]);
                    } else {
                        assert(old_out[a].country_id@ == out[a].country_id@);
                        assert(old_out[b].country_id@ == out[b].country_id@);
                    }
                }
                assert forall|j: int| 0 <= j < i + 1 implies exists|q: int|
                    0 <= q < out.len() && out[q].country_id@ == (#[trigger] listed@[j]).country_id@ by {
                    if j < i {
                        let q = choose|q: int| 0 <= q < old_out.len() && old_out[q].country_id@ == listed@[j].country_id@;
                        assert(out[q].country_id@ == old_out[q].country_id@);
                    } else {
                        assert(out[k as int].country_id@ == c);
                    }
                }
            }
            i = i + 1;
        }
        proof {
            assert forall|k: int| 0 <= k < out.len() implies #[trigger] out[k].score == score_of(owned_tiles(f, out[k].country_id@))
                && owned_tiles(f, out[k].country_id@) != Set::<u32>::empty() by {
                let c = out[k].country_id@;
                tiles[k].unique_seq_to_set();
                assert(tiles_seen(listed@, listed@.len() as int, c) =~= owned_tiles(f, c)) by {
                    assert forall|u: u32| owned_tiles(f, c).contains(u) implies tiles_seen(listed@, listed@.len() as int, c).contains(u) by {
                        let j = choose|j: int| 0 <= j < listed@.len() && listed@[j].tile_id == u;
                    }
                }
                assert(tiles[k].to_set().contains(tiles[k][0]));
            }
            assert forall|u: u32| #[trigger] f.contains_key(u) implies exists|q: int| 0 <= q < out.len() && out[q].country_id@ == f[u].0 by {
                let j = choose|j: int| 0 <= j < listed@.len() && listed@[j].tile_id == u;
                let q = choose|q: int| 0 <= q < out.len() && out[q].country_id@ == listed@[j].country_id@;
            }
        }
        Ok(out)
    }
}

impl LeaderboardRepository for LeaderboardOnClicks {
    fn get_score(&self, country_id: &str) -> Result<u32, LeaderboardError> {
        LeaderboardOnClicks::get_score(self, country_id)
    }

    fn leaderboard(&self) -> Result<Vec<LeaderboardEntry>, LeaderboardError> {
        LeaderboardOnClicks::leaderboard(self)
    }
}

/// The formats the leaderboard is served in.
pub enum AcceptedFormat {
    Protobuf,
    Json,
}

/// The media type that selects the binary format.
pub open spec fn protobuf_media_type() -> Seq<char> {
    seq!['a', 'p', 'p', 'l', 'i', 'c', 'a', 't', 'i', 'o', 'n', '/', 'p', 'r', 'o', 't', 'o', 'b', 'u', 'f']
}

/// `pat` occurs in `s` at `i`.
pub open spec fn occurs_at(s: Seq<char>, pat: Seq<char>, i: int) -> bool {
    0 <= i && i + pat.len() <= s.len() && s.subrange(i, i + pat.len()) == pat
}

/// `pat` occurs somewhere in `s`.
pub open spec fn contains_text(s: Seq<char>, pat: Seq<char>) -> bool {
    exists|i: int| occurs_at(s, pat, i)
}

fn occurs_at_exec(s: &str, n: usize, pat: &str, m: usize, i: usize) -> (r: bool)
    requires
        n == s@.len(),
        m == pat@.len(),
        i + m <= n,
    ensures
        r == occurs_at(s@, pat@, i as int),
{
    let mut k: usize = 0;
    while k < m
        invariant
            k <= m,
            n == s@.len(),
            m == pat@.len(),
            i + m <= n,
            forall|j: int| 0 <= j < k ==> s@[i + j] == pat@[j],
        decreases m - k,
    {
        if s.get_char(i + k) != pat.get_char(k) {
            proof {
                assert(s@.subrange(i as int, i + m)[k as int] != pat@[k as int]);
            }
            return false;
        }
        k = k + 1;
    }
    proof {
        assert(s@.subrange(i as int, i + m) =~= pat@);
    }
    true
}

/// Whether `pat` occurs in `s`.
pub fn contains_str(s: &str, pat: &str) -> (r: bool)
    ensures
        r == contains_text(s@, pat@),
{
    let n = s.unicode_len();
    let m = pat.unicode_len();
    if m > n {
        return false;
    }
    if m == 0 {
        proof {
            assert(s@.subrange(0, 0) =~= pat@);
            assert(occurs_at(s@, pat@, 0));
        }
        return true;
    }
    let mut i: usize = 0;
    while i <= n - m
        invariant
            1 <= m <= n,
            n == s@.len(),
            m == pat@.len(),
            forall|j: int| 0 <= j < i ==> !occurs_at(s@, pat@, j),
        decreases n - m + 1 - i,
    {
        if occurs_at_exec(s, n, pat, m, i) {
            return true;
        }
        i = i + 1;
    }
    false
}

fn protobuf_text() -> (r: &'static str)
    ensures
        r@ == protobuf_media_type(),
{
    proof {
        reveal_strlit("application/protobuf");
    }
    "application/protobuf"
}

/// The format a request asks for: binary when its `Accept` header (if it has
/// one that reads as text) mentions `application/protobuf`, JSON otherwise.
pub fn accepted_format(accept: Option<&str>) -> (r: AcceptedFormat)
    ensures
        (r is Protobuf) == (accept matches Some(a) && contains_text(a@, protobuf_media_type())),
{
    match accept {
        Some(a) => if contains_str(a, protobuf_text()) {
            AcceptedFormat::Protobuf
        } else {
            AcceptedFormat::Json
        },
        None => AcceptedFormat::Json,
    }
}

} // verus!
