//! The record format of the cold store and the decisions around it. Each tile
//! is one member `"<country>:<timestamp>"` of a sorted collection whose score
//! is the tile id.
use vstd::prelude::*;
use crate::decimal::{decimal_text, lemma_parse_formatted_u64, parse_u64, parsed_u64, push_decimal};
use crate::model::{ownership_view, Click, ClickRepositoryError, Ownership, OwnershipState};

verus! {

/// The member that stores `country` at `ts`.
pub open spec fn member_text(country: Seq<char>, ts: u64) -> Seq<char> {
    country + seq![':'] + decimal_text(ts as nat)
}

/// `m` has exactly one `:`, at `k`.
pub open spec fn single_colon_at(m: Seq<char>, k: int) -> bool {
    &&& 0 <= k < m.len()
    &&& m[k] == ':'
    &&& forall|j: int| 0 <= j < m.len() && j != k ==> m[j] != ':'
}

/// The two sides of the single `:` of `m`; `None` when `m` has no `:` or more
/// than one.
pub open spec fn colon_split(m: Seq<char>) -> Option<(Seq<char>, Seq<char>)> {
    if exists|k: int| single_colon_at(m, k) {
        let k = choose|k: int| single_colon_at(m, k);
        Some((m.subrange(0, k), m.subrange(k + 1, m.len() as int)))
    } else {
        None
    }
}

/// The (country, timestamp) that a member holds, when it is well formed.
pub open spec fn member_fields(m: Seq<char>) -> Option<(Seq<char>, u64)> {
    match colon_split(m) {
        Some(parts) => match parsed_u64(parts.1) {
            Some(ts) => Some((parts.0, ts)),
            None => None,
        },
        None => None,
    }
}

/// A country written and read back through a member comes back unchanged,
/// with its timestamp, as long as it holds no `:`.
pub proof fn lemma_member_round_trip(country: Seq<char>, ts: u64)
    requires
        !country.contains(':'),
    ensures
        member_fields(member_text(country, ts)) == Some((country, ts)),
{
    let m = member_text(country, ts);
    let k = country.len() as int;
    crate::decimal::lemma_decimal_text_reads_back(ts as nat);
    lemma_parse_formatted_u64(ts);
    let digits = decimal_text(ts as nat);
    assert forall|j: int| 0 <= j < m.len() && j != k implies m[j] != ':' by {
        if j < k {
            assert(m[j] == country[j]);
        } else {
            assert(m[j] == digits[j - k - 1]);
            assert(crate::decimal::is_digit(digits[j - k - 1]));
        }
    }
    assert(single_colon_at(m, k));
    let c = choose|c: int| single_colon_at(m, c);
    assert(c == k);
    assert(m.subrange(0, k) =~= country);
    assert(m.subrange(k + 1, m.len() as int) =~= digits);
}

/// The member that stores `country` at `ts`.
pub fn member_of(country: &str, ts: u64) -> (r: String)
    ensures
        r@ == member_text(country@, ts),
{
    let mut out = String::from_str(country);
    proof {
        reveal_strlit(":");
    }
    out.append(":");
    push_decimal(&mut out, ts);
    out
}

/// Splits `m` at its single `:`; `None` when it has no `:` or more than one.
pub fn split_member(m: &str) -> (r: Option<(String, String)>)
    ensures
        match r {
            Some(p) => colon_split(m@) == Some((p.0@, p.1@)),
            None => colon_split(m@) == None::<(Seq<char>, Seq<char>)>,
        },
{
    let n = m.unicode_len();
    let mut count: usize = 0;
    let mut at: usize = 0;
    let mut i: usize = 0;
    while i < n
        invariant
            i <= n,
            n == m@.len(),
            count <= i,
            count == 0 ==> forall|j: int| 0 <= j < i ==> m@[j] != ':',
            count == 1 ==> at < i && m@[at as int] == ':' && forall|j: int|
                0 <= j < i && j != at ==> m@[j] != ':',
            count >= 2 ==> exists|a: int, b: int| 0 <= a < b < i && m@[a] == ':' && m@[b] == ':',
        decreases n - i,
    {
        if m.get_char(i) == ':' {
            if count == 0 {
                at = i;
            }
            if count < 2 {
                count = count + 1;
            }
        }
        i = i + 1;
    }
    if count == 1 {
        proof {
            assert(single_colon_at(m@, at as int));
            let k = choose|k: int| single_colon_at(m@, k);
            assert(k == at);
        }
        let left = m.substring_char(0, at);
        let right = m.substring_char(at + 1, n);
        Some((String::from_str(left), String::from_str(right)))
    } else {
        proof {
            if exists|k: int| single_colon_at(m@, k) {
                let k = choose|k: int| single_colon_at(m@, k);
                if count >= 2 {
                    let (a, b) = choose|a: int, b: int| 0 <= a < b < n && m@[a] == ':' && m@[b] == ':';
                    assert(a == k || b == k);
                }
            }
        }
        None
    }
}

/// Reads the (country, timestamp) of a member; `None` when it is malformed.
pub fn parse_member(m: &str) -> (r: Option<(String, u64)>)
    ensures
        match r {
            Some(p) => member_fields(m@) == Some((p.0@, p.1)),
            None => member_fields(m@) == None::<(Seq<char>, u64)>,
        },
{
    match split_member(m) {
        Some((country, ts_text)) => match parse_u64(ts_text.as_str()) {
            Some(ts) => Some((country, ts)),
            None => None,
        },
        None => None,
    }
}

/// The ownership of `tile_id` that a member stores, when it is well formed.
pub fn ownership_from_member(tile_id: u32, m: &str) -> (r: Option<Ownership>)
    ensures
        match r {
            Some(o) => member_fields(m@) == Some((o.country_id@, o.timestamp_ns)) && o.tile_id
                == tile_id,
            None => member_fields(m@) == None::<(Seq<char>, u64)>,
        },
{
    match parse_member(m) {
        Some((country_id, timestamp_ns)) => Some(Ownership { tile_id, country_id, timestamp_ns }),
        None => None,
    }
}

/// What a conditional write to the cold store does: the owner it found, and
/// the member to write, if any.
pub struct ColdSavePlan {
    pub previous: Option<Ownership>,
    pub new_member: Option<String>,
}

/// The view of an optional text.
pub open spec fn opt_text_view(t: Option<&str>) -> Option<Seq<char>> {
    match t {
        Some(s) => Some(s@),
        None => None,
    }
}

/// The view of a plan: the owner found, and the member to write.
pub open spec fn plan_view(p: ColdSavePlan) -> (Option<(u32, Seq<char>, u64)>, Option<Seq<char>>) {
    (
        match p.previous {
            Some(o) => Some(ownership_view(o)),
            None => None,
        },
        match p.new_member {
            Some(w) => Some(w@),
            None => None,
        },
    )
}

/// The plan for a click of `country` at `ts` on `tile`, given the member
/// currently stored (if any); `None` when that member is invalid data.
pub open spec fn cold_save_outcome(tile: u32, current: Option<Seq<char>>, country: Seq<char>, ts: u64) -> Option<
    (Option<(u32, Seq<char>, u64)>, Option<Seq<char>>),
> {
    match current {
        None => Some((None, Some(member_text(country, ts)))),
        Some(m) => match colon_split(m) {
            None => None,
            Some(_) => match member_fields(m) {
                None => Some((None, Some(member_text(country, ts)))),
                Some(fs) => Some(
                    (
                        Some((tile, fs.0, fs.1)),
                        if ts <= fs.1 {
                            None
                        } else {
                            Some(member_text(country, ts))
                        },
                    ),
                ),
            },
        },
    }
}

/// Decides a click's write to the cold store from the member currently stored
/// for the tile. With no member, the click is written. A member without exactly
/// one `:` is invalid data. A member whose timestamp does not read is treated as
/// no owner and overwritten. Otherwise the stored owner is returned, and the
/// click is written only when it is strictly newer.
pub fn plan_cold_save(tile_id: u32, current: Option<&str>, click: &Click) -> (r: Result<
    ColdSavePlan,
    ClickRepositoryError,
>)
    ensures
        match r {
            Ok(p) => cold_save_outcome(
                tile_id,
                opt_text_view(current),
                click.country_id@,
                click.timestamp_ns,
            ) == Some(plan_view(p)),
            Err(e) => cold_save_outcome(
                tile_id,
                opt_text_view(current),
                click.country_id@,
                click.timestamp_ns,
            ) is None && e is InvalidDataError,
        },
{
    match current {
        None => Ok(
            ColdSavePlan {
                previous: None,
                new_member: Some(member_of(click.country_id.as_str(), click.timestamp_ns)),
            },
        ),
        Some(m) => match split_member(m) {
            None => Err(ClickRepositoryError::InvalidDataError(String::from_str(m))),
            Some((country_id, ts_text)) => match parse_u64(ts_text.as_str()) {
                None => Ok(
                    ColdSavePlan {
                        previous: None,
                        new_member: Some(member_of(click.country_id.as_str(), click.timestamp_ns)),
                    },
                ),
                Some(ts) => {
                    let previous = Some(Ownership { tile_id, country_id, timestamp_ns: ts });
                    if click.timestamp_ns <= ts {
                        Ok(ColdSavePlan { previous, new_member: None })
                    } else {
                        Ok(
                            ColdSavePlan {
                                previous,
                                new_member: Some(
                                    member_of(click.country_id.as_str(), click.timestamp_ns),
                                ),
                            },
                        )
                    }
                },
            },
        },
    }
}

/// The members of `old` that differ from `new_member`, in order: those a
/// conditional write removes beside adding `new_member`.
pub fn members_to_remove(old: &Vec<String>, new_member: &str) -> (r: Vec<String>)
    ensures
        r@.map_values(|s: String| s@) == old@.map_values(|s: String| s@).filter(
            |s: Seq<char>| s != new_member@,
        ),
{
    let mut out: Vec<String> = Vec::new();
    let mut i: usize = 0;
    let target = String::from_str(new_member);
    while i < old.len()
        invariant
            i <= old.len(),
            target@ == new_member@,
            out@.map_values(|s: String| s@) == old@.subrange(0, i as int).map_values(
                |s: String| s@,
            ).filter(|s: Seq<char>| s != new_member@),
        decreases old.len() - i,
    {
        let ghost prefix = old@.subrange(0, i as int).map_values(|s: String| s@);
        let ghost next = old@.subrange(0, i + 1).map_values(|s: String| s@);
        proof {
            reveal(Seq::filter);
            assert(next.drop_last() =~= prefix);
            assert(next.last() == old@[i as int]@);
            assert(next.filter(|s: Seq<char>| s != new_member@) == if next.last() != new_member@ {
                prefix.filter(|s: Seq<char>| s != new_member@).push(next.last())
            } else {
                prefix.filter(|s: Seq<char>| s != new_member@)
            });
        }
        if old[i] != target {
            out.push(old[i].clone());
            proof {
                assert(out@.map_values(|s: String| s@) =~= prefix.filter(
                    |s: Seq<char>| s != new_member@,
                ).push(old@[i as int]@));
            }
        }
        i = i + 1;
    }
    proof {
        assert(old@.subrange(0, old.len() as int) =~= old@);
    }
    out
}

/// What a range read of the cold store decodes to, from (member, score) pairs:
/// well-formed members give records in order, malformed ones are skipped, and a
/// score that is not a tile id is invalid data (`None`).
pub open spec fn decoded_members(pairs: Seq<(Seq<char>, Seq<char>)>) -> Option<Seq<(u32, Seq<char>, u64)>>
    decreases pairs.len(),
{
    if pairs.len() == 0 {
        Some(Seq::empty())
    } else {
        match decoded_members(pairs.drop_last()) {
            None => None,
            Some(prefix) => match member_fields(pairs.last().0) {
                None => Some(prefix),
                Some(fs) => match parsed_u64(pairs.last().1) {
                    Some(t) => if t <= u32::MAX {
                        Some(prefix.push((t as u32, fs.0, fs.1)))
                    } else {
                        None
                    },
                    None => None,
                },
            },
        }
    }
}

/// The view of (member, score) pairs.
pub open spec fn pairs_view(pairs: Seq<(String, String)>) -> Seq<(Seq<char>, Seq<char>)> {
    pairs.map_values(|p: (String, String)| (p.0@, p.1@))
}

/// Decodes the (member, score) pairs of a range read of the cold store into
/// ownerships; see `decoded_members`.
pub fn ownerships_from_members(pairs: &Vec<(String, String)>) -> (r: Result<
    OwnershipState,
    ClickRepositoryError,
>)
    ensures
        match r {
            Ok(s) => decoded_members(pairs_view(pairs@)) == Some(
                s.ownerships@.map_values(|o: Ownership| ownership_view(o)),
            ),
            Err(e) => decoded_members(pairs_view(pairs@)) is None && e is InvalidDataError,
        },
{
    let mut ownerships: Vec<Ownership> = Vec::new();
    let mut i: usize = 0;
    while i < pairs.len()
        invariant
            i <= pairs.len(),
            decoded_members(pairs_view(pairs@.subrange(0, i as int))) == Some(
                ownerships@.map_values(|o: Ownership| ownership_view(o)),
            ),
        decreases pairs.len() - i,
    {
        let ghost before = ownerships@;
        proof {
            assert(pairs_view(pairs@.subrange(0, i + 1)).drop_last() =~= pairs_view(
                pairs@.subrange(0, i as int),
            ));
            assert(pairs_view(pairs@.subrange(0, i + 1)).last() == (pairs@[i as int].0@, pairs@[i as int].1@));
        }
        match parse_member(pairs[i].0.as_str()) {
            None => {},
            Some((country_id, timestamp_ns)) => match parse_u64(pairs[i].1.as_str()) {
                Some(t) => {
                    if t > u32::MAX as u64 {
                        proof {
                            lemma_decoding_stays_invalid(pairs_view(pairs@), i + 1);
                        }
                        return Err(ClickRepositoryError::InvalidDataError(String::from_str("tile id out of range")));
                    }
                    ownerships.push(Ownership { tile_id: t as u32, country_id, timestamp_ns });
                    proof {
                        assert(ownerships@.map_values(|o: Ownership| ownership_view(o)) =~= before.map_values(
                            |o: Ownership| ownership_view(o),
                        ).push((t as u32, country_id@, timestamp_ns)));
                    }
                },
                None => {
                    proof {
                        lemma_decoding_stays_invalid(pairs_view(pairs@), i + 1);
                    }
                    return Err(ClickRepositoryError::InvalidDataError(String::from_str("tile id is not a number")));
                },
            },
        }
        i = i + 1;
    }
    proof {
        assert(pairs@.subrange(0, pairs.len() as int) =~= pairs@);
    }
    Ok(OwnershipState { ownerships })
}

proof fn lemma_decoding_stays_invalid(pairs: Seq<(Seq<char>, Seq<char>)>, k: int)
    requires
        0 <= k <= pairs.len(),
        decoded_members(pairs.subrange(0, k)) is None,
    ensures
        decoded_members(pairs) is None,
    decreases pairs.len() - k,
{
    if k < pairs.len() {
        assert(pairs.subrange(0, k + 1).drop_last() =~= pairs.subrange(0, k));
        lemma_decoding_stays_invalid(pairs, k + 1);
    } else {
        assert(pairs.subrange(0, k) =~= pairs);
    }
}

} // verus!
