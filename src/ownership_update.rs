//! The ownership-update decision: applies a click to the hot index and says
//! which notification, if any, it gives rise to.
use vstd::prelude::*;
use crate::hot_index::{
    consistent, lemma_move_keeps_consistent, lww_save, opt_str_view, owned_tiles, reindexed,
    Holdings, Owners, PapayaClickRepository,
};
use crate::model::{Click, ClickRepositoryError, UpdateNotification};

verus! {

/// The notification that a click of `country` at `ts` on `tile` gives rise to,
/// as (new country, previous country): one when the tile was unowned (the
/// previous country is then empty), or when the click is newer than the stored
/// owner and names another country; none otherwise.
pub open spec fn notification_for(f: Owners, tile: u32, country: Seq<char>, ts: u64) -> Option<
    (Seq<char>, Seq<char>),
> {
    if !f.contains_key(tile) {
        Some((country, Seq::<char>::empty()))
    } else if ts > f[tile].1 && f[tile].0 != country {
        Some((country, f[tile].0))
    } else {
        None
    }
}

/// The view of an optional notification: (new country, previous country).
pub open spec fn notification_view(n: Option<UpdateNotification>) -> Option<(Seq<char>, Seq<char>)> {
    match n {
        Some(u) => Some((u.country_id@, u.previous_country_id@)),
        None => None,
    }
}

/// The reverse map after a click of `country` at `ts` on `tile`: the tile moves
/// to `country` exactly when the click gives rise to a notification.
pub open spec fn holdings_after(f: Owners, r: Holdings, tile: u32, country: Seq<char>, ts: u64) -> Holdings {
    if !f.contains_key(tile) {
        reindexed(r, tile, country, None)
    } else if ts > f[tile].1 && f[tile].0 != country {
        reindexed(r, tile, country, Some(f[tile].0))
    } else {
        r
    }
}

/// One click, at the level of the two maps, keeps them in agreement.
proof fn lemma_step_keeps_consistent(f: Owners, r: Holdings, t: u32, c: Seq<char>, ts: u64)
    requires
        consistent(f, r),
        c.len() > 0,
    ensures
        consistent(lww_save(f, t, c, ts), holdings_after(f, r, t, c, ts)),
{
    if !f.contains_key(t) || (ts > f[t].1 && f[t].0 != c) {
        lemma_move_keeps_consistent(f, r, t, c, ts);
    } else if ts > f[t].1 {
        let f2 = lww_save(f, t, c, ts);
        assert forall|d: Seq<char>, u: u32| r.contains_key(d) && #[trigger] r[d].contains(u) implies f2.contains_key(u) && f2[u].0 == d by {
            assert(f.contains_key(u));
        }
    }
}

/// Applies a click to the index: records it under the last-writer-wins rule
/// and, when the tile changes owner, moves it in the reverse map and returns
/// the notification to broadcast. A negative tile id is refused as invalid
/// data and leaves the index as it was. When the index is consistent and the
/// click names a non-empty country, it stays consistent.
pub fn apply_click(index: &mut PapayaClickRepository, click: &Click) -> (r: Result<
    Option<UpdateNotification>,
    ClickRepositoryError,
>)
    ensures
        click.tile_id < 0 ==> (r matches Err(ClickRepositoryError::InvalidDataError(_))),
        click.tile_id < 0 ==> final(index).owners() == old(index).owners()
            && final(index).holdings() == old(index).holdings(),
        click.tile_id >= 0 ==> (r matches Ok(n) && notification_view(n) == notification_for(
            old(index).owners(),
            click.tile_id as u32,
            click.country_id@,
            click.timestamp_ns,
        ) && (n matches Some(u) ==> u.tile_id == click.tile_id)),
        click.tile_id >= 0 ==> final(index).owners() == lww_save(
            old(index).owners(),
            click.tile_id as u32,
            click.country_id@,
            click.timestamp_ns,
        ),
        click.tile_id >= 0 ==> final(index).holdings() == holdings_after(
            old(index).owners(),
            old(index).holdings(),
            click.tile_id as u32,
            click.country_id@,
            click.timestamp_ns,
        ),
        consistent(old(index).owners(), old(index).holdings()) && click.country_id@.len() > 0
            ==> consistent(final(index).owners(), final(index).holdings()),
{
    if click.tile_id < 0 {
        return Err(ClickRepositoryError::InvalidDataError(String::from_str("negative tile id")));
    }
    let tile_id = click.tile_id as u32;
    let ghost f = index.owners();
    let ghost r0 = index.holdings();
    let previous = match index.save_click(tile_id, click) {
        Ok(p) => p,
        Err(e) => return Err(e),
    };
    match previous {
        None => {
            index.update_country_index(tile_id, click.country_id.as_str(), None);
            proof {
                if consistent(f, r0) && click.country_id@.len() > 0 {
                    lemma_step_keeps_consistent(f, r0, tile_id, click.country_id@, click.timestamp_ns);
                }
            }
            Ok(
                Some(
                    UpdateNotification {
                        tile_id: click.tile_id,
                        country_id: click.country_id.clone(),
                        previous_country_id: String::new(),
                    },
                ),
            )
        },
        Some(p) => {
            if click.timestamp_ns > p.timestamp_ns && p.country_id != click.country_id {
                let old_name = p.country_id.as_str();
                index.update_country_index(tile_id, click.country_id.as_str(), Some(old_name));
                proof {
                    assert(opt_str_view(Some(old_name)) == Some(f[tile_id].0));
                    if consistent(f, r0) && click.country_id@.len() > 0 {
                        lemma_step_keeps_consistent(f, r0, tile_id, click.country_id@, click.timestamp_ns);
                    }
                }
                Ok(
                    Some(
                        UpdateNotification {
                            tile_id: click.tile_id,
                            country_id: click.country_id.clone(),
                            previous_country_id: p.country_id.clone(),
                        },
                    ),
                )
            } else {
                proof {
                    if consistent(f, r0) && click.country_id@.len() > 0 {
                        lemma_step_keeps_consistent(f, r0, tile_id, click.country_id@, click.timestamp_ns);
                    }
                }
                Ok(None)
            }
        },
    }
}

/// The two maps after a sequence of clicks, each given as (tile, country,
/// timestamp), applied in order.
pub open spec fn replay(f: Owners, r: Holdings, clicks: Seq<(u32, Seq<char>, u64)>) -> (Owners, Holdings)
    decreases clicks.len(),
{
    if clicks.len() == 0 {
        (f, r)
    } else {
        let before = replay(f, r, clicks.drop_last());
        let c = clicks.last();
        (lww_save(before.0, c.0, c.1, c.2), holdings_after(before.0, before.1, c.0, c.1, c.2))
    }
}

/// After any sequence of clicks with non-empty country ids is applied to
/// consistent maps (the empty ones are), each country listed in the reverse
/// map holds exactly the tiles it owns in the forward map, so its score is
/// their number; a country that owns no tile is not listed.
pub proof fn lemma_replay_keeps_scores(f: Owners, r: Holdings, clicks: Seq<(u32, Seq<char>, u64)>)
    requires
        consistent(f, r),
        forall|i: int| 0 <= i < clicks.len() ==> (#[trigger] clicks[i]).1.len() > 0,
    ensures
        consistent(replay(f, r, clicks).0, replay(f, r, clicks).1),
        forall|c: Seq<char>|
            #[trigger] replay(f, r, clicks).1.contains_key(c) ==> replay(f, r, clicks).1[c]
                == owned_tiles(replay(f, r, clicks).0, c) && replay(f, r, clicks).1[c] != Set::<
                u32,
            >::empty(),
        forall|c: Seq<char>|
            !replay(f, r, clicks).1.contains_key(c) ==> #[trigger] owned_tiles(
                replay(f, r, clicks).0,
                c,
            ) == Set::<u32>::empty(),
    decreases clicks.len(),
{
    if clicks.len() > 0 {
        let prefix = clicks.drop_last();
        assert forall|i: int| 0 <= i < prefix.len() implies (#[trigger] prefix[i]).1.len() > 0 by {
            assert(prefix[i] == clicks[i]);
        }
        lemma_replay_keeps_scores(f, r, prefix);
        let before = replay(f, r, prefix);
        let c = clicks.last();
        assert(c == clicks[clicks.len() - 1]);
        lemma_step_keeps_consistent(before.0, before.1, c.0, c.1, c.2);
    }
    let (f2, r2) = replay(f, r, clicks);
    assert forall|c: Seq<char>| #[trigger] r2.contains_key(c) implies r2[c] == owned_tiles(f2, c) && r2[c] != Set::<u32>::empty() by {
        assert(r2[c] =~= owned_tiles(f2, c));
    }
    assert forall|c: Seq<char>| !r2.contains_key(c) implies #[trigger] owned_tiles(f2, c) == Set::<u32>::empty() by {
        assert(owned_tiles(f2, c) =~= Set::<u32>::empty());
    }
}

/// When a tile is held by the country of an applied click, a newer click that
/// names another country gives exactly one notification, from the first
/// country to the second.
pub proof fn lemma_reclaim_notifies_once(f: Owners, tile: u32, first: Seq<char>, ts1: u64, second: Seq<char>, ts2: u64)
    requires
        lww_save(f, tile, first, ts1)[tile] == (first, ts1),
        ts2 > ts1,
        first != second,
    ensures
        notification_for(lww_save(f, tile, first, ts1), tile, second, ts2) == Some((second, first)),
{
    assert(lww_save(f, tile, first, ts1).contains_key(tile));
}

/// A click whose country already owns the tile gives no notification.
pub proof fn lemma_same_owner_is_silent(f: Owners, tile: u32, country: Seq<char>, ts: u64)
    requires
        f.contains_key(tile),
        f[tile].0 == country,
    ensures
        notification_for(f, tile, country, ts) == None::<(Seq<char>, Seq<char>)>,
{
}

/// Applying the same click a second time changes nothing and gives no
/// notification.
pub proof fn lemma_redelivery_is_idempotent(f: Owners, r: Holdings, tile: u32, country: Seq<char>, ts: u64)
    ensures
        notification_for(lww_save(f, tile, country, ts), tile, country, ts) == None::<
            (Seq<char>, Seq<char>),
        >,
        lww_save(lww_save(f, tile, country, ts), tile, country, ts) == lww_save(f, tile, country, ts),
        holdings_after(
            lww_save(f, tile, country, ts),
            holdings_after(f, r, tile, country, ts),
            tile,
            country,
            ts,
        ) == holdings_after(f, r, tile, country, ts),
{
    assert(lww_save(f, tile, country, ts).contains_key(tile));
}

} // verus!
