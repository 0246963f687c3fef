//! Naming on the click log, and the stamping of a click request.
use vstd::prelude::*;
use crate::decimal::{parse_u64, parsed_u64, push_signed, signed_text};
use crate::model::{BatchRequest, Click, ClickRequest, ClickResponse, ConsumerConfig};

verus! {

/// The prefix of every click subject; the tile id follows it.
pub open spec fn subject_prefix() -> Seq<char> {
    seq!['c', 'l', 'i', 'c', 'k', 's', '.', 't', 'i', 'l', 'e', '.']
}

/// What reading `s` as a `u32` gives, the way std reads unsigned integers.
pub open spec fn parsed_u32(s: Seq<char>) -> Option<u32> {
    match parsed_u64(s) {
        Some(v) => if v <= u32::MAX {
            Some(v as u32)
        } else {
            None
        },
        None => None,
    }
}

fn prefix_text() -> (r: &'static str)
    ensures
        r@ == subject_prefix(),
{
    proof {
        reveal_strlit("clicks.tile.");
    }
    "clicks.tile."
}

/// The subject a click on `tile_id` is published under.
pub fn click_subject(tile_id: i32) -> (r: String)
    ensures
        r@ == subject_prefix() + signed_text(tile_id as int),
{
    let mut s = String::from_str(prefix_text());
    push_signed(&mut s, tile_id as i64);
    s
}

/// The tile id a subject names: the subject must be the prefix followed by a
/// `u32`.
pub fn tile_from_subject(subject: &str) -> (r: Option<u32>)
    ensures
        r == (if subject@.len() >= subject_prefix().len() && subject@.subrange(
            0,
            subject_prefix().len() as int,
        ) == subject_prefix() {
            parsed_u32(subject@.subrange(subject_prefix().len() as int, subject@.len() as int))
        } else {
            None
        }),
{
    let n = subject.unicode_len();
    let prefix = prefix_text();
    let m = prefix.unicode_len();
    if n < m {
        return None;
    }
    let head = String::from_str(subject.substring_char(0, m));
    if head != String::from_str(prefix) {
        return None;
    }
    let rest = subject.substring_char(m, n);
    match parse_u64(rest) {
        Some(v) => if v <= u32::MAX as u64 {
            Some(v as u32)
        } else {
            None
        },
        None => None,
    }
}

/// Stamps a click request with its server timestamp and click id: the click to
/// publish, and the answer to give.
pub fn stamp_click(request: &ClickRequest, timestamp_ns: u64, click_id: &String) -> (r: (
    Click,
    ClickResponse,
))
    ensures
        r.0.tile_id == request.tile_id,
        r.0.country_id@ == request.country_id@,
        r.0.timestamp_ns == timestamp_ns,
        r.0.click_id@ == click_id@,
        r.1.timestamp_ns == timestamp_ns,
        r.1.click_id@ == click_id@,
{
    let click = Click {
        tile_id: request.tile_id,
        country_id: request.country_id.clone(),
        timestamp_ns,
        click_id: click_id.clone(),
    };
    let response = ClickResponse { timestamp_ns, click_id: click_id.clone() };
    (click, response)
}

/// The tile a click request names; `None` when the id is negative, which is
/// a bad request.
pub fn requested_tile(request: &ClickRequest) -> (r: Option<u32>)
    ensures
        r == (if request.tile_id >= 0 {
            Some(request.tile_id as u32)
        } else {
            None::<u32>
        }),
{
    if request.tile_id >= 0 {
        Some(request.tile_id as u32)
    } else {
        None
    }
}

/// The inclusive tile range a batch request names; `None` when either bound
/// is negative, which is a bad request.
pub fn requested_range(request: &BatchRequest) -> (r: Option<(u32, u32)>)
    ensures
        r == (if request.start_tile_id >= 0 && request.end_tile_id >= 0 {
            Some((request.start_tile_id as u32, request.end_tile_id as u32))
        } else {
            None::<(u32, u32)>
        }),
{
    if request.start_tile_id >= 0 && request.end_tile_id >= 0 {
        Some((request.start_tile_id as u32, request.end_tile_id as u32))
    } else {
        None
    }
}

impl Default for ConsumerConfig {
    /// A durable consumer that waits 30 s for an acknowledgement, delivers a
    /// message at most 3 times, and runs 4 handlers at once.
    fn default() -> (r: Self)
        ensures
            r.consumer_name@ == "tile-state-processor"@,
            r.ack_wait_secs == 30,
            r.max_deliver == 3,
            r.concurrent_processors == 4,
    {
        ConsumerConfig {
            consumer_name: String::from_str("tile-state-processor"),
            ack_wait_secs: 30,
            max_deliver: 3,
            concurrent_processors: 4,
        }
    }
}

} // verus!
