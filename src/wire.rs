//! The binary wire form of ownership snapshots: protocol buffers, with the
//! field numbers of the service's schema (`Ownership { uint32 tile_id = 1;
//! string country_id = 2; uint64 timestamp_ns = 3; }`, `OwnershipState {
//! repeated Ownership ownerships = 1; }`). Varints are written and read by
//! prost's encoding primitives.
use vstd::prelude::*;
use vstd::utf8::{decode_utf8, encode_utf8, valid_utf8};
use crate::hot_index::records;
use crate::model::{
    ownership_view, Click, LeaderboardEntry, LeaderboardResponse, Ownership, OwnershipState,
    UpdateNotification,
};

verus! {

broadcast use vstd::utf8::encode_utf8_valid_utf8, vstd::utf8::encode_utf8_decode_utf8;

/// The LEB128 bytes of `v`: seven bits per byte, low bits first, the high bit
/// set on every byte but the last.
pub open spec fn varint_bytes(v: nat) -> Seq<u8>
    decreases v,
{
    if v < 128 {
        seq![v as u8]
    } else {
        seq![(v % 128 + 128) as u8] + varint_bytes(v / 128)
    }
}

/// `b` holds the LEB128 bytes of `v` at `pos`.
pub open spec fn varint_at(b: Seq<u8>, pos: int, v: u64) -> bool {
    &&& 0 <= pos
    &&& pos + varint_bytes(v as nat).len() <= b.len()
    &&& b.subrange(pos, pos + varint_bytes(v as nat).len()) == varint_bytes(v as nat)
}

/// Relies on prost::encoding::encode_varint: it appends the LEB128 bytes of
/// the value.
#[verifier::external_body]
fn put_varint(buf: &mut Vec<u8>, v: u64)
    ensures
        final(buf)@ == old(buf)@ + varint_bytes(v as nat),
{
    prost::encoding::encode_varint(v, buf);
}

/// Relies on prost::encoding::decode_varint, on the bytes from `pos` on: it
/// consumes at least one byte and never more than there are, and where those
/// bytes start with the LEB128 bytes of a value it reads that value and
/// exactly those bytes. The result is the value and the number of bytes left.
#[verifier::external_body]
pub(crate) fn read_varint(bytes: &[u8], pos: usize) -> (r: Option<(u64, usize)>)
    requires
        pos <= bytes@.len(),
    ensures
        r matches Some(p) ==> p.1 < bytes@.len() - pos,
        forall|v: u64|
            #[trigger] varint_at(bytes@, pos as int, v) ==> r == Some(
                (v, (bytes@.len() - pos - varint_bytes(v as nat).len()) as usize),
            ),
{
    let mut rest = &bytes[pos..];
    match prost::encoding::decode_varint(&mut rest) {
        Ok(v) => Some((v, rest.len())),
        Err(_) => None,
    }
}

/// Relies on std::str::from_utf8, on the bytes in `[start, end)`: it accepts
/// exactly valid UTF-8, and the text it gives has exactly those bytes.
#[verifier::external_body]
pub(crate) fn text_from_utf8(bytes: &[u8], start: usize, end: usize) -> (r: Option<String>)
    requires
        start <= end <= bytes@.len(),
    ensures
        (r is Some) == valid_utf8(bytes@.subrange(start as int, end as int)),
        r matches Some(s) ==> s@ == decode_utf8(bytes@.subrange(start as int, end as int)),
{
    match std::str::from_utf8(&bytes[start..end]) {
        Ok(s) => Some(s.to_string()),
        Err(_) => None,
    }
}

/// The wire bytes of an ownership record: each field that is not at its
/// default (0, or the empty text) as key, then value.
pub open spec fn ownership_bytes(o: (u32, Seq<char>, u64)) -> Seq<u8> {
    (if o.0 != 0 {
        seq![8u8] + varint_bytes(o.0 as nat)
    } else {
        Seq::empty()
    }) + (if o.1.len() > 0 {
        seq![18u8] + varint_bytes(encode_utf8(o.1).len()) + encode_utf8(o.1)
    } else {
        Seq::empty()
    }) + (if o.2 != 0 {
        seq![24u8] + varint_bytes(o.2 as nat)
    } else {
        Seq::empty()
    })
}

/// The wire bytes of one entry of a snapshot: key, length, record.
pub open spec fn entry_bytes(o: (u32, Seq<char>, u64)) -> Seq<u8> {
    seq![10u8] + varint_bytes(ownership_bytes(o).len()) + ownership_bytes(o)
}

/// The wire bytes of a snapshot: its entries in order.
pub open spec fn state_bytes(os: Seq<(u32, Seq<char>, u64)>) -> Seq<u8>
    decreases os.len(),
{
    if os.len() == 0 {
        Seq::empty()
    } else {
        entry_bytes(os[0]) + state_bytes(os.drop_first())
    }
}

/// The records of a snapshot as plain values.
pub open spec fn state_view(s: OwnershipState) -> Seq<(u32, Seq<char>, u64)> {
    s.ownerships@.map_values(|o: Ownership| ownership_view(o))
}

fn put_bytes(buf: &mut Vec<u8>, bytes: &[u8])
    ensures
        final(buf)@ == old(buf)@ + bytes@,
{
    let mut i: usize = 0;
    let ghost start = buf@;
    while i < bytes.len()
        invariant
            i <= bytes@.len(),
            buf@ == start + bytes@.subrange(0, i as int),
        decreases bytes@.len() - i,
    {
        buf.push(bytes[i]);
        proof {
            assert(bytes@.subrange(0, i + 1) == bytes@.subrange(0, i as int).push(bytes@[i as int]));
        }
        i = i + 1;
    }
    proof {
        assert(bytes@.subrange(0, bytes@.len() as int) == bytes@);
    }
}

/// A text field: key, length and UTF-8 bytes; nothing for the empty text.
pub open spec fn text_field(key: u8, t: Seq<char>) -> Seq<u8> {
    if t.len() > 0 {
        seq![key] + varint_bytes(encode_utf8(t).len()) + encode_utf8(t)
    } else {
        Seq::empty()
    }
}

/// An unsigned varint field: key and value; nothing for 0.
pub open spec fn varint_field(key: u8, v: u64) -> Seq<u8> {
    if v != 0 {
        seq![key] + varint_bytes(v as nat)
    } else {
        Seq::empty()
    }
}

/// A signed 32-bit value widened to 64 bits in two's complement, as protocol
/// buffers carry an `int32`.
pub open spec fn widen(v: i32) -> u64 {
    (if v < 0 {
        v + 0x1_0000_0000_0000_0000int
    } else {
        v as int
    }) as u64
}

/// A signed 32-bit field: key, then the widened value; nothing for 0.
pub open spec fn int32_field(key: u8, v: i32) -> Seq<u8> {
    varint_field(key, widen(v))
}

/// The wire bytes of an update notification (`tile_id = 1`, `country_id = 2`,
/// `previous_country_id = 3`).
pub open spec fn notification_bytes(n: UpdateNotification) -> Seq<u8> {
    int32_field(8, n.tile_id) + text_field(18, n.country_id@) + text_field(26, n.previous_country_id@)
}

/// The wire bytes of a click (`tile_id = 1`, `country_id = 2`, `timestamp_ns
/// = 3`, `click_id = 4`).
pub open spec fn click_bytes(c: Click) -> Seq<u8> {
    int32_field(8, c.tile_id) + text_field(18, c.country_id@) + varint_field(24, c.timestamp_ns)
        + text_field(34, c.click_id@)
}

/// The wire bytes of a leaderboard entry (`country_id = 1`, `score = 2`).
pub open spec fn leaderboard_entry_bytes(e: LeaderboardEntry) -> Seq<u8> {
    text_field(10, e.country_id@) + varint_field(16, e.score as u64)
}

/// The wire bytes of a leaderboard: each entry as key, length, entry.
pub open spec fn leaderboard_bytes(es: Seq<LeaderboardEntry>) -> Seq<u8>
    decreases es.len(),
{
    if es.len() == 0 {
        Seq::empty()
    } else {
        seq![10u8] + varint_bytes(leaderboard_entry_bytes(es[0]).len()) + leaderboard_entry_bytes(
            es[0],
        ) + leaderboard_bytes(es.drop_first())
    }
}

fn put_text_field(buf: &mut Vec<u8>, key: u8, t: &str)
    ensures
        final(buf)@ == old(buf)@ + text_field(key, t@),
{
    let bytes = t.as_bytes();
    proof {
        lemma_text_part(t@);
    }
    if bytes.len() > 0 {
        buf.push(key);
        put_varint(buf, bytes.len() as u64);
        put_bytes(buf, bytes);
        proof {
            assert(final(buf)@ =~= old(buf)@ + text_field(key, t@));
        }
    } else {
        proof {
            assert(old(buf)@ + text_field(key, t@) =~= old(buf)@);
        }
    }
}

fn put_varint_field(buf: &mut Vec<u8>, key: u8, v: u64)
    ensures
        final(buf)@ == old(buf)@ + varint_field(key, v),
{
    if v != 0 {
        buf.push(key);
        put_varint(buf, v);
        proof {
            assert(final(buf)@ =~= old(buf)@ + varint_field(key, v));
        }
    } else {
        proof {
            assert(old(buf)@ + varint_field(key, v) =~= old(buf)@);
        }
    }
}

fn put_int32_field(buf: &mut Vec<u8>, key: u8, v: i32)
    ensures
        final(buf)@ == old(buf)@ + int32_field(key, v),
{
    let widened: u64 = #[verifier::truncate] ((v as i64) as u64);
    proof {
        assert(widened == widen(v)) by (bit_vector)
            requires
                widened == #[verifier::truncate] ((v as i64) as u64),
        ;
    }
    put_varint_field(buf, key, widened);
}

/// The wire bytes of an update notification.
pub fn encode_update_notification(n: &UpdateNotification) -> (r: Vec<u8>)
    ensures
        r@ == notification_bytes(*n),
{
    let mut buf: Vec<u8> = Vec::new();
    put_int32_field(&mut buf, 8, n.tile_id);
    put_text_field(&mut buf, 18, n.country_id.as_str());
    put_text_field(&mut buf, 26, n.previous_country_id.as_str());
    proof {
        assert(buf@ =~= notification_bytes(*n));
    }
    buf
}

/// The wire bytes of a click, as published on the click log.
pub fn encode_click(c: &Click) -> (r: Vec<u8>)
    ensures
        r@ == click_bytes(*c),
{
    let mut buf: Vec<u8> = Vec::new();
    put_int32_field(&mut buf, 8, c.tile_id);
    put_text_field(&mut buf, 18, c.country_id.as_str());
    put_varint_field(&mut buf, 24, c.timestamp_ns);
    put_text_field(&mut buf, 34, c.click_id.as_str());
    proof {
        assert(buf@ =~= click_bytes(*c));
    }
    buf
}

/// The wire bytes of a leaderboard, entries in order.
pub fn encode_leaderboard(r: &LeaderboardResponse) -> (out: Vec<u8>)
    ensures
        out@ == leaderboard_bytes(r.entries@),
{
    let mut buf: Vec<u8> = Vec::new();
    let mut i: usize = 0;
    let ghost all = r.entries@;
    proof {
        assert(all.subrange(0, all.len() as int) =~= all);
        assert(buf@ + leaderboard_bytes(all) =~= leaderboard_bytes(all));
    }
    while i < r.entries.len()
        invariant
            i <= all.len(),
            all == r.entries@,
            buf@ + leaderboard_bytes(all.subrange(i as int, all.len() as int)) == leaderboard_bytes(all),
        decreases all.len() - i,
    {
        let mut entry: Vec<u8> = Vec::new();
        put_text_field(&mut entry, 10, r.entries[i].country_id.as_str());
        put_varint_field(&mut entry, 16, r.entries[i].score as u64);
        buf.push(10u8);
        put_varint(&mut buf, entry.len() as u64);
        put_bytes(&mut buf, entry.as_slice());
        proof {
            let rest = all.subrange(i as int, all.len() as int);
            assert(rest[0] == all[i as int]);
            assert(entry@ =~= leaderboard_entry_bytes(all[i as int]));
            assert(rest.drop_first() =~= all.subrange(i + 1, all.len() as int));
            assert(leaderboard_bytes(rest) =~= seq![10u8] + varint_bytes(entry@.len()) + entry@
                + leaderboard_bytes(rest.drop_first()));
        }
        i = i + 1;
    }
    proof {
        assert(all.subrange(all.len() as int, all.len() as int) =~= Seq::<LeaderboardEntry>::empty());
        assert(buf@ + Seq::<u8>::empty() =~= buf@);
    }
    buf
}

/// The wire bytes of an ownership record.
pub fn encode_ownership(o: &Ownership) -> (r: Vec<u8>)
    ensures
        r@ == ownership_bytes(ownership_view(*o)),
{
    let mut buf: Vec<u8> = Vec::new();
    if o.tile_id != 0 {
        buf.push(8u8);
        put_varint(&mut buf, o.tile_id as u64);
    }
    let ghost first = buf@;
    let text = o.country_id.as_str().as_bytes();
    if text.len() > 0 {
        buf.push(18u8);
        put_varint(&mut buf, text.len() as u64);
        put_bytes(&mut buf, text);
    }
    let ghost second = buf@;
    if o.timestamp_ns != 0 {
        buf.push(24u8);
        put_varint(&mut buf, o.timestamp_ns);
    }
    proof {
        let v = ownership_view(*o);
        assert(encode_utf8(v.1).len() == 0 ==> v.1.len() == 0) by {
            if v.1.len() > 0 {
                assert(decode_utf8(encode_utf8(v.1)) == v.1);
                if encode_utf8(v.1).len() == 0 {
                    assert(encode_utf8(v.1) == Seq::<u8>::empty());
                }
            }
        }
        assert(v.1.len() == 0 ==> encode_utf8(v.1).len() == 0) by {
            if v.1.len() == 0 {
                assert(v.1 == Seq::<char>::empty());
            }
        }
        assert(buf@ =~= ownership_bytes(v));
    }
    buf
}

/// The wire bytes of a snapshot.
pub fn encode_ownership_state(s: &OwnershipState) -> (r: Vec<u8>)
    ensures
        r@ == state_bytes(state_view(*s)),
{
    let mut buf: Vec<u8> = Vec::new();
    let mut i: usize = 0;
    let ghost all = state_view(*s);
    proof {
        assert(all.subrange(0, all.len() as int) =~= all);
        assert(buf@ + state_bytes(all) =~= state_bytes(all));
    }
    while i < s.ownerships.len()
        invariant
            i <= s.ownerships@.len(),
            all == state_view(*s),
            buf@ + state_bytes(all.subrange(i as int, all.len() as int)) == state_bytes(all),
        decreases s.ownerships@.len() - i,
    {
        let record = encode_ownership(&s.ownerships[i]);
        buf.push(10u8);
        put_varint(&mut buf, record.len() as u64);
        put_bytes(&mut buf, record.as_slice());
        proof {
            let rest = all.subrange(i as int, all.len() as int);
            assert(rest[0] == all[i as int]);
            assert(rest.drop_first() == all.subrange(i + 1, all.len() as int));
            assert(state_bytes(rest) == entry_bytes(rest[0]) + state_bytes(rest.drop_first()));
            assert(all[i as int] == ownership_view(s.ownerships@[i as int]));
        }
        i = i + 1;
    }
    proof {
        assert(all.subrange(all.len() as int, all.len() as int) == Seq::<(u32, Seq<char>, u64)>::empty());
        assert(buf@ + Seq::<u8>::empty() == buf@);
    }
    buf
}

/// The part of an ownership record's bytes that holds field `j` (1, 2 or 3);
/// empty when that field is at its default.
pub open spec fn field_part(o: (u32, Seq<char>, u64), j: int) -> Seq<u8> {
    if j == 1 {
        if o.0 != 0 {
            seq![8u8] + varint_bytes(o.0 as nat)
        } else {
            Seq::empty()
        }
    } else if j == 2 {
        if o.1.len() > 0 {
            seq![18u8] + varint_bytes(encode_utf8(o.1).len()) + encode_utf8(o.1)
        } else {
            Seq::empty()
        }
    } else if j == 3 {
        if o.2 != 0 {
            seq![24u8] + varint_bytes(o.2 as nat)
        } else {
            Seq::empty()
        }
    } else {
        Seq::empty()
    }
}

/// The bytes of an ownership record after its first `k` fields.
pub open spec fn rest_after(o: (u32, Seq<char>, u64), k: int) -> Seq<u8> {
    if k <= 0 {
        field_part(o, 1) + field_part(o, 2) + field_part(o, 3)
    } else if k == 1 {
        field_part(o, 2) + field_part(o, 3)
    } else if k == 2 {
        field_part(o, 3)
    } else {
        Seq::empty()
    }
}

/// The fields a decoder holds after reading the first `k` fields of `o`: those
/// read, and defaults for the others.
pub open spec fn fields_after(o: (u32, Seq<char>, u64), k: int) -> (u32, Seq<char>, u64) {
    (
        if k >= 1 {
            o.0
        } else {
            0
        },
        if k >= 2 {
            o.1
        } else {
            Seq::empty()
        },
        if k >= 3 {
            o.2
        } else {
            0
        },
    )
}

/// The next field after the first `k` that is not at its default; 4 when there
/// is none.
pub open spec fn next_field(o: (u32, Seq<char>, u64), k: int) -> int {
    if k < 1 && o.0 != 0 {
        1
    } else if k < 2 && o.1.len() > 0 {
        2
    } else if k < 3 && o.2 != 0 {
        3
    } else {
        4
    }
}

/// The key byte of field `j`.
pub open spec fn field_key(j: int) -> u8 {
    if j == 1 {
        8u8
    } else if j == 2 {
        18u8
    } else {
        24u8
    }
}

pub(crate) proof fn lemma_varint_small(v: nat)
    requires
        v < 128,
    ensures
        varint_bytes(v) == seq![v as u8],
{
}

proof fn lemma_varint_nonempty(v: nat)
    ensures
        varint_bytes(v).len() >= 1,
    decreases v,
{
    if v >= 128 {
        lemma_varint_nonempty(v / 128);
    }
}

pub(crate) proof fn lemma_text_part(t: Seq<char>)
    ensures
        (t.len() > 0) == (encode_utf8(t).len() > 0),
{
    if t.len() > 0 {
        assert(decode_utf8(encode_utf8(t)) == t);
        if encode_utf8(t).len() == 0 {
            assert(encode_utf8(t) == Seq::<u8>::empty());
        }
    } else {
        assert(t == Seq::<char>::empty());
    }
}

/// After the first `k` fields, what is left is either nothing, or the next
/// non-default field followed by what is left after it; the fields skipped on
/// the way are at their defaults.
proof fn lemma_next_field(o: (u32, Seq<char>, u64), k: int)
    requires
        0 <= k <= 3,
    ensures
        next_field(o, k) == 4 ==> rest_after(o, k) == Seq::<u8>::empty() && fields_after(o, 3)
            == fields_after(o, k),
        next_field(o, k) <= 3 ==> {
            let j = next_field(o, k);
            &&& k < j
            &&& rest_after(o, k) == field_part(o, j) + rest_after(o, j)
            &&& field_part(o, j).len() > 0
            &&& field_part(o, j)[0] == field_key(j)
            &&& fields_after(o, j - 1) == fields_after(o, k)
        },
{
    lemma_text_part(o.1);
    let j = next_field(o, k);
    assert(rest_after(o, k) =~= field_part(o, k + 1) + rest_after(o, k + 1)) by {
        if k == 0 {
            assert(rest_after(o, 0) =~= field_part(o, 1) + (field_part(o, 2) + field_part(o, 3)));
        } else if k == 2 {
            assert(rest_after(o, 2) =~= field_part(o, 3) + Seq::<u8>::empty());
        }
    }
    if k <= 1 {
        assert(rest_after(o, k + 1) =~= field_part(o, k + 2) + rest_after(o, k + 2)) by {
            if k + 1 == 2 {
                assert(rest_after(o, 2) =~= field_part(o, 3) + Seq::<u8>::empty());
            }
        }
    }
    if k == 0 {
        assert(rest_after(o, 2) =~= field_part(o, 3) + Seq::<u8>::empty());
    }
    if j <= 3 {
        assert(field_part(o, j)[0] == field_key(j));
    }
    if j == 4 {
        assert(rest_after(o, k) =~= Seq::<u8>::empty());
    }
}

pub(crate) proof fn lemma_split_at(b: Seq<u8>, pos: int, end: int, head: Seq<u8>, tail: Seq<u8>)
    requires
        0 <= pos <= end <= b.len(),
        b.subrange(pos, end) == head + tail,
    ensures
        pos + head.len() <= end,
        b.subrange(pos, pos + head.len()) == head,
        b.subrange(pos + head.len(), end) == tail,
{
    assert(b.subrange(pos, end).len() == end - pos);
    assert((head + tail).len() == end - pos);
    assert(b.subrange(pos, pos + head.len()) =~= (head + tail).subrange(0, head.len() as int));
    assert(b.subrange(pos + head.len(), end) =~= (head + tail).subrange(head.len() as int, (end - pos)));
}

/// What the bytes of a record hold at `pos`, when from `pos` on they are what
/// is left after its first `k` fields: the key of the next field, then its
/// value, then what is left after it.
proof fn lemma_field_at(b: Seq<u8>, pos: int, end: int, o: (u32, Seq<char>, u64), k: int)
    requires
        0 <= k <= 3,
        0 <= pos < end <= b.len(),
        end <= usize::MAX,
        b.subrange(pos, end) == rest_after(o, k),
    ensures
        next_field(o, k) <= 3,
        varint_at(b, pos, field_key(next_field(o, k)) as u64),
        varint_bytes(field_key(next_field(o, k)) as nat).len() == 1,
        fields_after(o, next_field(o, k) - 1) == fields_after(o, k),
        next_field(o, k) == 1 ==> varint_at(b, pos + 1, o.0 as u64) && b.subrange(
            pos + 1 + varint_bytes(o.0 as nat).len(),
            end,
        ) == rest_after(o, 1),
        next_field(o, k) == 3 ==> varint_at(b, pos + 1, o.2) && b.subrange(
            pos + 1 + varint_bytes(o.2 as nat).len(),
            end,
        ) == rest_after(o, 3),
        next_field(o, k) == 2 ==> {
            let t = encode_utf8(o.1);
            let p = pos + 1 + varint_bytes(t.len()).len();
            &&& t.len() <= u64::MAX
            &&& varint_at(b, pos + 1, t.len() as u64)
            &&& p + t.len() <= end
            &&& b.subrange(p, p + t.len()) == t
            &&& b.subrange(p + t.len(), end) == rest_after(o, 2)
        },
{
    lemma_next_field(o, k);
    let j = next_field(o, k);
    if j == 4 {
        assert(b.subrange(pos, end).len() == 0);
    }
    let key = field_key(j);
    lemma_varint_small(key as nat);
    let rest = rest_after(o, j);
    if j == 1 {
        let v = varint_bytes(o.0 as nat);
        assert(rest_after(o, k) =~= seq![8u8] + (v + rest));
        lemma_split_at(b, pos, end, seq![8u8], v + rest);
        lemma_split_at(b, pos + 1, end, v, rest);
    } else if j == 3 {
        let v = varint_bytes(o.2 as nat);
        assert(rest_after(o, k) =~= seq![24u8] + (v + rest));
        lemma_split_at(b, pos, end, seq![24u8], v + rest);
        lemma_split_at(b, pos + 1, end, v, rest);
    } else {
        let t = encode_utf8(o.1);
        let v = varint_bytes(t.len());
        assert(rest_after(o, k) =~= seq![18u8] + (v + (t + rest)));
        lemma_split_at(b, pos, end, seq![18u8], v + (t + rest));
        lemma_split_at(b, pos + 1, end, v, t + rest);
        lemma_split_at(b, pos + 1 + v.len(), end, t, rest);
    }
}

/// Decodes an ownership record from the bytes in `[start, end)`. Fields may
/// come in any order; a later value of a field replaces an earlier one; fields
/// of other numbers are skipped by their wire type. On the bytes of a record,
/// it gives that record back.
#[verifier::rlimit(100)]
pub fn decode_ownership(bytes: &[u8], start: usize, end: usize) -> (r: Option<Ownership>)
    requires
        start <= end <= bytes@.len(),
    ensures
        forall|o: (u32, Seq<char>, u64)|
            bytes@.subrange(start as int, end as int) == ownership_bytes(o) ==> (r matches Some(x)
                && ownership_view(x) == o),
{
    let ghost b = bytes@;
    let mut tile_id: u32 = 0;
    let mut country_id = String::new();
    let mut timestamp_ns: u64 = 0;
    let mut pos: usize = start;
    proof {
        assert forall|o: (u32, Seq<char>, u64)| b.subrange(start as int, end as int) == ownership_bytes(o)
            implies exists|k: int| 0 <= k <= 3 && b.subrange(pos as int, end as int) == rest_after(o, k) && (
                tile_id,
                country_id@,
                timestamp_ns,
            ) == #[trigger] fields_after(o, k) by {
            assert(ownership_bytes(o) =~= rest_after(o, 0));
            assert(fields_after(o, 0) == (tile_id, country_id@, timestamp_ns));
        }
    }
    while pos < end
        invariant
            start <= pos <= end <= b.len(),
            b == bytes@,
            forall|o: (u32, Seq<char>, u64)|
                b.subrange(start as int, end as int) == ownership_bytes(o) ==> exists|k: int|
                    0 <= k <= 3 && b.subrange(pos as int, end as int) == rest_after(o, k) && (
                    tile_id,
                    country_id@,
                    timestamp_ns,
                ) == #[trigger] fields_after(o, k),
        decreases end - pos,
    {
        let ghost old_fields = (tile_id, country_id@, timestamp_ns);
        let ghost old_pos = pos as int;
        let ghost stage = |o: (u32, Seq<char>, u64)| choose|k: int| 0 <= k <= 3 && b.subrange(old_pos, end as int) == rest_after(o, k) && old_fields == #[trigger] fields_after(o, k);
        let (key, left) = match read_varint(bytes, pos) {
            Some(p) => p,
            None => {
                proof {
                    assert forall|o: (u32, Seq<char>, u64)| b.subrange(start as int, end as int)
                        == ownership_bytes(o) implies false by {
                        lemma_field_at(b, old_pos, end as int, o, stage(o));
                    }
                }
                return None;
            },
        };
        let after_key = bytes.len() - left;
        proof {
            assert forall|o: (u32, Seq<char>, u64)| b.subrange(start as int, end as int)
                == ownership_bytes(o) implies key == field_key(next_field(o, stage(o))) && after_key == old_pos + 1 by {
                lemma_field_at(b, old_pos, end as int, o, stage(o));
            }
        }
        if after_key > end {
            return None;
        }
        if key == 8 || key == 24 {
            let (value, left2) = match read_varint(bytes, after_key) {
                Some(p) => p,
                None => {
                    proof {
                        assert forall|o: (u32, Seq<char>, u64)| b.subrange(start as int, end as int)
                            == ownership_bytes(o) implies false by {
                            lemma_field_at(b, old_pos, end as int, o, stage(o));
                        }
                    }
                    return None;
                },
            };
            let next = bytes.len() - left2;
            if next > end {
                proof {
                    assert forall|o: (u32, Seq<char>, u64)| b.subrange(start as int, end as int)
                        == ownership_bytes(o) implies false by {
                        lemma_field_at(b, old_pos, end as int, o, stage(o));
                    }
                }
                return None;
            }
            if key == 8 {
                tile_id = #[verifier::truncate] (value as u32);
            } else {
                timestamp_ns = value;
            }
            pos = next;
            proof {
                assert forall|o: (u32, Seq<char>, u64)| b.subrange(start as int, end as int)
                    == ownership_bytes(o) implies exists|k: int|
                    0 <= k <= 3 && b.subrange(pos as int, end as int) == rest_after(o, k) && (
                    tile_id,
                    country_id@,
                    timestamp_ns,
                ) == #[trigger] fields_after(o, k) by {
                    let k = stage(o);
                    lemma_field_at(b, old_pos, end as int, o, k);
                    let j = next_field(o, k);
                    assert(fields_after(o, j) == (tile_id, country_id@, timestamp_ns));
                }
            }
        } else if key == 18 {
            let (len, left2) = match read_varint(bytes, after_key) {
                Some(p) => p,
                None => {
                    proof {
                        assert forall|o: (u32, Seq<char>, u64)| b.subrange(start as int, end as int)
                            == ownership_bytes(o) implies false by {
                            lemma_field_at(b, old_pos, end as int, o, stage(o));
                        }
                    }
                    return None;
                },
            };
            let text_start = bytes.len() - left2;
            if text_start > end || len > (end - text_start) as u64 {
                proof {
                    assert forall|o: (u32, Seq<char>, u64)| b.subrange(start as int, end as int)
                        == ownership_bytes(o) implies false by {
                        lemma_field_at(b, old_pos, end as int, o, stage(o));
                    }
                }
                return None;
            }
            let text_end = text_start + len as usize;
            match text_from_utf8(bytes, text_start, text_end) {
                Some(text) => {
                    country_id = text;
                },
                None => {
                    proof {
                        assert forall|o: (u32, Seq<char>, u64)| b.subrange(start as int, end as int)
                            == ownership_bytes(o) implies false by {
                            lemma_field_at(b, old_pos, end as int, o, stage(o));
                        }
                    }
                    return None;
                },
            }
            pos = text_end;
            proof {
                assert forall|o: (u32, Seq<char>, u64)| b.subrange(start as int, end as int)
                    == ownership_bytes(o) implies exists|k: int|
                    0 <= k <= 3 && b.subrange(pos as int, end as int) == rest_after(o, k) && (
                    tile_id,
                    country_id@,
                    timestamp_ns,
                ) == #[trigger] fields_after(o, k) by {
                    let k = stage(o);
                    lemma_field_at(b, old_pos, end as int, o, k);
                    assert(fields_after(o, 2) == (tile_id, country_id@, timestamp_ns));
                }
            }
        } else {
            proof {
                assert forall|o: (u32, Seq<char>, u64)| b.subrange(start as int, end as int)
                    == ownership_bytes(o) implies false by {
                    lemma_field_at(b, old_pos, end as int, o, stage(o));
                }
            }
            let field = key / 8;
            let wire_type = key % 8;
            if field <= 3 {
                return None;
            }
            if wire_type == 0 {
                match read_varint(bytes, after_key) {
                    Some((_, left2)) => {
                        pos = bytes.len() - left2;
                    },
                    None => {
                        return None;
                    },
                }
            } else if wire_type == 2 {
                match read_varint(bytes, after_key) {
                    Some((len, left2)) => {
                        let data_start = bytes.len() - left2;
                        if data_start > end || len > (end - data_start) as u64 {
                            return None;
                        }
                        pos = data_start + len as usize;
                    },
                    None => {
                        return None;
                    },
                }
            } else if wire_type == 1 {
                if end - after_key < 8 {
                    return None;
                }
                pos = after_key + 8;
            } else if wire_type == 5 {
                if end - after_key < 4 {
                    return None;
                }
                pos = after_key + 4;
            } else {
                return None;
            }
            if pos > end {
                return None;
            }
        }
    }
    proof {
        assert forall|o: (u32, Seq<char>, u64)| b.subrange(start as int, end as int) == ownership_bytes(o)
            implies (tile_id, country_id@, timestamp_ns) == o by {
            let k = choose|k: int| 0 <= k <= 3 && b.subrange(pos as int, end as int) == rest_after(o, k) && (tile_id, country_id@, timestamp_ns) == #[trigger] fields_after(o, k);
            lemma_next_field(o, k);
            if next_field(o, k) <= 3 {
                assert(field_part(o, next_field(o, k)).len() > 0);
            }
        }
    }
    Some(Ownership { tile_id, country_id, timestamp_ns })
}

/// What the bytes of a snapshot hold at `pos`, when from `pos` on they are
/// the entries from the `i`-th on: nothing when there is no such entry, else
/// the entry key, the length of the record, the record, and the entries after.
proof fn lemma_entry_at(b: Seq<u8>, pos: int, os: Seq<(u32, Seq<char>, u64)>, i: int)
    requires
        0 <= i <= os.len(),
        0 <= pos <= b.len(),
        b.len() <= usize::MAX,
        b.subrange(pos, b.len() as int) == state_bytes(os.subrange(i, os.len() as int)),
    ensures
        (pos == b.len()) == (i == os.len()),
        i < os.len() ==> {
            let record = ownership_bytes(os[i]);
            let p = pos + 1 + varint_bytes(record.len()).len();
            &&& varint_at(b, pos, 10)
            &&& record.len() <= u64::MAX
            &&& varint_at(b, pos + 1, record.len() as u64)
            &&& p + record.len() <= b.len()
            &&& b.subrange(p, p + record.len()) == record
            &&& b.subrange(p + record.len(), b.len() as int) == state_bytes(
                os.subrange(i + 1, os.len() as int),
            )
        },
{
    let n = b.len() as int;
    let rest = os.subrange(i, os.len() as int);
    if i < os.len() {
        let record = ownership_bytes(os[i]);
        let v = varint_bytes(record.len());
        let after = state_bytes(os.subrange(i + 1, os.len() as int));
        assert(rest[0] == os[i]);
        assert(rest.drop_first() =~= os.subrange(i + 1, os.len() as int));
        assert(state_bytes(rest) =~= seq![10u8] + (v + (record + after)));
        lemma_split_at(b, pos, n, seq![10u8], v + (record + after));
        lemma_split_at(b, pos + 1, n, v, record + after);
        lemma_split_at(b, pos + 1 + v.len(), n, record, after);
        lemma_varint_small(10);
        lemma_varint_nonempty(record.len());
    } else {
        assert(rest.len() == 0);
        assert(b.subrange(pos, n).len() == 0);
    }
}

/// Decodes a snapshot. Entries may be interleaved with fields of other
/// numbers, which are skipped by their wire type. On the bytes of a snapshot,
/// it gives back its records, in order.
#[verifier::rlimit(100)]
pub fn decode_ownership_state(bytes: &[u8]) -> (r: Option<OwnershipState>)
    ensures
        forall|os: Seq<(u32, Seq<char>, u64)>|
            bytes@ == state_bytes(os) ==> (r matches Some(s) && state_view(s) == os),
{
    let ghost b = bytes@;
    let n = bytes.len();
    let mut ownerships: Vec<Ownership> = Vec::new();
    let mut pos: usize = 0;
    proof {
        assert forall|os: Seq<(u32, Seq<char>, u64)>| b == state_bytes(os) implies exists|i: int|
            0 <= i <= os.len() && b.subrange(pos as int, n as int) == state_bytes(
                os.subrange(i, os.len() as int),
            ) && records(ownerships@) == #[trigger] os.subrange(0, i) by {
            assert(os.subrange(0, os.len() as int) =~= os);
            assert(b.subrange(0, n as int) =~= b);
            assert(records(ownerships@) =~= os.subrange(0, 0));
        }
    }
    while pos < n
        invariant
            pos <= n,
            n == b.len(),
            b == bytes@,
            forall|os: Seq<(u32, Seq<char>, u64)>|
                b == state_bytes(os) ==> exists|i: int|
                    0 <= i <= os.len() && b.subrange(pos as int, n as int) == state_bytes(
                        os.subrange(i, os.len() as int),
                    ) && records(ownerships@)
                        == #[trigger] os.subrange(0, i),
        decreases n - pos,
    {
        let ghost old_pos = pos as int;
        let ghost old_out = ownerships@;
        let ghost index = |os: Seq<(u32, Seq<char>, u64)>| choose|i: int|
            0 <= i <= os.len() && b.subrange(old_pos, n as int) == state_bytes(
                os.subrange(i, os.len() as int),
            ) && records(old_out) == #[trigger] os.subrange(0, i);
        let (key, left) = match read_varint(bytes, pos) {
            Some(p) => p,
            None => {
                proof {
                    assert forall|os: Seq<(u32, Seq<char>, u64)>| b == state_bytes(os) implies false by {
                        lemma_entry_at(b, old_pos, os, index(os));
                    }
                }
                return None;
            },
        };
        let after_key = n - left;
        if key == 10 {
            let (len, left2) = match read_varint(bytes, after_key) {
                Some(p) => p,
                None => {
                    proof {
                        assert forall|os: Seq<(u32, Seq<char>, u64)>| b == state_bytes(os) implies false by {
                            lemma_entry_at(b, old_pos, os, index(os));
                        }
                    }
                    return None;
                },
            };
            let record_start = n - left2;
            if len > (n - record_start) as u64 {
                proof {
                    assert forall|os: Seq<(u32, Seq<char>, u64)>| b == state_bytes(os) implies false by {
                        lemma_entry_at(b, old_pos, os, index(os));
                    }
                }
                return None;
            }
            let record_end = record_start + len as usize;
            match decode_ownership(bytes, record_start, record_end) {
                Some(o) => {
                    ownerships.push(o);
                },
                None => {
                    proof {
                        assert forall|os: Seq<(u32, Seq<char>, u64)>| b == state_bytes(os) implies false by {
                            lemma_entry_at(b, old_pos, os, index(os));
                        }
                    }
                    return None;
                },
            }
            pos = record_end;
            proof {
                assert forall|os: Seq<(u32, Seq<char>, u64)>| b == state_bytes(os) implies exists|i: int|
                    0 <= i <= os.len() && b.subrange(pos as int, n as int) == state_bytes(
                        os.subrange(i, os.len() as int),
                    ) && records(ownerships@)
                        == #[trigger] os.subrange(0, i) by {
                    let i = index(os);
                    lemma_entry_at(b, old_pos, os, i);
                    assert(records(ownerships@) =~= os.subrange(0, i + 1));
                }
            }
        } else {
            proof {
                assert forall|os: Seq<(u32, Seq<char>, u64)>| b == state_bytes(os) implies false by {
                    lemma_entry_at(b, old_pos, os, index(os));
                }
            }
            let field = key / 8;
            let wire_type = key % 8;
            if field <= 1 {
                return None;
            }
            if wire_type == 0 {
                match read_varint(bytes, after_key) {
                    Some((_, left2)) => {
                        pos = n - left2;
                    },
                    None => {
                        return None;
                    },
                }
            } else if wire_type == 2 {
                match read_varint(bytes, after_key) {
                    Some((len, left2)) => {
                        let data_start = n - left2;
                        if len > (n - data_start) as u64 {
                            return None;
                        }
                        pos = data_start + len as usize;
                    },
                    None => {
                        return None;
                    },
                }
            } else if wire_type == 1 {
                if n - after_key < 8 {
                    return None;
                }
                pos = after_key + 8;
            } else if wire_type == 5 {
                if n - after_key < 4 {
                    return None;
                }
                pos = after_key + 4;
            } else {
                return None;
            }
        }
    }
    proof {
        assert forall|os: Seq<(u32, Seq<char>, u64)>| b == state_bytes(os) implies records(ownerships@) == os by {
            let i = choose|i: int|
                0 <= i <= os.len() && b.subrange(pos as int, n as int) == state_bytes(
                    os.subrange(i, os.len() as int),
                ) && records(ownerships@) == #[trigger] os.subrange(0, i);
            lemma_entry_at(b, pos as int, os, i);
            assert(os.subrange(0, os.len() as int) =~= os);
        }
    }
    Some(OwnershipState { ownerships })
}

/// Encoding a snapshot and decoding the bytes gives back the same records:
/// given what the decoder promises on the bytes the encoder wrote, the
/// decoded snapshot has the records of the encoded one, in the same order, and so
/// the same multiset of them.
pub proof fn lemma_snapshot_round_trip(snapshot: OwnershipState, decoded: Option<OwnershipState>)
    requires
        forall|os: Seq<(u32, Seq<char>, u64)>|
            state_bytes(state_view(snapshot)) == #[trigger] state_bytes(os) ==> (decoded matches Some(s)
                && state_view(s) == os),
    ensures
        decoded matches Some(s) && state_view(s) == state_view(snapshot) && state_view(
            s,
        ).to_multiset() == state_view(snapshot).to_multiset(),
{
    assert(state_bytes(state_view(snapshot)) == state_bytes(state_view(snapshot)));
}

} // verus!
