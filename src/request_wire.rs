//! Decoding of the flat messages the server reads (`ClickRequest`,
//! `BatchRequest`, `Click`): fields numbered from 1, each a varint or a text.
use vstd::prelude::*;
use vstd::utf8::{decode_utf8, encode_utf8};
use crate::model::{BatchRequest, Click, ClickRequest};
use crate::wire::{
    click_bytes, int32_field, lemma_split_at, lemma_text_part, lemma_varint_small, read_varint, text_field,
    text_from_utf8, varint_at, varint_bytes, varint_field, widen,
};

verus! {

broadcast use vstd::utf8::encode_utf8_valid_utf8, vstd::utf8::encode_utf8_decode_utf8;

/// The key byte of field `j` (numbered `j + 1`): a length-delimited key for a
/// text, a varint key otherwise.
pub open spec fn flat_key(text: bool, j: int) -> u8 {
    ((j + 1) * 8 + if text {
        2int
    } else {
        0int
    }) as u8
}

/// The bytes of field `j` of a flat message: the text or the number, by the
/// schema; nothing at the default.
pub open spec fn flat_part(schema: Seq<bool>, vals: Seq<(u64, Seq<char>)>, j: int) -> Seq<u8> {
    if schema[j] {
        text_field(flat_key(true, j), vals[j].1)
    } else {
        varint_field(flat_key(false, j), vals[j].0)
    }
}

/// The bytes of the fields from `k` on.
pub open spec fn flat_rest(schema: Seq<bool>, vals: Seq<(u64, Seq<char>)>, k: int) -> Seq<u8>
    decreases schema.len() - k,
{
    if k < 0 || k >= schema.len() {
        Seq::empty()
    } else {
        flat_part(schema, vals, k) + flat_rest(schema, vals, k + 1)
    }
}

/// The bytes of a flat message.
pub open spec fn flat_bytes(schema: Seq<bool>, vals: Seq<(u64, Seq<char>)>) -> Seq<u8> {
    flat_rest(schema, vals, 0)
}

/// `vals` fits the schema: one value per field (at most 15 fields), the
/// unused half of each at its default.
pub open spec fn shaped(schema: Seq<bool>, vals: Seq<(u64, Seq<char>)>) -> bool {
    &&& vals.len() == schema.len()
    &&& schema.len() <= 15
    &&& forall|j: int|
        0 <= j < schema.len() ==> (schema[j] ==> (#[trigger] vals[j]).0 == 0) && (!schema[j]
            ==> vals[j].1 == Seq::<char>::empty())
}

/// The values a decoder holds after the fields before `k`: those, and defaults.
pub open spec fn flat_after(vals: Seq<(u64, Seq<char>)>, k: int) -> Seq<(u64, Seq<char>)> {
    Seq::new(vals.len(), |j: int| if j < k { vals[j] } else { (0u64, Seq::<char>::empty()) })
}

/// The first field from `k` on that is not at its default; the number of
/// fields when there is none.
pub open spec fn flat_next(schema: Seq<bool>, vals: Seq<(u64, Seq<char>)>, k: int) -> int
    decreases schema.len() - k,
{
    if k < 0 || k >= schema.len() {
        schema.len() as int
    } else if flat_part(schema, vals, k).len() > 0 {
        k
    } else {
        flat_next(schema, vals, k + 1)
    }
}

proof fn lemma_flat_key(text: bool, j: int)
    requires
        0 <= j < 15,
    ensures
        flat_key(text, j) < 128,
        flat_key(text, j) / 8 == j + 1,
        flat_key(text, j) % 8 == (if text { 2int } else { 0int }),
{
    let c: int = if text { 2 } else { 0 };
    assert(((j + 1) * 8 + c) / 8 == j + 1 && ((j + 1) * 8 + c) % 8 == c) by (nonlinear_arith)
        requires
            0 <= c < 8,
            0 <= j,
    ;
}

proof fn lemma_flat_next(schema: Seq<bool>, vals: Seq<(u64, Seq<char>)>, k: int)
    requires
        shaped(schema, vals),
        0 <= k <= schema.len(),
    ensures
        k <= flat_next(schema, vals, k) <= schema.len(),
        flat_after(vals, flat_next(schema, vals, k)) == flat_after(vals, k),
        flat_next(schema, vals, k) == schema.len() ==> flat_rest(schema, vals, k) == Seq::<u8>::empty(),
        flat_next(schema, vals, k) < schema.len() ==> flat_rest(schema, vals, k) == flat_part(
            schema,
            vals,
            flat_next(schema, vals, k),
        ) + flat_rest(schema, vals, flat_next(schema, vals, k) + 1) && flat_part(
            schema,
            vals,
            flat_next(schema, vals, k),
        ).len() > 0,
    decreases schema.len() - k,
{
    if k < schema.len() && flat_part(schema, vals, k).len() == 0 {
        lemma_flat_next(schema, vals, k + 1);
        assert(flat_rest(schema, vals, k) =~= flat_rest(schema, vals, k + 1));
        assert(vals[k] == (0u64, Seq::<char>::empty())) by {
            lemma_text_part(vals[k].1);
            if schema[k] {
                if vals[k].1.len() > 0 {
                    assert(text_field(flat_key(true, k), vals[k].1).len() > 0);
                }
                assert(vals[k].1 =~= Seq::<char>::empty());
            } else {
                if vals[k].0 != 0 {
                    assert(varint_field(flat_key(false, k), vals[k].0).len() > 0);
                }
            }
        }
        assert(flat_after(vals, k + 1) =~= flat_after(vals, k));
    }
}

/// What the bytes of a flat message hold at `pos`, when from `pos` on they are
/// the fields from `k` on and one of them is not at its default: the key of
/// the next such field, its value, and then the fields after it.
proof fn lemma_flat_field_at(b: Seq<u8>, pos: int, end: int, schema: Seq<bool>, vals: Seq<(u64, Seq<char>)>, k: int)
    requires
        shaped(schema, vals),
        0 <= k <= schema.len(),
        0 <= pos < end <= b.len(),
        end <= usize::MAX,
        b.subrange(pos, end) == flat_rest(schema, vals, k),
    ensures
        ({
            let j = flat_next(schema, vals, k);
            let key = flat_key(schema[j], j);
            &&& k <= j < schema.len()
            &&& flat_after(vals, j) == flat_after(vals, k)
            &&& key < 128
            &&& key / 8 == j + 1
            &&& key % 8 == (if schema[j] { 2int } else { 0int })
            &&& varint_at(b, pos, key as u64)
            &&& varint_bytes(key as nat).len() == 1
            &&& !schema[j] ==> varint_at(b, pos + 1, vals[j].0) && pos + 1 + varint_bytes(
                vals[j].0 as nat,
            ).len() <= end && b.subrange(
                pos + 1 + varint_bytes(vals[j].0 as nat).len(),
                end,
            ) == flat_rest(schema, vals, j + 1)
            &&& schema[j] ==> {
                let t = encode_utf8(vals[j].1);
                let p = pos + 1 + varint_bytes(t.len()).len();
                &&& t.len() <= u64::MAX
                &&& varint_at(b, pos + 1, t.len() as u64)
                &&& p + t.len() <= end
                &&& b.subrange(p, p + t.len()) == t
                &&& b.subrange(p + t.len(), end) == flat_rest(schema, vals, j + 1)
            }
        }),
{
    lemma_flat_next(schema, vals, k);
    let j = flat_next(schema, vals, k);
    if j == schema.len() {
        assert(b.subrange(pos, end).len() == 0);
    }
    lemma_flat_key(schema[j], j);
    let key = flat_key(schema[j], j);
    lemma_varint_small(key as nat);
    let rest = flat_rest(schema, vals, j + 1);
    if schema[j] {
        lemma_text_part(vals[j].1);
        let t = encode_utf8(vals[j].1);
        let v = varint_bytes(t.len());
        assert(flat_rest(schema, vals, k) =~= seq![key] + (v + (t + rest)));
        lemma_split_at(b, pos, end, seq![key], v + (t + rest));
        lemma_split_at(b, pos + 1, end, v, t + rest);
        lemma_split_at(b, pos + 1 + v.len(), end, t, rest);
    } else {
        let v = varint_bytes(vals[j].0 as nat);
        assert(flat_rest(schema, vals, k) =~= seq![key] + (v + rest));
        lemma_split_at(b, pos, end, seq![key], v + rest);
        lemma_split_at(b, pos + 1, end, v, rest);
    }
    assert(b.subrange(pos, pos + 1) =~= seq![key]);
}

/// The values a decoder holds, as a sequence.
pub open spec fn held(nums: Seq<u64>, texts: Seq<String>) -> Seq<(u64, Seq<char>)> {
    Seq::new(nums.len(), |j: int| (nums[j], texts[j]@))
}

/// Decodes a flat message from the bytes in `[start, end)`: `schema[j]` says
/// whether field `j + 1` is a text. Fields may come in any order; a later value
/// of a field replaces an earlier one; a known field with another wire type
/// is refused; fields of other numbers are skipped by their wire type. On the
/// bytes of a message, it gives its values back.
#[verifier::rlimit(100)]
pub fn decode_flat(bytes: &[u8], start: usize, end: usize, schema: &Vec<bool>) -> (r: Option<(Vec<u64>, Vec<String>)>)
    requires
        start <= end <= bytes@.len(),
        schema@.len() <= 15,
    ensures
        forall|vals: Seq<(u64, Seq<char>)>|
            shaped(schema@, vals) && bytes@.subrange(start as int, end as int) == flat_bytes(
                schema@,
                vals,
            ) ==> (r matches Some(p) && p.0@.len() == vals.len() && p.1@.len() == vals.len()
                && held(p.0@, p.1@) == vals),
{
    let ghost b = bytes@;
    let ghost sc = schema@;
    let n = schema.len();
    let mut nums: Vec<u64> = Vec::new();
    let mut texts: Vec<String> = Vec::new();
    let mut i: usize = 0;
    while i < n
        invariant
            i <= n,
            n == sc.len(),
            nums@.len() == i,
            texts@.len() == i,
            forall|j: int| 0 <= j < i ==> #[trigger] nums@[j] == 0,
            forall|j: int| 0 <= j < i ==> (#[trigger] texts@[j])@ == Seq::<char>::empty(),
        decreases n - i,
    {
        nums.push(0);
        let empty = String::new();
        texts.push(empty);
        proof {
            assert(texts@[i as int]@ == Seq::<char>::empty());
            assert forall|j: int| 0 <= j < i + 1 implies (#[trigger] texts@[j])@ == Seq::<char>::empty() by {
                if j < i {
                    assert(texts@[j] == texts@.drop_last()[j]);
                }
            }
        }
        i = i + 1;
    }
    let mut pos: usize = start;
    proof {
        assert forall|vals: Seq<(u64, Seq<char>)>|
            shaped(sc, vals) && b.subrange(start as int, end as int) == flat_bytes(sc, vals) implies exists|k: int|
            0 <= k <= sc.len() && b.subrange(pos as int, end as int) == flat_rest(sc, vals, k)
                && held(nums@, texts@) == #[trigger] flat_after(vals, k) by {
            assert(held(nums@, texts@) =~= flat_after(vals, 0));
        }
    }
    while pos < end
        invariant
            start <= pos <= end <= b.len(),
            b == bytes@,
            sc == schema@,
            n == sc.len(),
            n <= 15,
            nums@.len() == n,
            texts@.len() == n,
            forall|vals: Seq<(u64, Seq<char>)>|
                shaped(sc, vals) && b.subrange(start as int, end as int) == flat_bytes(sc, vals)
                    ==> exists|k: int|
                    0 <= k <= sc.len() && b.subrange(pos as int, end as int) == flat_rest(sc, vals, k)
                        && held(nums@, texts@) == #[trigger] flat_after(vals, k),
        decreases end - pos,
    {
        let ghost old_pos = pos as int;
        let ghost old_held = held(nums@, texts@);
        let ghost old_nums = nums@;
        let ghost old_texts = texts@;
        let ghost stage = |vals: Seq<(u64, Seq<char>)>| choose|k: int|
            0 <= k <= sc.len() && b.subrange(old_pos, end as int) == flat_rest(sc, vals, k) && old_held
                == #[trigger] flat_after(vals, k);
        let (key, left) = match read_varint(bytes, pos) {
            Some(p) => p,
            None => {
                proof {
                    assert forall|vals: Seq<(u64, Seq<char>)>|
                        shaped(sc, vals) && b.subrange(start as int, end as int) == flat_bytes(sc, vals) implies false by {
                        lemma_flat_field_at(b, old_pos, end as int, sc, vals, stage(vals));
                    }
                }
                return None;
            },
        };
        let after_key = bytes.len() - left;
        let field = key / 8;
        let wire_type = key % 8;
        proof {
            assert forall|vals: Seq<(u64, Seq<char>)>|
                shaped(sc, vals) && b.subrange(start as int, end as int) == flat_bytes(sc, vals) implies {
                let j = flat_next(sc, vals, stage(vals));
                &&& 1 <= field <= n
                &&& field == j + 1
                &&& wire_type == (if sc[j] { 2int } else { 0int })
                &&& after_key == old_pos + 1
            } by {
                lemma_flat_field_at(b, old_pos, end as int, sc, vals, stage(vals));
            }
        }
        if after_key > end {
            return None;
        }
        if field >= 1 && field <= n as u64 {
            let j = (field - 1) as usize;
            if schema[j] {
                if wire_type != 2 {
                    return None;
                }
                let (len, left2) = match read_varint(bytes, after_key) {
                    Some(p) => p,
                    None => {
                        proof {
                            assert forall|vals: Seq<(u64, Seq<char>)>|
                                shaped(sc, vals) && b.subrange(start as int, end as int) == flat_bytes(sc, vals) implies false by {
                                lemma_flat_field_at(b, old_pos, end as int, sc, vals, stage(vals));
                            }
                        }
                        return None;
                    },
                };
                let text_start = bytes.len() - left2;
                if text_start > end || len > (end - text_start) as u64 {
                    proof {
                        assert forall|vals: Seq<(u64, Seq<char>)>|
                            shaped(sc, vals) && b.subrange(start as int, end as int) == flat_bytes(sc, vals) implies false by {
                            lemma_flat_field_at(b, old_pos, end as int, sc, vals, stage(vals));
                        }
                    }
                    return None;
                }
                let text_end = text_start + len as usize;
                match text_from_utf8(bytes, text_start, text_end) {
                    Some(text) => {
                        texts.set(j, text);
                    },
                    None => {
                        proof {
                            assert forall|vals: Seq<(u64, Seq<char>)>|
                                shaped(sc, vals) && b.subrange(start as int, end as int) == flat_bytes(sc, vals) implies false by {
                                lemma_flat_field_at(b, old_pos, end as int, sc, vals, stage(vals));
                            }
                        }
                        return None;
                    },
                }
                pos = text_end;
            } else {
                if wire_type != 0 {
                    return None;
                }
                let (value, left2) = match read_varint(bytes, after_key) {
                    Some(p) => p,
                    None => {
                        proof {
                            assert forall|vals: Seq<(u64, Seq<char>)>|
                                shaped(sc, vals) && b.subrange(start as int, end as int) == flat_bytes(sc, vals) implies false by {
                                lemma_flat_field_at(b, old_pos, end as int, sc, vals, stage(vals));
                            }
                        }
                        return None;
                    },
                };
                let next = bytes.len() - left2;
                if next > end {
                    proof {
                        assert forall|vals: Seq<(u64, Seq<char>)>|
                            shaped(sc, vals) && b.subrange(start as int, end as int) == flat_bytes(sc, vals) implies false by {
                            lemma_flat_field_at(b, old_pos, end as int, sc, vals, stage(vals));
                        }
                    }
                    return None;
                }
                nums.set(j, value);
                pos = next;
            }
            proof {
                assert forall|vals: Seq<(u64, Seq<char>)>|
                    shaped(sc, vals) && b.subrange(start as int, end as int) == flat_bytes(sc, vals) implies exists|k: int|
                    0 <= k <= sc.len() && b.subrange(pos as int, end as int) == flat_rest(sc, vals, k)
                        && held(nums@, texts@) == #[trigger] flat_after(vals, k) by {
                    let k = stage(vals);
                    lemma_flat_field_at(b, old_pos, end as int, sc, vals, k);
                    let jj = flat_next(sc, vals, k);
                    assert(jj == j);
                    assert(old_held == flat_after(vals, jj));
                    assert forall|m: int| 0 <= m < n implies #[trigger] held(nums@, texts@)[m] == flat_after(vals, jj + 1)[m] by {
                        assert(old_held[m] == (old_nums[m], old_texts[m]@));
                        if m != jj {
                            assert(nums@[m] == old_nums[m]);
                            assert(texts@[m] == old_texts[m]);
                        } else {
                            assert(old_held[m] == (0u64, Seq::<char>::empty()));
                            assert(vals[m] == vals[jj]);
                        }
                    }
                    assert(held(nums@, texts@) =~= flat_after(vals, jj + 1));
                }
            }
        } else {
            proof {
                assert forall|vals: Seq<(u64, Seq<char>)>|
                    shaped(sc, vals) && b.subrange(start as int, end as int) == flat_bytes(sc, vals) implies false by {
                    let k = stage(vals);
                    lemma_flat_field_at(b, old_pos, end as int, sc, vals, k);
                    let jj = flat_next(sc, vals, k);
                    let kk = flat_key(sc[jj], jj);
                    assert(key == kk as u64);
                    assert(field == (kk / 8) as u64);
                }
            }
            if field == 0 {
                return None;
            }
            if wire_type == 0 {
                match read_varint(bytes, after_key) {
                    Some((_, left2)) => {
                        pos = bytes.len() - left2;
                    },
                    None => {
                        return None;
                    },
                }
            } else if wire_type == 2 {
                match read_varint(bytes, after_key) {
                    Some((len, left2)) => {
                        let data_start = bytes.len() - left2;
                        if data_start > end || len > (end - data_start) as u64 {
                            return None;
                        }
                        pos = data_start + len as usize;
                    },
                    None => {
                        return None;
                    },
                }
            } else if wire_type == 1 {
                if end - after_key < 8 {
                    return None;
                }
                pos = after_key + 8;
            } else if wire_type == 5 {
                if end - after_key < 4 {
                    return None;
                }
                pos = after_key + 4;
            } else {
                return None;
            }
            if pos > end {
                return None;
            }
        }
    }
    proof {
        assert forall|vals: Seq<(u64, Seq<char>)>|
            shaped(sc, vals) && b.subrange(start as int, end as int) == flat_bytes(sc, vals) implies held(nums@, texts@) == vals by {
            let k = choose|k: int|
                0 <= k <= sc.len() && b.subrange(pos as int, end as int) == flat_rest(sc, vals, k)
                    && held(nums@, texts@) == #[trigger] flat_after(vals, k);
            lemma_flat_next(sc, vals, k);
            assert(flat_after(vals, sc.len() as int) =~= vals);
        }
    }
    Some((nums, texts))
}

/// The wire bytes of a click request (`tile_id = 1`, `country_id = 2`).
pub open spec fn click_request_bytes(tile_id: i32, country_id: Seq<char>) -> Seq<u8> {
    int32_field(8, tile_id) + text_field(18, country_id)
}

/// The wire bytes of a batch request (`start_tile_id = 1`, `end_tile_id = 2`).
pub open spec fn batch_request_bytes(start_tile_id: i32, end_tile_id: i32) -> Seq<u8> {
    int32_field(8, start_tile_id) + int32_field(16, end_tile_id)
}

proof fn lemma_narrow_widened(v: i32)
    ensures
        #[verifier::truncate] (widen(v) as i32) == v,
{
    assert(#[verifier::truncate] (widen(v) as i32) == v) by (bit_vector);
}

fn narrow(v: u64) -> (r: i32)
    ensures
        r == #[verifier::truncate] (v as i32),
{
    #[verifier::truncate] (v as i32)
}

/// Decodes a click request; `None` on bytes that are not one. On the bytes of
/// a click request, it gives that request back.
pub fn decode_click_request(bytes: &[u8]) -> (r: Option<ClickRequest>)
    ensures
        forall|tile_id: i32, country_id: Seq<char>|
            bytes@ == #[trigger] click_request_bytes(tile_id, country_id) ==> (r matches Some(q)
                && q.tile_id == tile_id && q.country_id@ == country_id),
{
    let schema = vec![false, true];
    match decode_flat(bytes, 0, bytes.len(), &schema) {
        Some((nums, texts)) => {
            if nums.len() != 2 || texts.len() != 2 {
                proof {
                    lemma_click_request_flat(bytes@, schema@);
                }
                return None;
            }
            let request = ClickRequest { tile_id: narrow(nums[0]), country_id: texts[1].clone() };
            proof {
                lemma_click_request_flat(bytes@, schema@);
                assert forall|tile_id: i32, country_id: Seq<char>|
                    bytes@ == #[trigger] click_request_bytes(tile_id, country_id) implies request.tile_id == tile_id
                    && request.country_id@ == country_id by {
                    let vals = seq![(widen(tile_id), Seq::<char>::empty()), (0u64, country_id)];
                    assert(held(nums@, texts@)[0] == vals[0]);
                    assert(held(nums@, texts@)[1] == vals[1]);
                    lemma_narrow_widened(tile_id);
                }
            }
            Some(request)
        },
        None => {
            proof {
                lemma_click_request_flat(bytes@, schema@);
            }
            None
        },
    }
}

proof fn lemma_click_request_flat(b: Seq<u8>, schema: Seq<bool>)
    requires
        schema == seq![false, true],
    ensures
        forall|tile_id: i32, country_id: Seq<char>|
            b == #[trigger] click_request_bytes(tile_id, country_id) ==> {
                let vals = seq![(widen(tile_id), Seq::<char>::empty()), (0u64, country_id)];
                &&& shaped(schema, vals)
                &&& b.subrange(0, b.len() as int) == flat_bytes(schema, vals)
            },
{
    assert forall|tile_id: i32, country_id: Seq<char>|
        b == #[trigger] click_request_bytes(tile_id, country_id) implies {
            let vals = seq![(widen(tile_id), Seq::<char>::empty()), (0u64, country_id)];
            &&& shaped(schema, vals)
            &&& b.subrange(0, b.len() as int) == flat_bytes(schema, vals)
        } by {
        let vals = seq![(widen(tile_id), Seq::<char>::empty()), (0u64, country_id)];
        assert(flat_key(false, 0) == 8u8);
        assert(flat_key(true, 1) == 18u8);
        assert(flat_rest(schema, vals, 2) == Seq::<u8>::empty());
        assert(flat_rest(schema, vals, 1) == flat_part(schema, vals, 1) + flat_rest(schema, vals, 2));
        assert(flat_bytes(schema, vals) =~= click_request_bytes(tile_id, country_id));
        assert(b.subrange(0, b.len() as int) =~= b);
    }
}

proof fn lemma_batch_request_flat(b: Seq<u8>, schema: Seq<bool>)
    requires
        schema == seq![false, false],
    ensures
        forall|start_tile_id: i32, end_tile_id: i32|
            b == #[trigger] batch_request_bytes(start_tile_id, end_tile_id) ==> {
                let vals = seq![(widen(start_tile_id), Seq::<char>::empty()), (widen(end_tile_id), Seq::<char>::empty())];
                &&& shaped(schema, vals)
                &&& b.subrange(0, b.len() as int) == flat_bytes(schema, vals)
            },
{
    assert forall|start_tile_id: i32, end_tile_id: i32|
        b == #[trigger] batch_request_bytes(start_tile_id, end_tile_id) implies {
            let vals = seq![(widen(start_tile_id), Seq::<char>::empty()), (widen(end_tile_id), Seq::<char>::empty())];
            &&& shaped(schema, vals)
            &&& b.subrange(0, b.len() as int) == flat_bytes(schema, vals)
        } by {
        let vals = seq![(widen(start_tile_id), Seq::<char>::empty()), (widen(end_tile_id), Seq::<char>::empty())];
        assert(flat_key(false, 0) == 8u8);
        assert(flat_key(false, 1) == 16u8);
        assert(flat_rest(schema, vals, 2) == Seq::<u8>::empty());
        assert(flat_rest(schema, vals, 1) == flat_part(schema, vals, 1) + flat_rest(schema, vals, 2));
        assert(flat_bytes(schema, vals) =~= batch_request_bytes(start_tile_id, end_tile_id));
        assert(b.subrange(0, b.len() as int) =~= b);
    }
}

/// Decodes a batch request; `None` on bytes that are not one. On the bytes of
/// a batch request, it gives that request back.
pub fn decode_batch_request(bytes: &[u8]) -> (r: Option<BatchRequest>)
    ensures
        forall|start_tile_id: i32, end_tile_id: i32|
            bytes@ == #[trigger] batch_request_bytes(start_tile_id, end_tile_id) ==> (r matches Some(q)
                && q.start_tile_id == start_tile_id && q.end_tile_id == end_tile_id),
{
    let schema = vec![false, false];
    proof {
        lemma_batch_request_flat(bytes@, schema@);
    }
    match decode_flat(bytes, 0, bytes.len(), &schema) {
        Some((nums, texts)) => {
            if nums.len() != 2 {
                return None;
            }
            let request = BatchRequest { start_tile_id: narrow(nums[0]), end_tile_id: narrow(nums[1]) };
            proof {
                assert forall|start_tile_id: i32, end_tile_id: i32|
                    bytes@ == #[trigger] batch_request_bytes(start_tile_id, end_tile_id) implies request.start_tile_id
                    == start_tile_id && request.end_tile_id == end_tile_id by {
                    let vals = seq![(widen(start_tile_id), Seq::<char>::empty()), (widen(end_tile_id), Seq::<char>::empty())];
                    assert(held(nums@, texts@)[0] == vals[0]);
                    assert(held(nums@, texts@)[1] == vals[1]);
                    lemma_narrow_widened(start_tile_id);
                    lemma_narrow_widened(end_tile_id);
                }
            }
            Some(request)
        },
        None => None,
    }
}

proof fn lemma_click_flat(b: Seq<u8>, schema: Seq<bool>)
    requires
        schema == seq![false, true, false, true],
    ensures
        forall|c: Click|
            b == #[trigger] click_bytes(c) ==> {
                let vals = seq![
                    (widen(c.tile_id), Seq::<char>::empty()),
                    (0u64, c.country_id@),
                    (c.timestamp_ns, Seq::<char>::empty()),
                    (0u64, c.click_id@),
                ];
                &&& shaped(schema, vals)
                &&& b.subrange(0, b.len() as int) == flat_bytes(schema, vals)
            },
{
    assert forall|c: Click| b == #[trigger] click_bytes(c) implies {
        let vals = seq![
            (widen(c.tile_id), Seq::<char>::empty()),
            (0u64, c.country_id@),
            (c.timestamp_ns, Seq::<char>::empty()),
            (0u64, c.click_id@),
        ];
        &&& shaped(schema, vals)
        &&& b.subrange(0, b.len() as int) == flat_bytes(schema, vals)
    } by {
        let vals = seq![
            (widen(c.tile_id), Seq::<char>::empty()),
            (0u64, c.country_id@),
            (c.timestamp_ns, Seq::<char>::empty()),
            (0u64, c.click_id@),
        ];
        assert(flat_key(false, 0) == 8u8);
        assert(flat_key(true, 1) == 18u8);
        assert(flat_key(false, 2) == 24u8);
        assert(flat_key(true, 3) == 34u8);
        assert(flat_rest(schema, vals, 4) == Seq::<u8>::empty());
        assert(flat_rest(schema, vals, 3) == flat_part(schema, vals, 3) + flat_rest(schema, vals, 4));
        assert(flat_rest(schema, vals, 2) == flat_part(schema, vals, 2) + flat_rest(schema, vals, 3));
        assert(flat_rest(schema, vals, 1) == flat_part(schema, vals, 1) + flat_rest(schema, vals, 2));
        assert(flat_bytes(schema, vals) =~= click_bytes(c));
        assert(b.subrange(0, b.len() as int) =~= b);
    }
}

/// Decodes a click as published on the click log; `None` on bytes that are
/// not one. On the bytes of a click, it gives that click back.
pub fn decode_click(bytes: &[u8]) -> (r: Option<Click>)
    ensures
        forall|c: Click|
            bytes@ == #[trigger] click_bytes(c) ==> (r matches Some(d) && d.tile_id == c.tile_id
                && d.country_id@ == c.country_id@ && d.timestamp_ns == c.timestamp_ns && d.click_id@
                == c.click_id@),
{
    let schema = vec![false, true, false, true];
    proof {
        lemma_click_flat(bytes@, schema@);
    }
    match decode_flat(bytes, 0, bytes.len(), &schema) {
        Some((nums, texts)) => {
            if nums.len() != 4 || texts.len() != 4 {
                return None;
            }
            let click = Click {
                tile_id: narrow(nums[0]),
                country_id: texts[1].clone(),
                timestamp_ns: nums[2],
                click_id: texts[3].clone(),
            };
            proof {
                assert forall|c: Click| bytes@ == #[trigger] click_bytes(c) implies click.tile_id == c.tile_id
                    && click.country_id@ == c.country_id@ && click.timestamp_ns == c.timestamp_ns
                    && click.click_id@ == c.click_id@ by {
                    let vals = seq![
                        (widen(c.tile_id), Seq::<char>::empty()),
                        (0u64, c.country_id@),
                        (c.timestamp_ns, Seq::<char>::empty()),
                        (0u64, c.click_id@),
                    ];
                    assert(held(nums@, texts@)[0] == vals[0]);
                    assert(held(nums@, texts@)[1] == vals[1]);
                    assert(held(nums@, texts@)[2] == vals[2]);
                    assert(held(nums@, texts@)[3] == vals[3]);
                    lemma_narrow_widened(c.tile_id);
                }
            }
            Some(click)
        },
        None => None,
    }
}

} // verus!
