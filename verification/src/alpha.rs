//! Coding of the eight-byte alpha plane of BC3, BC4 and BC5 blocks: two
//! endpoint bytes predicted from their neighbours, and sixteen 3-bit indices
//! coded against a move-to-front dictionary of recent index words or as a
//! chain of differences in zigzag order.
use vstd::prelude::*;
use crate::block::{Layout, lemma_p256_small, read_u16, u16_at};
use crate::color::{blocks, dcoder_of, coder_of, sized};
use crate::range::{Coder, DCoder, DecState, EncState, Encoder, Decoder, Model, ModelView, bank_get, bank_inv, bank_put,
    bank_view, c_put, d_get, model_init, new_bank, p256};
use crate::types::{Error, Result};

verus! {

/// Model of the residual of the first endpoint.
pub const A_FIRST_END: usize = 0;
/// Model of the difference between the endpoints.
pub const A_SECOND_END: usize = 1;
/// Model of the first index of a block coded without the dictionary.
pub const A_FIRST: usize = 2;
/// Model of the choice to code a block against the dictionary.
pub const A_USE_DICT: usize = 3;
/// Model of the dictionary position.
pub const A_POSITION: usize = 4;
/// First of the 24 models of index differences, by endpoint spread and
/// previous index.
pub const A_INDICES: usize = 5;
/// First of the 16 models of the 3-bit differences from a dictionary word.
pub const A_DELTA: usize = 29;
/// Number of alpha models.
pub const A_MODELS: usize = 45;

/// The low 48 bits, which hold the sixteen 3-bit indices.
pub const MASK48: u64 = 0xffff_ffff_ffff;

/// Symbol counts of the alpha models.
pub open spec fn alpha_sizes() -> Seq<usize> {
    Seq::new(45, |i: int| if i < 2 || i == 4 { 256usize } else if i == 3 { 2usize } else { 8usize })
}

/// Fresh alpha models.
pub open spec fn alpha_models() -> Seq<ModelView> {
    Seq::new(45, |i: int| model_init(alpha_sizes()[i] as int))
}

/// Byte offset of the `k`-th block, in storage order.
pub open spec fn alpha_pos(l: Layout, k: int) -> int {
    k * l.stride + l.offset
}

/// The index word with its three 16-bit words in stored order, most
/// significant first.
pub open spec fn packed(s: Seq<u8>, at: int) -> u64 {
    (u16_at(s, at + 2) as int * 0x1_0000_0000int + u16_at(s, at + 4) as int * 65536 + u16_at(s, at + 6) as int) as u64
}

/// The index word as a little-endian 48-bit number.
pub open spec fn linear(s: Seq<u8>, at: int) -> u64 {
    (u16_at(s, at + 6) as int * 0x1_0000_0000int + u16_at(s, at + 4) as int * 65536 + u16_at(s, at + 2) as int) as u64
}

/// Exchange the first and third 16-bit words of a 48-bit word.
pub open spec fn swap_words(v: u64) -> u64 {
    ((v & 65535u64) << 32u64) | (v & 0xffff0000u64) | ((v >> 32u64) & 65535u64)
}

/// Byte `j` of the little-endian encoding of `v`.
pub open spec fn byte64(v: u64, j: int) -> u8 {
    ((v as int / p256(j as nat)) % 256) as u8
}

/// Store the low six bytes of `v` after the two endpoint bytes at `at`.
pub open spec fn store(b: Seq<u8>, at: int, v: u64) -> Seq<u8> {
    b.update(at + 2, byte64(v, 0)).update(at + 3, byte64(v, 1)).update(at + 4, byte64(v, 2)).update(at + 5, byte64(v, 3)).update(
        at + 6,
        byte64(v, 4),
    ).update(at + 7, byte64(v, 5))
}

/// Index model group by the spread of the endpoints.
pub open spec fn bucket(a: u8, b: u8) -> int {
    let d = if a >= b { a - b } else { b - a };
    if d < 8 {
        0
    } else if d < 32 {
        8
    } else {
        16
    }
}

/// Predictor of the first endpoint: the previous block's first endpoint,
/// corrected by the gradient of the row above when there is one.
pub open spec fn reference(data: Seq<u8>, at: int, columns: int, stride: int, x: int, y: int, previous: int) -> u8 {
    let r = if y > 0 {
        let up = data[at - columns * stride] as int;
        if x > 0 { previous + up - data[at - columns * stride - stride] as int } else { up }
    } else {
        previous
    };
    (if r < 0 { 0 } else if r > 255 { 255 } else { r }) as u8
}

/// The first-endpoint predictor of a block: on the top row the previous
/// block's first endpoint, in the first column the upper block's, and
/// otherwise the gradient previous + upper - upper-left; always clamped to
/// a byte.
pub proof fn lemma_reference_law(data: Seq<u8>, at: int, columns: int, stride: int, x: int, y: int, previous: int)
    ensures
        ({
            let r = reference(data, at, columns, stride, x, y, previous) as int;
            let up = data[at - columns * stride] as int;
            let left_up = data[at - columns * stride - stride] as int;
            &&& y <= 0 && 0 <= previous <= 255 ==> r == previous
            &&& y <= 0 && previous < 0 ==> r == 0
            &&& y <= 0 && previous > 255 ==> r == 255
            &&& y > 0 && x <= 0 ==> r == up
            &&& y > 0 && x > 0 && 0 <= previous + up - left_up <= 255 ==> r + left_up == previous + up
            &&& y > 0 && x > 0 && previous + up - left_up < 0 ==> r == 0
            &&& y > 0 && x > 0 && previous + up - left_up > 255 ==> r == 255
        }),
{
}

/// Promoting entry `i` moves it to index `i / 2` and shifts the entries
/// from there up to `i` back by one; all others stay.
pub proof fn lemma_promote_law(d: Seq<u64>, i: int)
    requires
        0 <= i < d.len(),
    ensures
        promote(d, i).len() == d.len(),
        promote(d, i)[i / 2] == d[i],
        forall|j: int| (0 <= j < i / 2 || i < j < d.len()) ==> #[trigger] promote(d, i)[j] == d[j],
        forall|j: int| i / 2 < j <= i ==> #[trigger] promote(d, i)[j] == d[j - 1],
{
}

/// Inserting a word puts it at index 128, shifts the entries from 128 on
/// back by one and drops the last; the first 128 stay.
pub proof fn lemma_insert_law(d: Seq<u64>, v: u64)
    requires
        d.len() == 256,
    ensures
        insert(d, v).len() == 256,
        insert(d, v)[128] == v,
        forall|j: int| 0 <= j < 128 ==> #[trigger] insert(d, v)[j] == d[j],
        forall|j: int| 129 <= j < 256 ==> #[trigger] insert(d, v)[j] == d[j - 1],
{
}

/// Indices are visited row by row in a zigzag: even rows of the 4x4 block
/// left to right, odd rows right to left, each position once.
pub proof fn lemma_zig_law(i: int)
    requires
        0 <= i < 16,
    ensures
        0 <= zig(i) < 16,
        zig(i) / 4 == i / 4,
        (i / 4) % 2 == 0 ==> zig(i) % 4 == i % 4,
        (i / 4) % 2 == 1 ==> zig(i) % 4 == 3 - i % 4,
        zig(zig(i)) == i,
{
}

/// The index model group depends on the spread of the endpoints alone,
/// not on their order: under 8, under 32, or wider.
pub proof fn lemma_bucket_law(a: u8, b: u8)
    ensures
        bucket(a, b) == bucket(b, a),
        (a - b < 8 && b - a < 8) <==> bucket(a, b) == 0,
        (a - b >= 32 || b - a >= 32) <==> bucket(a, b) == 16,
        bucket(a, b) == 0 || bucket(a, b) == 8 || bucket(a, b) == 16,
{
}

/// Move entry `i` halfway to the front.
pub open spec fn promote(d: Seq<u64>, i: int) -> Seq<u64> {
    if i == 0 {
        d
    } else {
        d.take(i / 2) + seq![d[i]] + d.subrange(i / 2, i) + d.skip(i + 1)
    }
}

/// Insert `v` in the middle, dropping the last entry.
pub open spec fn insert(d: Seq<u64>, v: u64) -> Seq<u64> {
    d.take(128) + seq![v] + d.subrange(128, 255)
}

/// Number of set bits.
pub open spec fn popcount64(v: u64) -> nat
    decreases v,
{
    if v == 0 {
        0
    } else {
        popcount64(v / 2) + (v % 2) as nat
    }
}

/// Search the dictionary from entry `i` for a word within four changed
/// indices bits of `value`, keeping the closest so far. Among equally close
/// words the larger one wins; an exact match ends the search, except that
/// the all-ones pattern keeps searching for the initial filler entry.
pub open spec fn nearest_from(d: Seq<u64>, value: u64, i: int, best: Option<int>, dist: nat, cand: u64) -> Option<int>
    decreases d.len() - i,
{
    if i >= d.len() || i < 0 {
        best
    } else {
        let e = d[i];
        let err = popcount64((value ^ e) & MASK48);
        if err < dist || (err == dist && best is Some && e > cand) {
            if err == 0 && (value != MASK48 || e == u64::MAX) {
                Some(i)
            } else {
                nearest_from(d, value, i + 1, Some(i), err, e)
            }
        } else {
            nearest_from(d, value, i + 1, best, dist, cand)
        }
    }
}

/// The dictionary word a block is coded against, if any.
pub open spec fn nearest(d: Seq<u64>, value: u64) -> Option<int> {
    nearest_from(d, value, 0, None, 5, 0)
}

/// Differing index bits between a block's word and a dictionary entry.
pub open spec fn index_error(d: Seq<u64>, value: u64, j: int) -> nat {
    popcount64((value ^ d[j]) & MASK48)
}

proof fn lemma_nearest_from(d: Seq<u64>, value: u64, i: int, best: Option<int>, dist: nat, cand: u64)
    requires
        0 <= i <= d.len(),
        dist <= 5,
        best is None ==> dist == 5,
        best is Some ==> 0 <= best->0 < i && index_error(d, value, best->0) == dist && dist <= 4 && cand == d[best->0],
        forall|j: int| 0 <= j < i ==> #[trigger] index_error(d, value, j) >= dist,
        best is Some ==> forall|j: int| 0 <= j < i && #[trigger] index_error(d, value, j) == dist ==> d[j] <= cand,
    ensures
        ({
            let r = nearest_from(d, value, i, best, dist, cand);
            &&& r is None ==> forall|j: int| 0 <= j < d.len() ==> #[trigger] index_error(d, value, j) >= 5
            &&& r is Some ==> {
                let k = r->0;
                &&& 0 <= k < d.len()
                &&& index_error(d, value, k) <= 4
                &&& forall|j: int|
                    0 <= j < k ==> #[trigger] index_error(d, value, j) > index_error(d, value, k) || (index_error(d, value, j)
                        == index_error(d, value, k) && d[j] <= d[k])
                &&& index_error(d, value, k) > 0 ==> forall|j: int|
                    0 <= j < d.len() ==> #[trigger] index_error(d, value, j) > index_error(d, value, k) || (index_error(
                        d,
                        value,
                        j,
                    ) == index_error(d, value, k) && d[j] <= d[k])
            }
        }),
    decreases d.len() - i,
{
    if i < d.len() {
        let e = d[i];
        let err = popcount64((value ^ e) & MASK48);
        assert(err == index_error(d, value, i));
        if err < dist || (err == dist && best is Some && e > cand) {
            if err == 0 && (value != MASK48 || e == u64::MAX) {
            } else {
                lemma_nearest_from(d, value, i + 1, Some(i), err, e);
            }
        } else {
            lemma_nearest_from(d, value, i + 1, best, dist, cand);
        }
    }
}

/// A block is coded against a dictionary word only when at most four index
/// bits differ, and then against the closest word, the largest on ties
/// among those searched; the search covers every entry unless an exact
/// match ends it. When no word is that close, none is used.
pub proof fn lemma_nearest_law(d: Seq<u64>, value: u64)
    ensures
        nearest(d, value) is None ==> forall|j: int| 0 <= j < d.len() ==> #[trigger] index_error(d, value, j) >= 5,
        nearest(d, value) is Some ==> {
            let k = nearest(d, value)->0;
            &&& 0 <= k < d.len()
            &&& index_error(d, value, k) <= 4
            &&& forall|j: int|
                0 <= j < k ==> #[trigger] index_error(d, value, j) > index_error(d, value, k) || (index_error(d, value, j)
                    == index_error(d, value, k) && d[j] <= d[k])
            &&& index_error(d, value, k) > 0 ==> forall|j: int|
                0 <= j < d.len() ==> #[trigger] index_error(d, value, j) > index_error(d, value, k) || (index_error(d, value, j)
                    == index_error(d, value, k) && d[j] <= d[k])
        },
{
    lemma_nearest_from(d, value, 0, None, 5, 0);
}

/// Index positions in zigzag order.
pub open spec fn zig(i: int) -> int {
    if i < 4 {
        i
    } else if i < 8 {
        11 - i
    } else if i < 12 {
        i
    } else {
        27 - i
    }
}

/// The 3-bit index at position `z`.
pub open spec fn chunk(v: u64, z: int) -> u32 {
    ((v >> ((3 * z) as u64)) & 7u64) as u32
}

/// Code the first `j` 3-bit differences from a dictionary word.
pub open spec fn put_chunks(c: Coder, delta: u64, j: int) -> Coder
    decreases j,
{
    if j <= 0 {
        c
    } else {
        c_put(put_chunks(c, delta, j - 1), A_DELTA + j - 1, chunk(delta, j - 1) as int)
    }
}

/// Code the differences between consecutive indices in zigzag order up
/// to position `i`.
pub open spec fn put_zig(c: Coder, lv: u64, base: int, i: int) -> Coder
    decreases i,
{
    if i <= 1 {
        c
    } else {
        let last = chunk(lv, zig(i - 2));
        let next = chunk(lv, zig(i - 1));
        c_put(put_zig(c, lv, base, i - 1), A_INDICES + base + last, (last ^ next) as int)
    }
}

/// Encoder state of the alpha plane.
pub struct AlphaEnc {
    pub c: Coder,
    pub dict: Seq<u64>,
    pub prev: int,
}

#[verifier::opaque]
pub open spec fn alpha_enc_block(st: AlphaEnc, input: Seq<u8>, l: Layout, k: int) -> AlphaEnc {
    let cols = l.columns as int;
    let y = k / cols;
    let x = k % cols;
    let at = alpha_pos(l, k);
    let a = input[at];
    let b = input[at + 1];
    let r = reference(input, at, cols, l.stride as int, x, y, st.prev);
    let c1 = c_put(st.c, A_FIRST_END as int, ((a - r + 256) % 256) as int);
    let c2 = c_put(c1, A_SECOND_END as int, ((b - a + 256) % 256) as int);
    let v = packed(input, at);
    let found = if k > 32 { nearest(st.dict, v) } else { None };
    match found {
        Some(i) => {
            let c3 = c_put(c2, A_USE_DICT as int, 1);
            let c4 = c_put(c3, A_POSITION as int, i);
            AlphaEnc { c: put_chunks(c4, st.dict[i] ^ v, 16), dict: promote(st.dict, i), prev: a as int }
        },
        None => {
            let c3 = c_put(c2, A_USE_DICT as int, 0);
            let lv = linear(input, at);
            let c4 = c_put(c3, A_FIRST as int, chunk(lv, 0) as int);
            AlphaEnc { c: put_zig(c4, lv, bucket(a, b), 16), dict: insert(st.dict, v), prev: a as int }
        },
    }
}

pub open spec fn alpha_enc_blocks(st: AlphaEnc, input: Seq<u8>, l: Layout, k: int) -> AlphaEnc
    decreases k,
{
    if k <= 0 {
        st
    } else {
        alpha_enc_block(alpha_enc_blocks(st, input, l, k - 1), input, l, k - 1)
    }
}

/// The dictionary is consulted only from the 34th block of a plane on; a
/// block that finds no close word, or comes earlier, is inserted as a new
/// word, and a block that finds one promotes it. Either way the block's
/// first endpoint becomes the next predictor.
pub proof fn lemma_dictionary_use_law(st: AlphaEnc, input: Seq<u8>, l: Layout, k: int)
    ensures
        ({
            let r = alpha_enc_block(st, input, l, k);
            let at = alpha_pos(l, k);
            let v = packed(input, at);
            &&& r.prev == input[at] as int
            &&& k <= 32 ==> r.dict == insert(st.dict, v)
            &&& k > 32 && nearest(st.dict, v) is None ==> r.dict == insert(st.dict, v)
            &&& k > 32 && nearest(st.dict, v) is Some ==> r.dict == promote(st.dict, nearest(st.dict, v)->0)
        }),
{
    reveal(alpha_enc_block);
}

/// The initial dictionary: every word is all ones.
pub open spec fn dict_init() -> Seq<u64> {
    Seq::new(256, |i: int| u64::MAX)
}

/// The encoder state after coding the alpha plane of `input`.
pub open spec fn alpha_encode(e: EncState, input: Seq<u8>, l: Layout) -> EncState {
    let st0 = AlphaEnc { c: Coder { enc: e, models: alpha_models() }, dict: dict_init(), prev: 0 };
    alpha_enc_blocks(st0, input, l, blocks(l)).c.enc
}

// ---------------------------------------------------------------------------
// Decoding

/// Decoder state of the alpha plane.
pub struct AlphaDec {
    pub d: DCoder,
    pub dict: Seq<u64>,
    pub prev: int,
    pub out: Seq<u8>,
}

/// Decode the 3-bit differences from position `j` on, accumulating them into `v`.
pub open spec fn dec_chunks(d: DCoder, bytes: Seq<u8>, j: int, v: u64) -> Result<(DCoder, u64)>
    decreases 16 - j,
{
    if j >= 16 {
        Ok((d, v))
    } else {
        match d_get(d, bytes, A_DELTA + j) {
            Err(e) => Err(e),
            Ok((d1, s)) => dec_chunks(d1, bytes, j + 1, v | ((s as u64) << ((3 * j) as u64))),
        }
    }
}

/// Decode index differences in zigzag order from position `i` on.
pub open spec fn dec_zig(d: DCoder, bytes: Seq<u8>, base: int, i: int, last: u32, v: u64) -> Result<(DCoder, u64)>
    decreases 16 - i,
{
    if i >= 16 {
        Ok((d, v))
    } else {
        match d_get(d, bytes, A_INDICES + base + last) {
            Err(e) => Err(e),
            Ok((d1, s)) => {
                let next = last ^ (s as u32);
                dec_zig(d1, bytes, base, i + 1, next, v | ((next as u64) << ((3 * zig(i)) as u64)))
            },
        }
    }
}

/// Decode the two endpoint bytes of a block predicted by `r`.
pub open spec fn alpha_dec_ends(d: DCoder, bytes: Seq<u8>, r: u8) -> Result<(DCoder, u8, u8)> {
    match d_get(d, bytes, A_FIRST_END as int) {
        Err(e) => Err(e),
        Ok((d1, s0)) => {
            let a = ((r + s0) % 256) as u8;
            match d_get(d1, bytes, A_SECOND_END as int) {
                Err(e) => Err(e),
                Ok((d2, s1)) => Ok((d2, a, ((a + s1) % 256) as u8)),
            }
        },
    }
}

/// Decode the index word of a block at `at` with endpoints `a` and `b`,
/// store it and update the dictionary.
pub open spec fn alpha_dec_index(d: DCoder, bytes: Seq<u8>, dict: Seq<u64>, out: Seq<u8>, at: int, a: u8, b: u8) -> Result<
    (DCoder, Seq<u64>, Seq<u8>),
> {
    match d_get(d, bytes, A_USE_DICT as int) {
        Err(e) => Err(e),
        Ok((d3, u)) => if u != 0 {
            match d_get(d3, bytes, A_POSITION as int) {
                Err(e) => Err(e),
                Ok((d4, i)) => match dec_chunks(d4, bytes, 0, 0) {
                    Err(e) => Err(e),
                    Ok((d5, v)) => Ok((d5, promote(dict, i), store(out, at, swap_words(v ^ dict[i])))),
                },
            }
        } else {
            match d_get(d3, bytes, A_FIRST as int) {
                Err(e) => Err(e),
                Ok((d4, f)) => match dec_zig(d4, bytes, bucket(a, b), 1, f as u32, f as u64) {
                    Err(e) => Err(e),
                    Ok((d5, v)) => Ok((d5, insert(dict, swap_words(v)), store(out, at, v))),
                },
            }
        },
    }
}

pub open spec fn alpha_dec_block(st: AlphaDec, bytes: Seq<u8>, l: Layout, k: int) -> Result<AlphaDec> {
    let cols = l.columns as int;
    let at = alpha_pos(l, k);
    let r = reference(st.out, at, cols, l.stride as int, k % cols, k / cols, st.prev);
    match alpha_dec_ends(st.d, bytes, r) {
        Err(e) => Err(e),
        Ok((d2, a, b)) => match alpha_dec_index(d2, bytes, st.dict, st.out.update(at, a).update(at + 1, b), at, a, b) {
            Err(e) => Err(e),
            Ok((d5, dict, out)) => Ok(AlphaDec { d: d5, dict, prev: a as int, out }),
        },
    }
}

pub open spec fn alpha_dec_from(st: AlphaDec, bytes: Seq<u8>, l: Layout, k: int) -> Result<AlphaDec>
    decreases blocks(l) - k,
{
    if k >= blocks(l) {
        Ok(st)
    } else {
        match alpha_dec_block(st, bytes, l, k) {
            Err(e) => Err(e),
            Ok(s1) => alpha_dec_from(s1, bytes, l, k + 1),
        }
    }
}

/// Decode the alpha plane into `out`.
pub open spec fn alpha_decode(dec: DecState, bytes: Seq<u8>, out: Seq<u8>, l: Layout) -> Result<(DecState, Seq<u8>)> {
    let st0 = AlphaDec { d: DCoder { dec, models: alpha_models() }, dict: dict_init(), prev: 0, out };
    match alpha_dec_from(st0, bytes, l, 0) {
        Err(e) => Err(e),
        Ok(st) => Ok((st.d.dec, st.out)),
    }
}


/// The output as block `k` leaves it when its decoding fails: the endpoint
/// bytes are stored once both are decoded.
pub open spec fn alpha_block_left(st: AlphaDec, bytes: Seq<u8>, l: Layout, k: int) -> Seq<u8> {
    let cols = l.columns as int;
    let at = alpha_pos(l, k);
    let r = reference(st.out, at, cols, l.stride as int, k % cols, k / cols, st.prev);
    match alpha_dec_ends(st.d, bytes, r) {
        Err(_) => st.out,
        Ok((d2, a, b)) => st.out.update(at, a).update(at + 1, b),
    }
}

/// The output as decoding the blocks from the `k`-th on leaves it, whether
/// or not a block fails.
pub open spec fn alpha_left_from(st: AlphaDec, bytes: Seq<u8>, l: Layout, k: int) -> Seq<u8>
    decreases blocks(l) - k,
{
    if k >= blocks(l) {
        st.out
    } else {
        match alpha_dec_block(st, bytes, l, k) {
            Ok(s1) => alpha_left_from(s1, bytes, l, k + 1),
            Err(_) => alpha_block_left(st, bytes, l, k),
        }
    }
}

/// The output as decoding the alpha plane leaves it, whether or not it fails.
pub open spec fn alpha_left(dec: DecState, bytes: Seq<u8>, out: Seq<u8>, l: Layout) -> Seq<u8> {
    alpha_left_from(AlphaDec { d: DCoder { dec, models: alpha_models() }, dict: dict_init(), prev: 0, out }, bytes, l, 0)
}

// ---------------------------------------------------------------------------
// Executable helpers

fn packed_of(b: &[u8], at: usize) -> (r: u64)
    requires
        at + 8 <= b@.len(),
        at + 8 <= usize::MAX,
    ensures
        r == packed(b@, at as int),
{
    (read_u16(b, at + 2) as u64) * 0x1_0000_0000 + (read_u16(b, at + 4) as u64) * 65536 + read_u16(b, at + 6) as u64
}

fn linear_of(b: &[u8], at: usize) -> (r: u64)
    requires
        at + 8 <= b@.len(),
        at + 8 <= usize::MAX,
    ensures
        r == linear(b@, at as int),
{
    (read_u16(b, at + 6) as u64) * 0x1_0000_0000 + (read_u16(b, at + 4) as u64) * 65536 + read_u16(b, at + 2) as u64
}

fn swap_selector_words(v: u64) -> (r: u64)
    ensures
        r == swap_words(v),
{
    (v & 65535) << 32 | (v & 0xffff0000) | ((v >> 32) & 65535)
}

fn byte64_of(v: u64, j: usize) -> (r: u8)
    requires
        j < 6,
    ensures
        r == byte64(v, j as int),
{
    proof {
        reveal_with_fuel(p256, 7);
    }
    let w: u64 = if j == 0 {
        1
    } else if j == 1 {
        256
    } else if j == 2 {
        65536
    } else if j == 3 {
        16777216
    } else if j == 4 {
        0x1_0000_0000
    } else {
        0x100_0000_0000
    };
    (v / w % 256) as u8
}

fn store_into(b: &mut [u8], at: usize, v: u64)
    requires
        at + 8 <= old(b)@.len(),
        at + 8 <= usize::MAX,
    ensures
        final(b)@ == store(old(b)@, at as int, v),
{
    b[at + 2] = byte64_of(v, 0);
    b[at + 3] = byte64_of(v, 1);
    b[at + 4] = byte64_of(v, 2);
    b[at + 5] = byte64_of(v, 3);
    b[at + 6] = byte64_of(v, 4);
    b[at + 7] = byte64_of(v, 5);
}

fn bucket_of(a: u8, b: u8) -> (r: usize)
    ensures
        r == bucket(a, b),
        r == 0 || r == 8 || r == 16,
{
    let d = if a >= b { a - b } else { b - a };
    if d < 8 {
        0
    } else if d < 32 {
        8
    } else {
        16
    }
}

fn reference_of(data: &[u8], at: usize, columns: usize, stride: usize, x: usize, y: usize, previous: i32) -> (r: u8)
    requires
        y > 0 ==> at >= columns * stride,
        y > 0 && x > 0 ==> at >= columns * stride + stride,
        at < data@.len(),
    ensures
        r == reference(data@, at as int, columns as int, stride as int, x as int, y as int, previous as int),
{
    // Wide enough that the gradient never overflows, whatever `previous`.
    let mut r = previous as i64;
    if y > 0 {
        let up = data[at - columns * stride] as i64;
        r = if x > 0 {
            r + up - data[at - columns * stride - stride] as i64
        } else {
            up
        };
    }
    (if r < 0 {
        0
    } else if r > 255 {
        255
    } else {
        r
    }) as u8
}

fn promote_in(dict: &mut Vec<u64>, i: usize)
    requires
        i < old(dict)@.len(),
    ensures
        final(dict)@ == promote(old(dict)@, i as int),
{
    if i > 0 {
        let ghost d0 = dict@;
        let v = dict[i];
        let to = i / 2;
        let mut k = i;
        while k > to
            invariant
                to <= k <= i,
                i < d0.len(),
                to == i / 2,
                dict@.len() == d0.len(),
                forall|t: int| 0 <= t < d0.len() && (t <= to || t > i) ==> #[trigger] dict@[t] == d0[t],
                forall|t: int| to < t <= i && t > k ==> #[trigger] dict@[t] == d0[t - 1],
                forall|t: int| to < t <= k ==> #[trigger] dict@[t] == d0[t],
            decreases k - to,
        {
            let w = dict[k - 1];
            dict.set(k, w);
            k = k - 1;
        }
        dict.set(to, v);
        proof {
            assert(dict@ =~= promote(d0, i as int));
        }
    }
}

fn insert_in(dict: &mut Vec<u64>, v: u64)
    requires
        old(dict)@.len() == 256,
    ensures
        final(dict)@ == insert(old(dict)@, v),
{
    let ghost d0 = dict@;
    let mut k: usize = 255;
    while k > 128
        invariant
            128 <= k <= 255,
            dict@.len() == 256,
            forall|t: int| 0 <= t <= k ==> #[trigger] dict@[t] == d0[t],
            forall|t: int| k < t < 256 ==> #[trigger] dict@[t] == d0[t - 1],
        decreases k,
    {
        let w = dict[k - 1];
        dict.set(k, w);
        k = k - 1;
    }
    dict.set(128, v);
    proof {
        assert(dict@ =~= insert(d0, v));
    }
}

fn popcount64_of(v: u64) -> (r: u32)
    ensures
        r == popcount64(v),
{
    let mut x = v;
    let mut n: u32 = 0;
    proof {
        lemma_popcount64_bound(v);
    }
    while x != 0
        invariant
            popcount64(v) == n + popcount64(x),
            n + popcount64(x) <= 64,
        decreases x,
    {
        n = n + (x % 2) as u32;
        x = x / 2;
    }
    n
}

pub proof fn lemma_popcount64_bound(v: u64)
    ensures
        popcount64(v) <= 64,
{
    assert(crate::color::p2(64) == 0x1_0000_0000_0000_0000int) by {
        reveal_with_fuel(crate::color::p2, 65);
    }
    lemma_popcount64_bits(v, 64);
}

proof fn lemma_popcount64_bits(v: u64, b: nat)
    requires
        v < crate::color::p2(b),
    ensures
        popcount64(v) <= b,
    decreases b,
{
    if v != 0 && b > 0 {
        lemma_popcount64_bits(v / 2, (b - 1) as nat);
    }
}

/// The dictionary word a block is coded against, if any.
fn nearest_of(dict: &Vec<u64>, value: u64) -> (r: Option<usize>)
    requires
        dict@.len() == 256,
    ensures
        match nearest(dict@, value) {
            Some(i) => r == Some(i as usize) && 0 <= i < 256,
            None => r is None,
        },
{
    let mut best: Option<usize> = None;
    let mut distance: u32 = 5;
    let mut candidate: u64 = 0;
    let mut index: usize = 0;
    while index < 256
        invariant
            0 <= index <= 256,
            dict@.len() == 256,
            distance <= 64,
            best matches Some(b) ==> b < 256,
            nearest(dict@, value) == nearest_from(
                dict@,
                value,
                index as int,
                match best {
                    Some(b) => Some(b as int),
                    None => None,
                },
                distance as nat,
                candidate,
            ),
        decreases 256 - index,
    {
        let entry = dict[index];
        let error = popcount64_of((value ^ entry) & MASK48);
        proof {
            lemma_popcount64_bound((value ^ entry) & MASK48);
        }
        if error < distance || (error == distance && best.is_some() && entry > candidate) {
            best = Some(index);
            distance = error;
            candidate = entry;
            if error == 0 && (value != MASK48 || entry == u64::MAX) {
                return best;
            }
        }
        index = index + 1;
    }
    best
}

fn zig_of(i: usize) -> (r: usize)
    requires
        i < 16,
    ensures
        r == zig(i as int),
        r < 16,
{
    if i < 4 {
        i
    } else if i < 8 {
        11 - i
    } else if i < 12 {
        i
    } else {
        27 - i
    }
}


pub proof fn lemma_chunk_bound(v: u64, z: int)
    ensures
        chunk(v, z) < 8,
{
    let s = (3 * z) as u64;
    assert((v >> s) & 7u64 <= 7u64) by (bit_vector);
}

pub proof fn lemma_xor_small(a: u32, b: u32)
    requires
        a < 8,
        b < 8,
    ensures
        a ^ b < 8,
{
    assert(a < 8 && b < 8 ==> a ^ b < 8) by (bit_vector);
}

/// The invariant of the alpha coding loops.
pub open spec fn alpha_bank_ok(e: EncState, b: Seq<Model>) -> bool {
    &&& crate::range::enc_inv(e)
    &&& bank_inv(b)
    &&& sized(bank_view(b), alpha_sizes())
}

proof fn lemma_alpha_put(e: EncState, b: Seq<Model>, id: int, s: int)
    requires
        alpha_bank_ok(e, b),
        0 <= id < 45,
        0 <= s < alpha_sizes()[id],
    ensures
        crate::range::coder_wf(coder_of(e, b)),
        sized(c_put(coder_of(e, b), id, s).models, alpha_sizes()),
{
    crate::range::lemma_bank_wf(b);
    crate::color::lemma_put_sized(coder_of(e, b), alpha_sizes(), id, s);
}

pub proof fn lemma_alpha_pos(l: Layout, k: int)
    requires
        l.wf(),
        0 <= k < blocks(l),
    ensures
        0 <= alpha_pos(l, k),
        alpha_pos(l, k) + 8 <= l.len(),
        k / (l.columns as int) > 0 ==> alpha_pos(l, k) >= l.columns * l.stride,
        k / (l.columns as int) > 0 && k % (l.columns as int) > 0 ==> alpha_pos(l, k) >= l.columns * l.stride + l.stride,
        k % (l.columns as int) > 0 ==> alpha_pos(l, k) >= l.stride,
        k * l.stride <= l.len(),
{
    let c = l.columns as int;
    let y = k / c;
    let x = k % c;
    vstd::arithmetic::div_mod::lemma_fundamental_div_mod(k, c);
    assert(k * l.stride + l.stride <= c * l.rows * l.stride) by (nonlinear_arith)
        requires 0 <= k < c * l.rows, l.stride >= 0;
    assert(0 <= k * l.stride) by (nonlinear_arith)
        requires 0 <= k, l.stride >= 0;
    if y > 0 {
        assert(k >= c) by (nonlinear_arith)
            requires k == c * y + x, y >= 1, x >= 0, c >= 0;
        assert(k * l.stride >= c * l.stride) by (nonlinear_arith)
            requires k >= c, l.stride >= 0;
        if x > 0 {
            assert(k >= c + 1) by (nonlinear_arith)
                requires k == c * y + x, y >= 1, x >= 1, c >= 0;
            assert(k * l.stride >= c * l.stride + l.stride) by (nonlinear_arith)
                requires k >= c + 1, l.stride >= 0;
        }
    }
    if x > 0 {
        assert(k >= 1);
        assert(k * l.stride >= l.stride) by (nonlinear_arith)
            requires k >= 1, l.stride >= 0;
    }
}

/// Code a block's index word against dictionary entry `i`.
fn encode_hit(encoder: &mut Encoder, bank: &mut Vec<Model>, dict: &mut Vec<u64>, v: u64, i: usize)
    requires
        alpha_bank_ok(old(encoder).view(), old(bank)@),
        old(dict)@.len() == 256,
        i < 256,
    ensures
        alpha_bank_ok(final(encoder).view(), final(bank)@),
        final(dict)@ == promote(old(dict)@, i as int),
        coder_of(final(encoder).view(), final(bank)@) == put_chunks(
            c_put(c_put(coder_of(old(encoder).view(), old(bank)@), A_USE_DICT as int, 1), A_POSITION as int, i as int),
            old(dict)@[i as int] ^ v,
            16,
        ),
{
    proof {
        lemma_alpha_put(encoder.view(), bank@, A_USE_DICT as int, 1);
    }
    bank_put(encoder, bank, A_USE_DICT, 1);
    proof {
        lemma_alpha_put(encoder.view(), bank@, A_POSITION as int, i as int);
    }
    bank_put(encoder, bank, A_POSITION, i as u32);
    let delta = dict[i] ^ v;
    let ghost c4 = coder_of(encoder.view(), bank@);
    let mut j: usize = 0;
    while j < 16
        invariant
            0 <= j <= 16,
            alpha_bank_ok(encoder.view(), bank@),
            coder_of(encoder.view(), bank@) == put_chunks(c4, delta, j as int),
        decreases 16 - j,
    {
        let sym = ((delta >> ((j * 3) as u64)) & 7) as u32;
        proof {
            lemma_chunk_bound(delta, j as int);
            assert(sym == chunk(delta, j as int));
            lemma_alpha_put(encoder.view(), bank@, (A_DELTA + j) as int, sym as int);
        }
        bank_put(encoder, bank, A_DELTA + j, sym);
        j = j + 1;
    }
    promote_in(dict, i);
}

/// Code a block's index word without the dictionary, and add it there.
fn encode_miss(
    encoder: &mut Encoder,
    bank: &mut Vec<Model>,
    dict: &mut Vec<u64>,
    input: &[u8],
    at: usize,
    a: u8,
    b: u8,
    v: u64,
)
    requires
        alpha_bank_ok(old(encoder).view(), old(bank)@),
        old(dict)@.len() == 256,
        at + 8 <= input@.len(),
        at + 8 <= usize::MAX,
    ensures
        alpha_bank_ok(final(encoder).view(), final(bank)@),
        final(dict)@ == insert(old(dict)@, v),
        coder_of(final(encoder).view(), final(bank)@) == put_zig(
            c_put(
                c_put(coder_of(old(encoder).view(), old(bank)@), A_USE_DICT as int, 0),
                A_FIRST as int,
                chunk(linear(input@, at as int), 0) as int,
            ),
            linear(input@, at as int),
            bucket(a, b),
            16,
        ),
{
    insert_in(dict, v);
    proof {
        lemma_alpha_put(encoder.view(), bank@, A_USE_DICT as int, 0);
    }
    bank_put(encoder, bank, A_USE_DICT, 0);
    let lv = linear_of(input, at);
    let mut last = ((lv >> 0u64) & 7) as u32;
    proof {
        lemma_chunk_bound(lv, 0);
        assert(last == chunk(lv, 0));
        lemma_alpha_put(encoder.view(), bank@, A_FIRST as int, last as int);
    }
    bank_put(encoder, bank, A_FIRST, last);
    let base = bucket_of(a, b);
    let ghost c4 = coder_of(encoder.view(), bank@);
    let mut i: usize = 1;
    while i < 16
        invariant
            1 <= i <= 16,
            base == bucket(a, b),
            base == 0 || base == 8 || base == 16,
            last == chunk(lv, zig(i - 1)),
            last < 8,
            alpha_bank_ok(encoder.view(), bank@),
            coder_of(encoder.view(), bank@) == put_zig(c4, lv, base as int, i as int),
        decreases 16 - i,
    {
        let z = zig_of(i);
        let next = ((lv >> ((z * 3) as u64)) & 7) as u32;
        proof {
            lemma_chunk_bound(lv, z as int);
            assert(next == chunk(lv, zig(i as int)));
            lemma_xor_small(last, next);
            lemma_alpha_put(encoder.view(), bank@, (A_INDICES + base + last) as int, (last ^ next) as int);
        }
        bank_put(encoder, bank, A_INDICES + base + last as usize, last ^ next);
        last = next;
        i = i + 1;
    }
}

/// Code the `k`-th block of the alpha plane.
#[verifier::spinoff_prover]
#[verifier::rlimit(40)]
fn encode_block(
    encoder: &mut Encoder,
    bank: &mut Vec<Model>,
    dict: &mut Vec<u64>,
    prev: &mut i32,
    input: &[u8],
    layout: Layout,
    k: usize,
)
    requires
        alpha_bank_ok(old(encoder).view(), old(bank)@),
        old(dict)@.len() == 256,
        0 <= *old(prev) < 256,
        layout.wf(),
        input@.len() == layout.len(),
        k < blocks(layout),
    ensures
        alpha_bank_ok(final(encoder).view(), final(bank)@),
        final(dict)@.len() == 256,
        0 <= *final(prev) < 256,
        (AlphaEnc { c: coder_of(final(encoder).view(), final(bank)@), dict: final(dict)@, prev: *final(prev) as int })
            == alpha_enc_block((AlphaEnc { c: coder_of(old(encoder).view(), old(bank)@), dict: old(dict)@, prev: *old(prev) as int }), input@, layout, k as int),
{
    proof {
        lemma_alpha_pos(layout, k as int);
    }
    let columns = layout.columns;
    let stride = layout.stride;
    let y = k / columns;
    let x = k % columns;
    let at = k * stride + layout.offset;
    let a = input[at];
    let b = input[at + 1];
    let r = reference_of(input, at, columns, stride, x, y, *prev);
    let s0 = a.wrapping_sub(r);
    proof {
        lemma_alpha_put(encoder.view(), bank@, A_FIRST_END as int, s0 as int);
    }
    bank_put(encoder, bank, A_FIRST_END, s0 as u32);
    let s1 = b.wrapping_sub(a);
    proof {
        lemma_alpha_put(encoder.view(), bank@, A_SECOND_END as int, s1 as int);
    }
    bank_put(encoder, bank, A_SECOND_END, s1 as u32);
    let v = packed_of(input, at);
    let found = if k > 32 { nearest_of(dict, v) } else { None };
    proof {
        reveal(alpha_enc_block);
    }
    match found {
        Some(i) => {
            encode_hit(encoder, bank, dict, v, i);
        },
        None => {
            encode_miss(encoder, bank, dict, input, at, a, b, v);
        },
    }
    *prev = a as i32;
}

/// Code the alpha plane of `input`.
pub(crate) fn encode(encoder: &mut Encoder, input: &[u8], layout: Layout)
    requires
        old(encoder).inv(),
        layout.wf(),
        input@.len() == layout.len(),
    ensures
        final(encoder).inv(),
        final(encoder).view() == alpha_encode(old(encoder).view(), input@, layout),
{
    let mut sizes: Vec<usize> = Vec::new();
    let mut i: usize = 0;
    while i < A_MODELS
        invariant
            0 <= i <= A_MODELS,
            sizes@ == alpha_sizes().take(i as int),
        decreases A_MODELS - i,
    {
        sizes.push(if i < 2 || i == 4 { 256 } else if i == 3 { 2 } else { 8 });
        i = i + 1;
        proof {
            assert(sizes@ =~= alpha_sizes().take(i as int));
        }
    }
    proof {
        assert(sizes@ =~= alpha_sizes());
    }
    let mut bank = new_bank(&sizes, false);
    proof {
        assert(bank_view(bank@) =~= alpha_models());
    }
    let mut dict: Vec<u64> = vec![u64::MAX; 256];
    let mut prev: i32 = 0;
    let ghost st0 = AlphaEnc { c: coder_of(encoder.view(), bank@), dict: dict_init(), prev: 0 };
    proof {
        assert(dict@ =~= dict_init());
    }
    let total = layout.columns * layout.rows;
    let mut k: usize = 0;
    while k < total
        invariant
            0 <= k <= total,
            total == blocks(layout),
            layout.wf(),
            input@.len() == layout.len(),
            dict@.len() == 256,
            0 <= prev < 256,
            alpha_bank_ok(encoder.view(), bank@),
            (AlphaEnc { c: coder_of(encoder.view(), bank@), dict: dict@, prev: prev as int }) == alpha_enc_blocks(st0, input@, layout, k as int),
        decreases total - k,
    {
        encode_block(encoder, &mut bank, &mut dict, &mut prev, input, layout, k);
        k = k + 1;
    }
}


/// The invariant of the alpha decoding loops.
pub open spec fn alpha_dbank_ok(d: DecState, bytes: Seq<u8>, b: Seq<Model>) -> bool {
    &&& crate::range::dec_inv(d, bytes)
    &&& bank_inv(b)
    &&& sized(bank_view(b), alpha_sizes())
}

proof fn lemma_alpha_get(d: DecState, bytes: Seq<u8>, b: Seq<Model>, id: int)
    requires
        alpha_dbank_ok(d, bytes, b),
        0 <= id < 45,
    ensures
        d_get(dcoder_of(d, b), bytes, id) matches Ok((d2, s)) ==> sized(d2.models, alpha_sizes()),
{
    crate::range::lemma_bank_wf(b);
    crate::color::lemma_get_sized(dcoder_of(d, b), bytes, id, alpha_sizes());
}

/// Decode a block's index word coded against the dictionary.
fn decode_hit(decoder: &mut Decoder, bank: &mut Vec<Model>, dict: &mut Vec<u64>, out: &mut [u8], at: usize) -> (r: Result<()>)
    requires
        alpha_dbank_ok(old(decoder).view(), old(decoder).input(), old(bank)@),
        old(dict)@.len() == 256,
        at + 8 <= old(out)@.len(),
        at + 8 <= usize::MAX,
    ensures
        final(decoder).input() == old(decoder).input(),
        final(out)@.len() == old(out)@.len(),
        r is Err ==> final(out)@ == old(out)@,
        match d_get(dcoder_of(old(decoder).view(), old(bank)@), old(decoder).input(), A_POSITION as int) {
            Err(e) => r == Err::<(), Error>(e),
            Ok((d4, i)) => match dec_chunks(d4, old(decoder).input(), 0, 0) {
                Err(e) => r == Err::<(), Error>(e),
                Ok((d5, v)) => {
                    &&& r is Ok
                    &&& d5 == dcoder_of(final(decoder).view(), final(bank)@)
                    &&& final(dict)@ == promote(old(dict)@, i)
                    &&& final(out)@ == store(old(out)@, at as int, swap_words(v ^ old(dict)@[i]))
                    &&& alpha_dbank_ok(final(decoder).view(), final(decoder).input(), final(bank)@)
                    &&& final(dict)@.len() == 256
                },
            },
        },
{
    let ghost bytes = decoder.input();
    proof {
        lemma_alpha_get(decoder.view(), bytes, bank@, A_POSITION as int);
    }
    let i = bank_get(decoder, bank, A_POSITION)?;
    let ghost d4 = dcoder_of(decoder.view(), bank@);
    let mut v: u64 = 0;
    let mut j: usize = 0;
    while j < 16
        invariant
            0 <= j <= 16,
            i < 256,
            decoder.input() == bytes,
            bytes == old(decoder).input(),
            out@ == old(out)@,
            dict@ == old(dict)@,
            d_get(dcoder_of(old(decoder).view(), old(bank)@), bytes, A_POSITION as int) == Ok::<(DCoder, int), Error>((d4, i as int)),
            alpha_dbank_ok(decoder.view(), bytes, bank@),
            dec_chunks(d4, bytes, 0, 0) == dec_chunks(dcoder_of(decoder.view(), bank@), bytes, j as int, v),
        decreases 16 - j,
    {
        proof {
            lemma_alpha_get(decoder.view(), bytes, bank@, (A_DELTA + j) as int);
        }
        let s = bank_get(decoder, bank, A_DELTA + j)?;
        v = v | ((s as u64) << ((j * 3) as u64));
        j = j + 1;
    }
    let w = v ^ dict[i as usize];
    store_into(out, at, swap_selector_words(w));
    promote_in(dict, i as usize);
    Ok(())
}

/// Decode a block's index word coded without the dictionary.
fn decode_miss(
    decoder: &mut Decoder,
    bank: &mut Vec<Model>,
    dict: &mut Vec<u64>,
    out: &mut [u8],
    at: usize,
    a: u8,
    b: u8,
) -> (r: Result<()>)
    requires
        alpha_dbank_ok(old(decoder).view(), old(decoder).input(), old(bank)@),
        old(dict)@.len() == 256,
        at + 8 <= old(out)@.len(),
        at + 8 <= usize::MAX,
    ensures
        final(decoder).input() == old(decoder).input(),
        final(out)@.len() == old(out)@.len(),
        r is Err ==> final(out)@ == old(out)@,
        match d_get(dcoder_of(old(decoder).view(), old(bank)@), old(decoder).input(), A_FIRST as int) {
            Err(e) => r == Err::<(), Error>(e),
            Ok((d4, f)) => match dec_zig(d4, old(decoder).input(), bucket(a, b), 1, f as u32, f as u64) {
                Err(e) => r == Err::<(), Error>(e),
                Ok((d5, v)) => {
                    &&& r is Ok
                    &&& d5 == dcoder_of(final(decoder).view(), final(bank)@)
                    &&& final(dict)@ == insert(old(dict)@, swap_words(v))
                    &&& final(out)@ == store(old(out)@, at as int, v)
                    &&& alpha_dbank_ok(final(decoder).view(), final(decoder).input(), final(bank)@)
                    &&& final(dict)@.len() == 256
                },
            },
        },
{
    let ghost bytes = decoder.input();
    proof {
        lemma_alpha_get(decoder.view(), bytes, bank@, A_FIRST as int);
    }
    let f = bank_get(decoder, bank, A_FIRST)?;
    let ghost d4 = dcoder_of(decoder.view(), bank@);
    let mut last = f;
    let mut v = f as u64;
    let base = bucket_of(a, b);
    let mut i: usize = 1;
    while i < 16
        invariant
            1 <= i <= 16,
            f < 8,
            last < 8,
            base == bucket(a, b),
            base == 0 || base == 8 || base == 16,
            decoder.input() == bytes,
            bytes == old(decoder).input(),
            out@ == old(out)@,
            dict@ == old(dict)@,
            d_get(dcoder_of(old(decoder).view(), old(bank)@), bytes, A_FIRST as int) == Ok::<(DCoder, int), Error>((d4, f as int)),
            alpha_dbank_ok(decoder.view(), bytes, bank@),
            dec_zig(d4, bytes, base as int, 1, f, f as u64) == dec_zig(dcoder_of(decoder.view(), bank@), bytes, base as int, i as int, last, v),
        decreases 16 - i,
    {
        let z = zig_of(i);
        proof {
            lemma_alpha_get(decoder.view(), bytes, bank@, (A_INDICES + base + last) as int);
        }
        let s = bank_get(decoder, bank, A_INDICES + base + last as usize)?;
        let next = last ^ s;
        proof {
            lemma_xor_small(last, s);
        }
        v = v | ((next as u64) << ((z * 3) as u64));
        last = next;
        i = i + 1;
    }
    store_into(out, at, v);
    insert_in(dict, swap_selector_words(v));
    Ok(())
}


/// Decode the endpoint bytes of a block.
fn decode_ends(decoder: &mut Decoder, bank: &mut Vec<Model>, r: u8) -> (res: Result<(u8, u8)>)
    requires
        alpha_dbank_ok(old(decoder).view(), old(decoder).input(), old(bank)@),
    ensures
        final(decoder).input() == old(decoder).input(),
        match alpha_dec_ends(dcoder_of(old(decoder).view(), old(bank)@), old(decoder).input(), r) {
            Err(e) => res == Err::<(u8, u8), Error>(e),
            Ok((d2, a, b)) => {
                &&& res == Ok::<(u8, u8), Error>((a, b))
                &&& d2 == dcoder_of(final(decoder).view(), final(bank)@)
                &&& alpha_dbank_ok(final(decoder).view(), final(decoder).input(), final(bank)@)
            },
        },
{
    let ghost bytes = decoder.input();
    proof {
        lemma_alpha_get(decoder.view(), bytes, bank@, A_FIRST_END as int);
    }
    let s0 = bank_get(decoder, bank, A_FIRST_END)?;
    let a = r.wrapping_add(s0 as u8);
    proof {
        lemma_alpha_get(decoder.view(), bytes, bank@, A_SECOND_END as int);
    }
    let s1 = bank_get(decoder, bank, A_SECOND_END)?;
    let b = a.wrapping_add(s1 as u8);
    Ok((a, b))
}

/// Decode the index word of a block.
fn decode_index(decoder: &mut Decoder, bank: &mut Vec<Model>, dict: &mut Vec<u64>, out: &mut [u8], at: usize, a: u8, b: u8) -> (r:
    Result<()>)
    requires
        alpha_dbank_ok(old(decoder).view(), old(decoder).input(), old(bank)@),
        old(dict)@.len() == 256,
        at + 8 <= old(out)@.len(),
        at + 8 <= usize::MAX,
    ensures
        final(decoder).input() == old(decoder).input(),
        final(out)@.len() == old(out)@.len(),
        r is Err ==> final(out)@ == old(out)@,
        match alpha_dec_index(dcoder_of(old(decoder).view(), old(bank)@), old(decoder).input(), old(dict)@, old(out)@, at as int, a, b) {
            Err(e) => r == Err::<(), Error>(e),
            Ok((d5, d, o)) => {
                &&& r is Ok
                &&& d5 == dcoder_of(final(decoder).view(), final(bank)@)
                &&& final(dict)@ == d
                &&& final(out)@ == o
                &&& alpha_dbank_ok(final(decoder).view(), final(decoder).input(), final(bank)@)
                &&& final(dict)@.len() == 256
            },
        },
{
    let ghost bytes = decoder.input();
    proof {
        lemma_alpha_get(decoder.view(), bytes, bank@, A_USE_DICT as int);
    }
    let u = bank_get(decoder, bank, A_USE_DICT)?;
    if u != 0 {
        decode_hit(decoder, bank, dict, out, at)
    } else {
        decode_miss(decoder, bank, dict, out, at, a, b)
    }
}

/// Decode the `k`-th block of the alpha plane.
fn decode_block(
    decoder: &mut Decoder,
    bank: &mut Vec<Model>,
    dict: &mut Vec<u64>,
    prev: &mut i32,
    out: &mut [u8],
    layout: Layout,
    k: usize,
) -> (r: Result<()>)
    requires
        alpha_dbank_ok(old(decoder).view(), old(decoder).input(), old(bank)@),
        old(dict)@.len() == 256,
        0 <= *old(prev) < 256,
        layout.wf(),
        old(out)@.len() == layout.len(),
        k < blocks(layout),
    ensures
        final(decoder).input() == old(decoder).input(),
        final(out)@.len() == old(out)@.len(),
        r is Err ==> final(out)@ == alpha_block_left(
            (AlphaDec { d: dcoder_of(old(decoder).view(), old(bank)@), dict: old(dict)@, prev: *old(prev) as int, out: old(out)@ }),
            old(decoder).input(),
            layout,
            k as int,
        ),
        match alpha_dec_block(
            (AlphaDec { d: dcoder_of(old(decoder).view(), old(bank)@), dict: old(dict)@, prev: *old(prev) as int, out: old(out)@ }),
            old(decoder).input(),
            layout,
            k as int,
        ) {
            Ok(st) => {
                &&& r is Ok
                &&& st == (AlphaDec { d: dcoder_of(final(decoder).view(), final(bank)@), dict: final(dict)@, prev: *final(prev) as int, out: final(out)@ })
                &&& alpha_dbank_ok(final(decoder).view(), final(decoder).input(), final(bank)@)
                &&& final(dict)@.len() == 256
                &&& 0 <= *final(prev) < 256
            },
            Err(e) => r == Err::<(), Error>(e),
        },
{
    proof {
        lemma_alpha_pos(layout, k as int);
    }
    let columns = layout.columns;
    let stride = layout.stride;
    let y = k / columns;
    let x = k % columns;
    let at = k * stride + layout.offset;
    let r = reference_of(out, at, columns, stride, x, y, *prev);
    let (a, b) = decode_ends(decoder, bank, r)?;
    out[at] = a;
    out[at + 1] = b;
    decode_index(decoder, bank, dict, out, at, a, b)?;
    *prev = a as i32;
    Ok(())
}

/// Decode the alpha plane into `out`.
pub(crate) fn decode(decoder: &mut Decoder, out: &mut [u8], layout: Layout) -> (r: Result<()>)
    requires
        old(decoder).inv(),
        layout.wf(),
        old(out)@.len() == layout.len(),
    ensures
        final(decoder).input() == old(decoder).input(),
        final(out)@.len() == old(out)@.len(),
        final(out)@ == alpha_left(old(decoder).view(), old(decoder).input(), old(out)@, layout),
        match alpha_decode(old(decoder).view(), old(decoder).input(), old(out)@, layout) {
            Ok((d, o)) => {
                &&& r is Ok
                &&& final(decoder).view() == d
                &&& final(out)@ == o
                &&& final(decoder).inv()
            },
            Err(e) => r == Err::<(), Error>(e),
        },
{
    let ghost bytes = decoder.input();
    let mut sizes: Vec<usize> = Vec::new();
    let mut i: usize = 0;
    while i < A_MODELS
        invariant
            0 <= i <= A_MODELS,
            sizes@ == alpha_sizes().take(i as int),
        decreases A_MODELS - i,
    {
        sizes.push(if i < 2 || i == 4 { 256 } else if i == 3 { 2 } else { 8 });
        i = i + 1;
        proof {
            assert(sizes@ =~= alpha_sizes().take(i as int));
        }
    }
    proof {
        assert(sizes@ =~= alpha_sizes());
    }
    let mut bank = new_bank(&sizes, true);
    proof {
        assert(bank_view(bank@) =~= alpha_models());
    }
    let mut dict: Vec<u64> = vec![u64::MAX; 256];
    let mut prev: i32 = 0;
    proof {
        assert(dict@ =~= dict_init());
    }
    let ghost st0 = AlphaDec { d: dcoder_of(decoder.view(), bank@), dict: dict_init(), prev: 0, out: out@ };
    let total = layout.columns * layout.rows;
    let mut k: usize = 0;
    while k < total
        invariant
            0 <= k <= total,
            total == blocks(layout),
            layout.wf(),
            out@.len() == layout.len(),
            out@.len() == old(out)@.len(),
            dict@.len() == 256,
            0 <= prev < 256,
            decoder.input() == bytes,
            bytes == old(decoder).input(),
            st0 == (AlphaDec { d: DCoder { dec: old(decoder).view(), models: alpha_models() }, dict: dict_init(), prev: 0, out: old(out)@ }),
            alpha_dbank_ok(decoder.view(), bytes, bank@),
            alpha_dec_from(st0, bytes, layout, 0) == alpha_dec_from(
                (AlphaDec { d: dcoder_of(decoder.view(), bank@), dict: dict@, prev: prev as int, out: out@ }),
                bytes,
                layout,
                k as int,
            ),
            alpha_left_from(st0, bytes, layout, 0) == alpha_left_from(
                (AlphaDec { d: dcoder_of(decoder.view(), bank@), dict: dict@, prev: prev as int, out: out@ }),
                bytes,
                layout,
                k as int,
            ),
        decreases total - k,
    {
        decode_block(decoder, &mut bank, &mut dict, &mut prev, out, layout, k)?;
        k = k + 1;
    }
    Ok(())
}

} // verus!
