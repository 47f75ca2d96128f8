//! Decoding the alpha plane recovers it: a decoder in step with the encoder
//! before the plane reads back every endpoint pair and index word, keeps the
//! same dictionary, and ends in step with the encoder after the plane.
use vstd::prelude::*;
use crate::alpha::{alpha_dec_from, alpha_decode, alpha_enc_blocks, alpha_encode, alpha_models, dict_init, insert, promote, alpha_dec_block, alpha_dec_ends, alpha_dec_index, lemma_alpha_pos, A_FIRST, A_FIRST_END, A_POSITION, A_SECOND_END, A_USE_DICT, AlphaDec, AlphaEnc, alpha_enc_block, alpha_pos, bucket, nearest, nearest_from, popcount64, reference, A_DELTA, A_INDICES, MASK48, alpha_sizes, chunk, dec_chunks, dec_zig, lemma_chunk_bound, lemma_xor_small, linear, packed, put_chunks, put_zig, store, swap_words, zig};
use crate::block::Layout;
use crate::color::{blocks, sized};
use crate::color_inverse::{in_plane, lemma_in_block, plane_fill};
use crate::decodable::{code_in, csync, dec_sync, lemma_c_put_step, lemma_d_get_sync, lemma_narrows_trans, narrows};
use crate::range::{Coder, DCoder, DecState, EncState, c_put, coder_wf, enc_inv};
use crate::types::Error;
use crate::block::u16_at;
use crate::range::p256;

verus! {

/// The 3-bit indices of `v` below position `j`, in place.
pub open spec fn chunks_or(v: u64, j: int) -> u64
    decreases j,
{
    if j <= 0 {
        0
    } else {
        chunks_or(v, j - 1) | ((chunk(v, j - 1) as u64) << ((3 * (j - 1)) as u64))
    }
}

/// The 3-bit indices of `v` at the first `i` positions in zigzag order, in
/// place.
pub open spec fn zig_or(v: u64, i: int) -> u64
    decreases i,
{
    if i <= 0 {
        0
    } else {
        zig_or(v, i - 1) | ((chunk(v, zig(i - 1)) as u64) << ((3 * zig(i - 1)) as u64))
    }
}

pub proof fn lemma_chunk_u64(v: u64, z: int)
    requires
        0 <= z < 16,
    ensures
        chunk(v, z) as u64 == (v >> ((3 * z) as u64)) & 7u64,
{
    let s = (3 * z) as u64;
    let w = (v >> s) & 7u64;
    assert(w < 8) by (bit_vector)
        requires w == (v >> s) & 7u64;
}

/// All sixteen indices in place make up the low 48 bits.
pub proof fn lemma_chunks_or(v: u64)
    ensures
        chunks_or(v, 16) == v & MASK48,
{
    reveal_with_fuel(chunks_or, 17);
    lemma_chunk_u64(v, 0);
    lemma_chunk_u64(v, 1);
    lemma_chunk_u64(v, 2);
    lemma_chunk_u64(v, 3);
    lemma_chunk_u64(v, 4);
    lemma_chunk_u64(v, 5);
    lemma_chunk_u64(v, 6);
    lemma_chunk_u64(v, 7);
    lemma_chunk_u64(v, 8);
    lemma_chunk_u64(v, 9);
    lemma_chunk_u64(v, 10);
    lemma_chunk_u64(v, 11);
    lemma_chunk_u64(v, 12);
    lemma_chunk_u64(v, 13);
    lemma_chunk_u64(v, 14);
    lemma_chunk_u64(v, 15);
    assert(((((((((((((((((0u64 | (((v >> 0u64) & 7u64) << 0u64)) | (((v >> 3u64) & 7u64) << 3u64)) | (((v >> 6u64) & 7u64)
        << 6u64)) | (((v >> 9u64) & 7u64) << 9u64)) | (((v >> 12u64) & 7u64) << 12u64)) | (((v >> 15u64) & 7u64) << 15u64))
        | (((v >> 18u64) & 7u64) << 18u64)) | (((v >> 21u64) & 7u64) << 21u64)) | (((v >> 24u64) & 7u64) << 24u64)) | (((v
        >> 27u64) & 7u64) << 27u64)) | (((v >> 30u64) & 7u64) << 30u64)) | (((v >> 33u64) & 7u64) << 33u64)) | (((v >> 36u64)
        & 7u64) << 36u64)) | (((v >> 39u64) & 7u64) << 39u64)) | (((v >> 42u64) & 7u64) << 42u64)) | (((v >> 45u64) & 7u64)
        << 45u64)) == v & 0xffff_ffff_ffffu64) by (bit_vector);
}

/// All sixteen indices in zigzag order make up the low 48 bits.
pub proof fn lemma_zig_or(v: u64)
    ensures
        zig_or(v, 16) == v & MASK48,
{
    reveal_with_fuel(zig_or, 17);
    lemma_chunk_u64(v, 0);
    lemma_chunk_u64(v, 1);
    lemma_chunk_u64(v, 2);
    lemma_chunk_u64(v, 3);
    lemma_chunk_u64(v, 4);
    lemma_chunk_u64(v, 5);
    lemma_chunk_u64(v, 6);
    lemma_chunk_u64(v, 7);
    lemma_chunk_u64(v, 8);
    lemma_chunk_u64(v, 9);
    lemma_chunk_u64(v, 10);
    lemma_chunk_u64(v, 11);
    lemma_chunk_u64(v, 12);
    lemma_chunk_u64(v, 13);
    lemma_chunk_u64(v, 14);
    lemma_chunk_u64(v, 15);
    assert(((((((((((((((((0u64 | (((v >> 0u64) & 7u64) << 0u64)) | (((v >> 3u64) & 7u64) << 3u64)) | (((v >> 6u64) & 7u64)
        << 6u64)) | (((v >> 9u64) & 7u64) << 9u64)) | (((v >> 21u64) & 7u64) << 21u64)) | (((v >> 18u64) & 7u64) << 18u64))
        | (((v >> 15u64) & 7u64) << 15u64)) | (((v >> 12u64) & 7u64) << 12u64)) | (((v >> 24u64) & 7u64) << 24u64)) | (((v
        >> 27u64) & 7u64) << 27u64)) | (((v >> 30u64) & 7u64) << 30u64)) | (((v >> 33u64) & 7u64) << 33u64)) | (((v >> 45u64)
        & 7u64) << 45u64)) | (((v >> 42u64) & 7u64) << 42u64)) | (((v >> 39u64) & 7u64) << 39u64)) | (((v >> 36u64) & 7u64)
        << 36u64)) == v & 0xffff_ffff_ffffu64) by (bit_vector);
}

/// Exchanging the outer 16-bit words turns the stored order into the
/// little-endian order.
pub proof fn lemma_swap_packed(s: Seq<u8>, at: int)
    requires
        0 <= at,
        at + 8 <= s.len(),
    ensures
        swap_words(packed(s, at)) == linear(s, at),
        swap_words(linear(s, at)) == packed(s, at),
        packed(s, at) <= MASK48,
        linear(s, at) <= MASK48,
{
    let a = u16_at(s, at + 2) as u64;
    let b = u16_at(s, at + 4) as u64;
    let c = u16_at(s, at + 6) as u64;
    assert(packed(s, at) == (a * 0x1_0000_0000 + b * 65536 + c) as u64);
    assert(linear(s, at) == (c * 0x1_0000_0000 + b * 65536 + a) as u64);
    assert(swap_words((a * 0x1_0000_0000 + b * 65536 + c) as u64) == (c * 0x1_0000_0000 + b * 65536 + a) as u64) by (bit_vector)
        requires
            a < 65536,
            b < 65536,
            c < 65536,
    ;
    assert(swap_words((c * 0x1_0000_0000 + b * 65536 + a) as u64) == (a * 0x1_0000_0000 + b * 65536 + c) as u64) by (bit_vector)
        requires
            a < 65536,
            b < 65536,
            c < 65536,
    ;
}

/// The word exchange reads only the low 48 bits.
pub proof fn lemma_swap_low(d: u64, p: u64)
    requires
        p <= MASK48,
    ensures
        swap_words(((d ^ p) & MASK48) ^ d) == swap_words(p),
{
    assert(swap_words(((d ^ p) & 0xffff_ffff_ffffu64) ^ d) == swap_words(p)) by (bit_vector)
        requires
            p <= 0xffff_ffff_ffffu64,
    ;
}

/// Storing the little-endian index word writes back the six index bytes.
pub proof fn lemma_store_linear(s: Seq<u8>, o: Seq<u8>, at: int)
    requires
        0 <= at,
        at + 8 <= s.len(),
        s.len() == o.len(),
    ensures
        forall|p: int|
            0 <= p < o.len() ==> #[trigger] store(o, at, linear(s, at))[p] == if at + 2 <= p < at + 8 {
                s[p]
            } else {
                o[p]
            },
        linear(store(o, at, linear(s, at)), at) == linear(s, at),
        packed(store(o, at, linear(s, at)), at) == packed(s, at),
{
    reveal_with_fuel(p256, 7);
    let b0 = s[at + 2] as u64;
    let b1 = s[at + 3] as u64;
    let b2 = s[at + 4] as u64;
    let b3 = s[at + 5] as u64;
    let b4 = s[at + 6] as u64;
    let b5 = s[at + 7] as u64;
    let v: u64 = (b0 + 256 * b1 + 65536 * b2 + 16777216 * b3 + 0x1_0000_0000 * b4 + 0x100_0000_0000 * b5) as u64;
    assert(linear(s, at) == v);
    assert(v % 256 == b0 && (v / 256) % 256 == b1 && (v / 65536) % 256 == b2 && (v / 16777216) % 256 == b3 && (v
        / 0x1_0000_0000) % 256 == b4 && (v / 0x100_0000_0000) % 256 == b5) by (bit_vector)
        requires
            b0 < 256,
            b1 < 256,
            b2 < 256,
            b3 < 256,
            b4 < 256,
            b5 < 256,
            v == (b0 + 256 * b1 + 65536 * b2 + 16777216 * b3 + 0x1_0000_0000 * b4 + 0x100_0000_0000 * b5) as u64,
    ;
    let w = store(o, at, linear(s, at));
    assert(w[at + 2] == s[at + 2] && w[at + 3] == s[at + 3] && w[at + 4] == s[at + 4]);
    assert(w[at + 5] == s[at + 5] && w[at + 6] == s[at + 6] && w[at + 7] == s[at + 7]);
}

// ---------------------------------------------------------------------------
// Coding steps

/// An alpha coder.
pub open spec fn aok(c: Coder) -> bool {
    &&& coder_wf(c)
    &&& sized(c.models, alpha_sizes())
}

pub proof fn lemma_aput_ok(c: Coder, id: int, s: int)
    requires
        aok(c),
        0 <= id < 45,
        0 <= s < alpha_sizes()[id],
    ensures
        aok(c_put(c, id, s)),
        narrows(c.enc, c_put(c, id, s).enc),
{
    lemma_c_put_step(c, id, s);
}

spec fn got(d: DCoder, bytes: Seq<u8>, id: int) -> (DCoder, int) {
    crate::range::d_get(d, bytes, id)->Ok_0
}

pub proof fn lemma_chunks_ok(c: Coder, delta: u64, j: int, j2: int)
    requires
        aok(c),
        0 <= j <= j2 <= 16,
    ensures
        aok(put_chunks(c, delta, j2)),
        narrows(put_chunks(c, delta, j).enc, put_chunks(c, delta, j2).enc),
    decreases j2, j,
{
    if j2 > j {
        lemma_chunks_ok(c, delta, j, j2 - 1);
        let c1 = put_chunks(c, delta, j2 - 1);
        lemma_chunk_bound(delta, j2 - 1);
        lemma_aput_ok(c1, A_DELTA + j2 - 1, chunk(delta, j2 - 1) as int);
        lemma_narrows_trans(put_chunks(c, delta, j).enc, c1.enc, put_chunks(c, delta, j2).enc);
    } else if j2 > 0 {
        lemma_chunks_ok(c, delta, 0, j2);
    }
}

pub proof fn lemma_chunks_sync(d: DCoder, c: Coder, bytes: Seq<u8>, delta: u64, j: int)
    requires
        aok(c),
        0 <= j <= 16,
        csync(d, put_chunks(c, delta, j), bytes),
        code_in(bytes, put_chunks(c, delta, 16).enc),
    ensures
        dec_chunks(d, bytes, j, chunks_or(delta, j)) matches Ok((d2, w)) && w == delta & MASK48 && csync(
            d2,
            put_chunks(c, delta, 16),
            bytes,
        ),
    decreases 16 - j,
{
    if j == 16 {
        lemma_chunks_or(delta);
    } else {
        lemma_chunks_ok(c, delta, 0, j);
        lemma_chunks_ok(c, delta, j + 1, 16);
        lemma_chunk_bound(delta, j);
        let cj = put_chunks(c, delta, j);
        lemma_d_get_sync(d, cj, bytes, A_DELTA + j, chunk(delta, j) as int);
        let (d1, s1) = got(d, bytes, A_DELTA + j);
        lemma_chunks_sync(d1, c, bytes, delta, j + 1);
    }
}

pub proof fn lemma_zig_ok(c: Coder, lv: u64, base: int, i: int, i2: int)
    requires
        aok(c),
        base == 0 || base == 8 || base == 16,
        1 <= i <= i2 <= 16,
    ensures
        aok(put_zig(c, lv, base, i2)),
        narrows(put_zig(c, lv, base, i).enc, put_zig(c, lv, base, i2).enc),
    decreases i2, i,
{
    if i2 > i {
        lemma_zig_ok(c, lv, base, i, i2 - 1);
        let c1 = put_zig(c, lv, base, i2 - 1);
        let last = chunk(lv, zig(i2 - 2));
        let next = chunk(lv, zig(i2 - 1));
        lemma_chunk_bound(lv, zig(i2 - 2));
        lemma_chunk_bound(lv, zig(i2 - 1));
        lemma_xor_small(last, next);
        lemma_aput_ok(c1, A_INDICES + base + last, (last ^ next) as int);
        lemma_narrows_trans(put_zig(c, lv, base, i).enc, c1.enc, put_zig(c, lv, base, i2).enc);
    } else if i2 > 1 {
        lemma_zig_ok(c, lv, base, 1, i2);
    }
}

pub proof fn lemma_zig_sync(d: DCoder, c: Coder, bytes: Seq<u8>, lv: u64, base: int, i: int)
    requires
        aok(c),
        base == 0 || base == 8 || base == 16,
        1 <= i <= 16,
        csync(d, put_zig(c, lv, base, i), bytes),
        code_in(bytes, put_zig(c, lv, base, 16).enc),
    ensures
        dec_zig(d, bytes, base, i, chunk(lv, zig(i - 1)), zig_or(lv, i)) matches Ok((d2, w)) && w == zig_or(lv, 16) && csync(
            d2,
            put_zig(c, lv, base, 16),
            bytes,
        ),
    decreases 16 - i,
{
    if i < 16 {
        lemma_zig_ok(c, lv, base, 1, i);
        lemma_zig_ok(c, lv, base, i + 1, 16);
        let ci = put_zig(c, lv, base, i);
        let last = chunk(lv, zig(i - 1));
        let next = chunk(lv, zig(i));
        lemma_chunk_bound(lv, zig(i - 1));
        lemma_chunk_bound(lv, zig(i));
        lemma_xor_small(last, next);
        lemma_d_get_sync(d, ci, bytes, A_INDICES + base + last, (last ^ next) as int);
        let (d1, s1) = got(d, bytes, A_INDICES + base + last);
        assert((last ^ ((last ^ next) as int as u32)) == next) by (bit_vector)
            requires
                last < 8,
                next < 8,
        ;
        lemma_zig_sync(d1, c, bytes, lv, base, i + 1);
    }
}

// ---------------------------------------------------------------------------
// Blocks

pub proof fn lemma_nearest_from(d: Seq<u64>, value: u64, i: int, best: Option<int>, dist: nat, cand: u64)
    requires
        best matches Some(b) ==> 0 <= b < d.len(),
    ensures
        nearest_from(d, value, i, best, dist, cand) matches Some(r) ==> 0 <= r < d.len(),
    decreases d.len() - i,
{
    if 0 <= i < d.len() {
        let e = d[i];
        let err = popcount64((value ^ e) & MASK48);
        lemma_nearest_from(d, value, i + 1, Some(i), err, e);
        lemma_nearest_from(d, value, i + 1, best, dist, cand);
    }
}

/// `out` holds the input's plane bytes of the first `k` blocks, and the
/// bytes of `out0` elsewhere.
pub open spec fn alpha_filled(out: Seq<u8>, out0: Seq<u8>, input: Seq<u8>, l: Layout, k: int) -> bool {
    &&& out.len() == out0.len()
    &&& forall|p: int|
        0 <= p < out.len() ==> #[trigger] out[p] == if in_plane(l, p) && p / (l.stride as int) < k {
            input[p]
        } else {
            out0[p]
        }
}

/// Decoding block `k` fills its plane bytes.
pub proof fn lemma_alpha_fill_step(out: Seq<u8>, out0: Seq<u8>, input: Seq<u8>, l: Layout, k: int, out3: Seq<u8>)
    requires
        l.wf(),
        input.len() == l.len(),
        out0.len() == l.len(),
        0 <= k < blocks(l),
        alpha_filled(out, out0, input, l, k),
        out3.len() == out.len(),
        forall|p: int|
            0 <= p < out.len() ==> #[trigger] out3[p] == if alpha_pos(l, k) <= p < alpha_pos(l, k) + 8 {
                input[p]
            } else {
                out[p]
            },
    ensures
        alpha_filled(out3, out0, input, l, k + 1),
{
    let s = l.stride as int;
    assert forall|p: int| 0 <= p < out3.len() implies #[trigger] out3[p] == if in_plane(l, p) && p / s < k + 1 {
        input[p]
    } else {
        out0[p]
    } by {
        lemma_in_block(l, k, p);
        assert(out[p] == if in_plane(l, p) && p / s < k { input[p] } else { out0[p] });
    }
}

/// After the last block, the whole plane is filled.
pub proof fn lemma_alpha_fill_done(out: Seq<u8>, out0: Seq<u8>, input: Seq<u8>, l: Layout)
    requires
        l.wf(),
        input.len() == l.len(),
        out0.len() == l.len(),
        alpha_filled(out, out0, input, l, blocks(l)),
    ensures
        out == plane_fill(out0, input, l),
{
    let s = l.stride as int;
    assert forall|p: int| 0 <= p < out.len() implies #[trigger] out[p] == plane_fill(out0, input, l)[p] by {
        let qp = p / s;
        vstd::arithmetic::div_mod::lemma_fundamental_div_mod(p, s);
        assert(0 <= qp < blocks(l)) by (nonlinear_arith)
            requires p == s * qp + p % s, 0 <= p % s < s, 0 <= p < l.columns * l.rows * s, s >= 8;
    }
    assert(out =~= plane_fill(out0, input, l));
}

pub proof fn lemma_alpha_block_ok(st: AlphaEnc, input: Seq<u8>, l: Layout, k: int)
    requires
        aok(st.c),
        st.dict.len() == 256,
    ensures
        aok(alpha_enc_block(st, input, l, k).c),
        alpha_enc_block(st, input, l, k).dict.len() == 256,
        narrows(st.c.enc, alpha_enc_block(st, input, l, k).c.enc),
{
    reveal(alpha_enc_block);
    let cols = l.columns as int;
    let at = alpha_pos(l, k);
    let a = input[at];
    let b = input[at + 1];
    let r = reference(input, at, cols, l.stride as int, k % cols, k / cols, st.prev);
    let c1 = c_put(st.c, A_FIRST_END as int, ((a - r + 256) % 256) as int);
    let c2 = c_put(c1, A_SECOND_END as int, ((b - a + 256) % 256) as int);
    lemma_aput_ok(st.c, A_FIRST_END as int, ((a - r + 256) % 256) as int);
    lemma_aput_ok(c1, A_SECOND_END as int, ((b - a + 256) % 256) as int);
    lemma_narrows_trans(st.c.enc, c1.enc, c2.enc);
    let v = packed(input, at);
    let found = if k > 32 { nearest(st.dict, v) } else { None };
    lemma_nearest_from(st.dict, v, 0, None, 5, 0);
    let fin = alpha_enc_block(st, input, l, k);
    match found {
        Some(i) => {
            let c3 = c_put(c2, A_USE_DICT as int, 1);
            let c4 = c_put(c3, A_POSITION as int, i);
            lemma_aput_ok(c2, A_USE_DICT as int, 1);
            lemma_aput_ok(c3, A_POSITION as int, i);
            lemma_chunks_ok(c4, st.dict[i] ^ v, 0, 16);
            lemma_narrows_trans(c3.enc, c4.enc, fin.c.enc);
            lemma_narrows_trans(c2.enc, c3.enc, fin.c.enc);
        },
        None => {
            let c3 = c_put(c2, A_USE_DICT as int, 0);
            let lv = linear(input, at);
            let c4 = c_put(c3, A_FIRST as int, chunk(lv, 0) as int);
            lemma_aput_ok(c2, A_USE_DICT as int, 0);
            lemma_chunk_bound(lv, 0);
            lemma_aput_ok(c3, A_FIRST as int, chunk(lv, 0) as int);
            lemma_zig_ok(c4, lv, bucket(a, b), 1, 16);
            lemma_narrows_trans(c3.enc, c4.enc, fin.c.enc);
            lemma_narrows_trans(c2.enc, c3.enc, fin.c.enc);
        },
    }
    lemma_narrows_trans(st.c.enc, c2.enc, fin.c.enc);
}

/// The coding of an index word after the endpoints: against dictionary
/// entry `found`, or as a chain of index differences.
pub open spec fn enc_index(c: Coder, dict: Seq<u64>, v: u64, lv: u64, found: Option<int>, a: u8, b: u8) -> (Coder, Seq<u64>) {
    match found {
        Some(i) => (
            put_chunks(c_put(c_put(c, A_USE_DICT as int, 1), A_POSITION as int, i), dict[i] ^ v, 16),
            promote(dict, i),
        ),
        None => (
            put_zig(c_put(c_put(c, A_USE_DICT as int, 0), A_FIRST as int, chunk(lv, 0) as int), lv, bucket(a, b), 16),
            insert(dict, v),
        ),
    }
}

pub proof fn lemma_index_ok(c: Coder, dict: Seq<u64>, v: u64, lv: u64, found: Option<int>, a: u8, b: u8)
    requires
        aok(c),
        found matches Some(i) ==> 0 <= i < 256,
    ensures
        aok(enc_index(c, dict, v, lv, found, a, b).0),
        narrows(c.enc, enc_index(c, dict, v, lv, found, a, b).0.enc),
{
    let fin = enc_index(c, dict, v, lv, found, a, b).0;
    match found {
        Some(i) => {
            let c3 = c_put(c, A_USE_DICT as int, 1);
            let c4 = c_put(c3, A_POSITION as int, i);
            lemma_aput_ok(c, A_USE_DICT as int, 1);
            lemma_aput_ok(c3, A_POSITION as int, i);
            lemma_chunks_ok(c4, dict[i] ^ v, 0, 16);
            lemma_narrows_trans(c3.enc, c4.enc, fin.enc);
            lemma_narrows_trans(c.enc, c3.enc, fin.enc);
        },
        None => {
            let c3 = c_put(c, A_USE_DICT as int, 0);
            let c4 = c_put(c3, A_FIRST as int, chunk(lv, 0) as int);
            lemma_aput_ok(c, A_USE_DICT as int, 0);
            lemma_chunk_bound(lv, 0);
            lemma_aput_ok(c3, A_FIRST as int, chunk(lv, 0) as int);
            lemma_zig_ok(c4, lv, bucket(a, b), 1, 16);
            lemma_narrows_trans(c3.enc, c4.enc, fin.enc);
            lemma_narrows_trans(c.enc, c3.enc, fin.enc);
        },
    }
}

/// Decoding an index word reads back the stored word and updates the
/// dictionary as the encoder did.
pub proof fn lemma_index_sync(
    d: DCoder,
    c: Coder,
    bytes: Seq<u8>,
    dict: Seq<u64>,
    input: Seq<u8>,
    at: int,
    found: Option<int>,
    a: u8,
    b: u8,
    out2: Seq<u8>,
)
    requires
        aok(c),
        dict.len() == 256,
        found matches Some(i) ==> 0 <= i < 256,
        0 <= at,
        at + 8 <= input.len(),
        csync(d, c, bytes),
        code_in(bytes, enc_index(c, dict, packed(input, at), linear(input, at), found, a, b).0.enc),
    ensures
        alpha_dec_index(d, bytes, dict, out2, at, a, b) matches Ok((d5, dict2, out)) && dict2 == enc_index(
            c,
            dict,
            packed(input, at),
            linear(input, at),
            found,
            a,
            b,
        ).1 && out == store(out2, at, linear(input, at)) && csync(
            d5,
            enc_index(c, dict, packed(input, at), linear(input, at), found, a, b).0,
            bytes,
        ),
{
    let v = packed(input, at);
    let lv = linear(input, at);
    lemma_swap_packed(input, at);
    let fin = enc_index(c, dict, v, lv, found, a, b).0;
    match found {
        Some(i) => {
            let c3 = c_put(c, A_USE_DICT as int, 1);
            let c4 = c_put(c3, A_POSITION as int, i);
            lemma_aput_ok(c, A_USE_DICT as int, 1);
            lemma_aput_ok(c3, A_POSITION as int, i);
            lemma_chunks_ok(c4, dict[i] ^ v, 0, 16);
            lemma_narrows_trans(c3.enc, c4.enc, fin.enc);
            lemma_d_get_sync(d, c, bytes, A_USE_DICT as int, 1);
            let d3 = got(d, bytes, A_USE_DICT as int).0;
            lemma_d_get_sync(d3, c3, bytes, A_POSITION as int, i);
            let d4 = got(d3, bytes, A_POSITION as int).0;
            let delta = dict[i] ^ v;
            lemma_chunks_sync(d4, c4, bytes, delta, 0);
            lemma_swap_low(dict[i], v);
        },
        None => {
            let c3 = c_put(c, A_USE_DICT as int, 0);
            let c4 = c_put(c3, A_FIRST as int, chunk(lv, 0) as int);
            lemma_aput_ok(c, A_USE_DICT as int, 0);
            lemma_chunk_bound(lv, 0);
            lemma_aput_ok(c3, A_FIRST as int, chunk(lv, 0) as int);
            lemma_zig_ok(c4, lv, bucket(a, b), 1, 16);
            lemma_narrows_trans(c3.enc, c4.enc, fin.enc);
            lemma_d_get_sync(d, c, bytes, A_USE_DICT as int, 0);
            let d3 = got(d, bytes, A_USE_DICT as int).0;
            lemma_d_get_sync(d3, c3, bytes, A_FIRST as int, chunk(lv, 0) as int);
            let d4 = got(d3, bytes, A_FIRST as int).0;
            let f = chunk(lv, 0);
            assert(zig_or(lv, 1) == (f as int) as u64) by {
                reveal_with_fuel(zig_or, 2);
                assert(zig(0) == 0);
                let w = f as u64;
                assert((0u64 | (w << 0u64)) == w) by (bit_vector);
            }
            lemma_zig_sync(d4, c4, bytes, lv, bucket(a, b), 1);
            lemma_zig_or(lv);
            assert(lv & MASK48 == lv) by (bit_vector)
                requires
                    lv <= 0xffff_ffff_ffffu64,
            ;
        },
    }
}

/// The predictor of block `k` reads the same bytes from the output as
/// from the input.
pub proof fn lemma_reference_sync(out: Seq<u8>, out0: Seq<u8>, input: Seq<u8>, l: Layout, k: int, prev: int)
    requires
        l.wf(),
        input.len() == l.len(),
        out0.len() == l.len(),
        0 <= k < blocks(l),
        alpha_filled(out, out0, input, l, k),
    ensures
        ({
            let cols = l.columns as int;
            let at = alpha_pos(l, k);
            reference(out, at, cols, l.stride as int, k % cols, k / cols, prev) == reference(
                input,
                at,
                cols,
                l.stride as int,
                k % cols,
                k / cols,
                prev,
            )
        }),
{
    lemma_alpha_pos(l, k);
    let cols = l.columns as int;
    let s = l.stride as int;
    let y = k / cols;
    let x = k % cols;
    let at = alpha_pos(l, k);
    vstd::arithmetic::div_mod::lemma_fundamental_div_mod(k, cols);
    if y > 0 {
        assert(k >= cols) by (nonlinear_arith)
            requires k == cols * y + x, y >= 1, x >= 0, cols >= 0;
        let pu = at - cols * s;
        assert(pu == (k - cols) * s + l.offset) by (nonlinear_arith)
            requires at == k * s + l.offset, pu == at - cols * s;
        lemma_in_block(l, k - cols, pu);
        assert(out[pu] == input[pu]);
        if x > 0 {
            assert(k >= cols + 1) by (nonlinear_arith)
                requires k == cols * y + x, y >= 1, x >= 1, cols >= 0;
            let pl = at - cols * s - s;
            assert(pl == (k - cols - 1) * s + l.offset) by (nonlinear_arith)
                requires at == k * s + l.offset, pl == at - cols * s - s;
            lemma_in_block(l, k - cols - 1, pl);
            assert(out[pl] == input[pl]);
        }
    }
}

/// The endpoint pair of block `k` coded as residuals.
pub open spec fn enc_ends(st: AlphaEnc, input: Seq<u8>, l: Layout, k: int) -> Coder {
    let cols = l.columns as int;
    let at = alpha_pos(l, k);
    let a = input[at];
    let b = input[at + 1];
    let r = reference(input, at, cols, l.stride as int, k % cols, k / cols, st.prev);
    c_put(c_put(st.c, A_FIRST_END as int, ((a - r + 256) % 256) as int), A_SECOND_END as int, ((b - a + 256) % 256) as int)
}

/// The dictionary entry block `k` is coded against, if any.
pub open spec fn block_found(st: AlphaEnc, input: Seq<u8>, l: Layout, k: int) -> Option<int> {
    if k > 32 { nearest(st.dict, packed(input, alpha_pos(l, k))) } else { None }
}

/// Coding a block: its endpoints, then its index word.
pub proof fn lemma_block_split(st: AlphaEnc, input: Seq<u8>, l: Layout, k: int)
    ensures
        ({
            let at = alpha_pos(l, k);
            let ix = enc_index(
                enc_ends(st, input, l, k),
                st.dict,
                packed(input, at),
                linear(input, at),
                block_found(st, input, l, k),
                input[at],
                input[at + 1],
            );
            alpha_enc_block(st, input, l, k) == AlphaEnc { c: ix.0, dict: ix.1, prev: input[at] as int }
        }),
{
    reveal(alpha_enc_block);
}

/// Adding back a residual taken modulo 256 recovers the byte.
pub proof fn lemma_wrap(a: u8, r: u8)
    ensures
        0 <= (a - r + 256) % 256 < 256,
        ((r + ((a - r + 256) % 256) as int) % 256) as u8 == a,
{
    let d = a - r + 256;
    if a >= r {
        vstd::arithmetic::div_mod::lemma_fundamental_div_mod_converse(d, 256, 1, a - r);
        vstd::arithmetic::div_mod::lemma_fundamental_div_mod_converse(a as int, 256, 0, a as int);
    } else {
        vstd::arithmetic::div_mod::lemma_fundamental_div_mod_converse(d, 256, 0, d);
        vstd::arithmetic::div_mod::lemma_fundamental_div_mod_converse(r + d, 256, 1, a as int);
    }
}

/// Decoding the endpoint residuals of a block recovers its endpoints.
#[verifier::spinoff_prover]
pub proof fn lemma_ends_sync(d: DCoder, c: Coder, bytes: Seq<u8>, r: u8, a: u8, b: u8)
    requires
        aok(c),
        csync(d, c, bytes),
        code_in(
            bytes,
            c_put(c_put(c, A_FIRST_END as int, ((a - r + 256) % 256) as int), A_SECOND_END as int, ((b - a + 256) % 256) as int).enc,
        ),
    ensures
        alpha_dec_ends(d, bytes, r) matches Ok((d2, a2, b2)) && a2 == a && b2 == b && csync(
            d2,
            c_put(c_put(c, A_FIRST_END as int, ((a - r + 256) % 256) as int), A_SECOND_END as int, ((b - a + 256) % 256) as int),
            bytes,
        ),
{
    let s0 = ((a - r + 256) % 256) as int;
    let s1 = ((b - a + 256) % 256) as int;
    lemma_wrap(a, r);
    lemma_wrap(b, a);
    let c1 = c_put(c, A_FIRST_END as int, s0);
    lemma_aput_ok(c, A_FIRST_END as int, s0);
    lemma_aput_ok(c1, A_SECOND_END as int, s1);
    lemma_d_get_sync(d, c, bytes, A_FIRST_END as int, s0);
    let d1 = got(d, bytes, A_FIRST_END as int).0;
    lemma_d_get_sync(d1, c1, bytes, A_SECOND_END as int, s1);
}

pub proof fn lemma_ends_ok(c: Coder, r: u8, a: u8, b: u8)
    requires
        aok(c),
    ensures
        aok(c_put(c_put(c, A_FIRST_END as int, ((a - r + 256) % 256) as int), A_SECOND_END as int, ((b - a + 256) % 256) as int)),
        narrows(
            c.enc,
            c_put(c_put(c, A_FIRST_END as int, ((a - r + 256) % 256) as int), A_SECOND_END as int, ((b - a + 256) % 256) as int).enc,
        ),
{
    let c1 = c_put(c, A_FIRST_END as int, ((a - r + 256) % 256) as int);
    lemma_aput_ok(c, A_FIRST_END as int, ((a - r + 256) % 256) as int);
    lemma_aput_ok(c1, A_SECOND_END as int, ((b - a + 256) % 256) as int);
    lemma_narrows_trans(c.enc, c1.enc, c_put(c1, A_SECOND_END as int, ((b - a + 256) % 256) as int).enc);
}

/// Writing a block's endpoints and index word fills its plane bytes.
pub proof fn lemma_block_out(out: Seq<u8>, out0: Seq<u8>, input: Seq<u8>, l: Layout, k: int)
    requires
        l.wf(),
        input.len() == l.len(),
        out0.len() == l.len(),
        0 <= k < blocks(l),
        alpha_filled(out, out0, input, l, k),
    ensures
        ({
            let at = alpha_pos(l, k);
            alpha_filled(store(out.update(at, input[at]).update(at + 1, input[at + 1]), at, linear(input, at)), out0, input, l, k + 1)
        }),
{
    lemma_alpha_pos(l, k);
    let at = alpha_pos(l, k);
    let out2 = out.update(at, input[at]).update(at + 1, input[at + 1]);
    lemma_store_linear(input, out2, at);
    let out3 = store(out2, at, linear(input, at));
    assert forall|p: int| 0 <= p < out.len() implies #[trigger] out3[p] == if at <= p < at + 8 {
        input[p]
    } else {
        out[p]
    } by {
    }
    lemma_alpha_fill_step(out, out0, input, l, k, out3);
}

/// Decoding block `k` reads back what was coded, keeps the dictionary in
/// step and fills the block's plane bytes.
#[verifier::spinoff_prover]
#[verifier::rlimit(60)]
pub proof fn lemma_alpha_block_sync(sd: AlphaDec, st: AlphaEnc, bytes: Seq<u8>, input: Seq<u8>, l: Layout, k: int, out0: Seq<u8>)
    requires
        l.wf(),
        input.len() == l.len(),
        out0.len() == l.len(),
        0 <= k < blocks(l),
        aok(st.c),
        st.dict.len() == 256,
        sd.dict == st.dict,
        sd.prev == st.prev,
        csync(sd.d, st.c, bytes),
        alpha_filled(sd.out, out0, input, l, k),
        code_in(bytes, alpha_enc_block(st, input, l, k).c.enc),
    ensures
        alpha_dec_block(sd, bytes, l, k) matches Ok(s1) && s1.dict == alpha_enc_block(st, input, l, k).dict && s1.prev
            == alpha_enc_block(st, input, l, k).prev && csync(s1.d, alpha_enc_block(st, input, l, k).c, bytes) && alpha_filled(
            s1.out,
            out0,
            input,
            l,
            k + 1,
        ),
{
    lemma_alpha_pos(l, k);
    let cols = l.columns as int;
    let s = l.stride as int;
    let at = alpha_pos(l, k);
    let a = input[at];
    let b = input[at + 1];
    lemma_reference_sync(sd.out, out0, input, l, k, st.prev);
    let r = reference(input, at, cols, s, k % cols, k / cols, st.prev);
    let c2 = enc_ends(st, input, l, k);
    let v = packed(input, at);
    let lv = linear(input, at);
    let found = block_found(st, input, l, k);
    lemma_nearest_from(st.dict, v, 0, None, 5, 0);
    lemma_block_split(st, input, l, k);
    let fin = alpha_enc_block(st, input, l, k);
    lemma_ends_ok(st.c, r, a, b);
    lemma_index_ok(c2, st.dict, v, lv, found, a, b);
    lemma_ends_sync(sd.d, st.c, bytes, r, a, b);
    let d2 = alpha_dec_ends(sd.d, bytes, r)->Ok_0.0;
    let out2 = sd.out.update(at, a).update(at + 1, b);
    lemma_index_sync(d2, c2, bytes, st.dict, input, at, found, a, b, out2);
    lemma_block_out(sd.out, out0, input, l, k);
}

pub proof fn lemma_alpha_blocks_ok(st: AlphaEnc, input: Seq<u8>, l: Layout, k: int, k2: int)
    requires
        aok(st.c),
        st.dict.len() == 256,
        0 <= k <= k2,
    ensures
        aok(alpha_enc_blocks(st, input, l, k2).c),
        alpha_enc_blocks(st, input, l, k2).dict.len() == 256,
        narrows(alpha_enc_blocks(st, input, l, k).c.enc, alpha_enc_blocks(st, input, l, k2).c.enc),
    decreases k2, k,
{
    if k2 > k {
        lemma_alpha_blocks_ok(st, input, l, k, k2 - 1);
        let s1 = alpha_enc_blocks(st, input, l, k2 - 1);
        lemma_alpha_block_ok(s1, input, l, k2 - 1);
        lemma_narrows_trans(alpha_enc_blocks(st, input, l, k).c.enc, s1.c.enc, alpha_enc_blocks(st, input, l, k2).c.enc);
    } else if k2 > 0 {
        lemma_alpha_blocks_ok(st, input, l, 0, k2);
    }
}

/// Decoding the blocks from the `k`-th on reads back what was coded and
/// fills the whole plane.
pub proof fn lemma_alpha_blocks_sync(sd: AlphaDec, st0: AlphaEnc, bytes: Seq<u8>, input: Seq<u8>, l: Layout, k: int, out0: Seq<u8>)
    requires
        l.wf(),
        input.len() == l.len(),
        out0.len() == l.len(),
        0 <= k <= blocks(l),
        aok(st0.c),
        st0.dict.len() == 256,
        sd.dict == alpha_enc_blocks(st0, input, l, k).dict,
        sd.prev == alpha_enc_blocks(st0, input, l, k).prev,
        csync(sd.d, alpha_enc_blocks(st0, input, l, k).c, bytes),
        alpha_filled(sd.out, out0, input, l, k),
        code_in(bytes, alpha_enc_blocks(st0, input, l, blocks(l)).c.enc),
    ensures
        alpha_dec_from(sd, bytes, l, k) matches Ok(sf) && csync(sf.d, alpha_enc_blocks(st0, input, l, blocks(l)).c, bytes)
            && alpha_filled(sf.out, out0, input, l, blocks(l)),
    decreases blocks(l) - k,
{
    if k < blocks(l) {
        let st = alpha_enc_blocks(st0, input, l, k);
        lemma_alpha_blocks_ok(st0, input, l, 0, k);
        lemma_alpha_blocks_ok(st0, input, l, k + 1, blocks(l));
        lemma_alpha_block_sync(sd, st, bytes, input, l, k, out0);
        let s1 = alpha_dec_block(sd, bytes, l, k)->Ok_0;
        lemma_alpha_blocks_sync(s1, st0, bytes, input, l, k + 1, out0);
    }
}

pub proof fn lemma_alpha_models()
    ensures
        crate::range::models_wf(alpha_models()),
        sized(alpha_models(), alpha_sizes()),
{
    assert forall|i: int| 0 <= i < 45 implies crate::range::model_wf(#[trigger] alpha_models()[i]) && alpha_models()[i].counts.len()
        == alpha_sizes()[i] by {
        crate::range::lemma_init_wf(alpha_sizes()[i] as int);
    }
}

/// Coding the alpha plane keeps the encoder well formed and narrows its
/// interval.
pub proof fn lemma_alpha_encode_ok(e: EncState, input: Seq<u8>, l: Layout)
    requires
        enc_inv(e),
    ensures
        enc_inv(alpha_encode(e, input, l)),
        narrows(e, alpha_encode(e, input, l)),
{
    lemma_alpha_models();
    let st0 = AlphaEnc { c: Coder { enc: e, models: alpha_models() }, dict: dict_init(), prev: 0 };
    assert(blocks(l) >= 0) by (nonlinear_arith)
        requires l.columns >= 0, l.rows >= 0;
    lemma_alpha_blocks_ok(st0, input, l, 0, blocks(l));
}

/// A decoder in step with the encoder before the alpha plane decodes the
/// plane into `out0`, ending in step with the encoder after it.
pub proof fn lemma_alpha_inverse(e: EncState, input: Seq<u8>, l: Layout, dec: DecState, bytes: Seq<u8>, out0: Seq<u8>)
    requires
        enc_inv(e),
        l.wf(),
        input.len() == l.len(),
        out0.len() == l.len(),
        dec_sync(dec, e, bytes),
        code_in(bytes, alpha_encode(e, input, l)),
    ensures
        alpha_decode(dec, bytes, out0, l) matches Ok((d2, out)) && dec_sync(d2, alpha_encode(e, input, l), bytes) && out
            == plane_fill(out0, input, l),
{
    lemma_alpha_models();
    let st0 = AlphaEnc { c: Coder { enc: e, models: alpha_models() }, dict: dict_init(), prev: 0 };
    let sd = AlphaDec { d: DCoder { dec, models: alpha_models() }, dict: dict_init(), prev: 0, out: out0 };
    assert(blocks(l) >= 0) by (nonlinear_arith)
        requires l.columns >= 0, l.rows >= 0;
    lemma_alpha_blocks_sync(sd, st0, bytes, input, l, 0, out0);
    let sf = alpha_dec_from(sd, bytes, l, 0)->Ok_0;
    lemma_alpha_fill_done(sf.out, out0, input, l);
}

} // verus!
