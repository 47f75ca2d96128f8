//! Coding of the eight-byte colour plane of BC1 and BC3 blocks: two RGB565
//! endpoints predicted from their neighbours, and a 32-bit selector word
//! coded against a dictionary of frequent selector patterns.
use vstd::prelude::*;
use crate::block::{Layout, byte_of, le_byte, lemma_p256_small, read_u16, read_u32, u16_at, u32_at};
use crate::range::{Coder, DCoder, DecState, EncState, p256, Encoder, Decoder, Model, ModelView, bank_get, bank_inv, bank_put, bank_view, c_bits, c_put, d_bits, d_get, model_init, new_bank};
use crate::types::{Error, Result};
use crate::dictionary::{dictionary, strictly_sorted, top_words};

verus! {

/// Model of the red endpoint residual.
pub const C_R: usize = 0;
/// Model of the green endpoint residual.
pub const C_G: usize = 1;
/// Model of the blue endpoint residual.
pub const C_B: usize = 2;
/// Model of the dictionary index.
pub const INDEX: usize = 3;
/// Model of the nonzero selector difference bytes.
pub const DIFF: usize = 4;
/// Model of the mask of nonzero selector difference bytes.
pub const MASK: usize = 5;
/// Model of the choice between the left and upper endpoint predictor.
pub const REFERENCE: usize = 6;
/// Model of the bytes of dictionary entry differences.
pub const ENTRY: usize = 7;

/// Symbol counts of the colour models for a dictionary of `n` entries.
pub open spec fn color_sizes(n: int) -> Seq<usize> {
    seq![128usize, 128, 128, n as usize, 256, 16, 2, 256]
}

/// Fresh colour models for a dictionary of `n` entries.
pub open spec fn color_models(n: int) -> Seq<ModelView> {
    Seq::new(8, |i: int| model_init(color_sizes(n)[i] as int))
}

/// The 5-6-5 bit channels of an RGB565 colour.
pub open spec fn rgb(c: u16) -> (int, int, int) {
    (c as int / 2048, (c as int / 32) % 64, c as int % 32)
}

pub open spec fn abs(v: int) -> int {
    if v < 0 { -v } else { v }
}

/// Manhattan distance between two colours.
pub open spec fn delta(a: (int, int, int), b: (int, int, int)) -> int {
    abs(a.0 - b.0) + abs(a.1 - b.1) + abs(a.2 - b.2)
}

/// Half of `v`, rounded toward zero.
pub open spec fn half(v: int) -> int {
    if v >= 0 { v / 2 } else { -((-v) / 2) }
}

/// Half a residual is rounded toward zero: twice it falls short of the
/// residual by at most one, on the side of zero, and it is odd in `v`.
pub proof fn lemma_half_law(v: int)
    ensures
        v >= 0 ==> 0 <= v - 2 * half(v) <= 1,
        v < 0 ==> -1 <= v - 2 * half(v) <= 0,
        half(-v) == -half(v),
{
}

/// Byte offset of the `k`-th block in coding order: rows from the top,
/// even rows right to left and odd rows left to right.
pub open spec fn color_pos(l: Layout, k: int) -> int {
    let y = k / (l.columns as int);
    let x = k % (l.columns as int);
    let zx = if y % 2 == 1 { x } else { l.columns - x - 1 };
    (y * l.columns + zx) * l.stride + l.offset
}

/// Number of blocks of a grid.
pub open spec fn blocks(l: Layout) -> int {
    l.columns * l.rows
}

pub proof fn lemma_color_pos(l: Layout, k: int)
    requires
        l.wf(),
        0 <= k < blocks(l),
    ensures
        0 <= color_pos(l, k),
        color_pos(l, k) + 8 <= l.len(),
        blocks(l) <= l.len(),
        k / (l.columns as int) > 0 ==> color_pos(l, k) >= l.columns * l.stride,
        0 <= k / (l.columns as int) < l.rows,
        0 <= k % (l.columns as int) < l.columns,
        ({
            let y = k / (l.columns as int);
            let x = k % (l.columns as int);
            let zx = if y % 2 == 1 { x } else { l.columns - x - 1 };
            &&& 0 <= y * l.columns <= k
            &&& 0 <= y * l.columns + zx < blocks(l)
            &&& (y * l.columns + zx) * l.stride + l.offset + 8 <= l.len()
            &&& 0 <= (y * l.columns + zx) * l.stride
        }),
{
    let c = (l.columns as int);
    let y = k / c;
    let x = k % c;
    let zx = if y % 2 == 1 { x } else { c - x - 1 };
    vstd::arithmetic::div_mod::lemma_fundamental_div_mod(k, c);
    assert(0 <= y < l.rows) by (nonlinear_arith)
        requires k == c * y + x, 0 <= x < c, 0 <= k < c * l.rows, c >= 1;
    assert(c * l.rows <= c * l.rows * l.stride) by (nonlinear_arith)
        requires c >= 1, l.rows >= 1, l.stride >= 1;
    assert(0 <= y * c <= k) by (nonlinear_arith)
        requires k == c * y + x, 0 <= x < c, 0 <= y, c >= 1;
    let idx = y * c + zx;
    assert(0 <= idx < c * l.rows) by (nonlinear_arith)
        requires idx == y * c + zx, 0 <= zx < c, 0 <= y < l.rows;
    assert(idx * l.stride + l.offset + 8 <= c * l.rows * l.stride) by (nonlinear_arith)
        requires 0 <= idx < c * l.rows, l.offset + 8 <= l.stride;
    assert(0 <= idx * l.stride) by (nonlinear_arith)
        requires 0 <= idx, l.stride >= 0;
    if y > 0 {
        assert(idx >= c) by (nonlinear_arith)
            requires idx == y * c + zx, y >= 1, zx >= 0, c >= 0;
        assert(idx * l.stride >= c * l.stride) by (nonlinear_arith)
            requires idx >= c, l.stride >= 0;
    }
}

/// Blocks are coded row by row from the top: even rows from the right
/// end leftwards, odd rows from the left end rightwards, one block at a
/// time.
pub proof fn lemma_color_order_law(l: Layout, k: int)
    requires
        l.wf(),
        0 <= k < blocks(l),
    ensures
        0 <= k / (l.columns as int) < l.rows,
        k % (l.columns as int) == 0 && (k / (l.columns as int)) % 2 == 0 ==> color_pos(l, k) == (k + l.columns - 1) * l.stride
            + l.offset,
        k % (l.columns as int) == 0 && (k / (l.columns as int)) % 2 == 1 ==> color_pos(l, k) == k * l.stride + l.offset,
        k % (l.columns as int) != 0 && (k / (l.columns as int)) % 2 == 0 ==> color_pos(l, k) == color_pos(l, k - 1) - l.stride,
        k % (l.columns as int) != 0 && (k / (l.columns as int)) % 2 == 1 ==> color_pos(l, k) == color_pos(l, k - 1) + l.stride,
{
    lemma_color_pos(l, k);
    let c = l.columns as int;
    let s = l.stride as int;
    let y = k / c;
    let x = k % c;
    vstd::arithmetic::div_mod::lemma_fundamental_div_mod(k, c);
    if x != 0 {
        vstd::arithmetic::div_mod::lemma_fundamental_div_mod_converse(k - 1, c, y, x - 1);
        let zx = if y % 2 == 1 { x } else { c - x - 1 };
        let zx1 = if y % 2 == 1 { x - 1 } else { c - x };
        assert((k - 1) / c == y && (k - 1) % c == x - 1);
        assert(color_pos(l, k) == (y * c + zx) * s + l.offset);
        assert(color_pos(l, k - 1) == (y * c + zx1) * s + l.offset);
        assert((y * c + zx) * s == (y * c + zx1) * s + (zx - zx1) * s) by (nonlinear_arith);
        let a = (y * c + zx1) * s + l.offset;
        if y % 2 == 1 {
            assert(zx - zx1 == 1);
            assert((zx - zx1) * s == s) by (nonlinear_arith)
                requires zx - zx1 == 1;
            assert(color_pos(l, k) == a + s);
        } else {
            assert(zx - zx1 == -1);
            assert((zx - zx1) * s == -s) by (nonlinear_arith)
                requires zx - zx1 == -1;
            assert(color_pos(l, k) == a - s);
        }
    } else {
        assert(k == y * c);
    }
}

/// Entry differences are taken modulo 2^32: adding back the earlier entry
/// gives the later one.
pub proof fn lemma_wrap_law(a: u32, b: u32)
    ensures
        (wsub(a, b) as int + b) % 0x1_0000_0000 == a,
        wadd(a, b) as int == (a as int + b as int) % 0x1_0000_0000,
        wadd(b, wsub(a, b)) == a,
{
    let d = if a >= b { a - b } else { a - b + 0x1_0000_0000int };
    assert(wsub(a, b) as int == d);
    if a >= b {
        vstd::arithmetic::div_mod::lemma_fundamental_div_mod_converse(d + b, 0x1_0000_0000, 0, a as int);
    } else {
        vstd::arithmetic::div_mod::lemma_fundamental_div_mod_converse(d + b, 0x1_0000_0000, 1, a as int);
    }
    if a + b > u32::MAX {
        vstd::arithmetic::div_mod::lemma_fundamental_div_mod_converse(a + b, 0x1_0000_0000, 1, a + b - 0x1_0000_0000);
    } else {
        vstd::arithmetic::div_mod::lemma_fundamental_div_mod_converse(a + b, 0x1_0000_0000, 0, a + b);
    }
}

/// The distance between two colours is the sum of the distances of their
/// channels.
pub proof fn lemma_delta_law(a: (int, int, int), b: (int, int, int))
    ensures
        delta(a, b) == (if a.0 >= b.0 { a.0 - b.0 } else { b.0 - a.0 }) + (if a.1 >= b.1 { a.1 - b.1 } else { b.1 - a.1 }) + (
        if a.2 >= b.2 { a.2 - b.2 } else { b.2 - a.2 }),
        delta(a, b) == delta(b, a),
        delta(a, a) == 0,
{
}

// ---------------------------------------------------------------------------
// Selector dictionary

/// Number of set bits.
pub open spec fn popcount(v: u32) -> nat
    decreases v,
{
    if v == 0 {
        0
    } else {
        popcount(v / 2) + (v % 2) as nat
    }
}

/// Entry `i` is a strictly better match for `p` than entry `b`: fewer
/// differing bits, or as many and a larger entry.
pub open spec fn closer(top: Seq<u32>, p: u32, i: int, b: int) -> bool {
    let ci = popcount(p ^ top[i]);
    let cb = popcount(p ^ top[b]);
    ci < cb || (ci == cb && top[i] > top[b])
}

/// The best match for `p` among the first `i` entries; the first one on ties.
pub open spec fn best_from(top: Seq<u32>, p: u32, i: int) -> int
    decreases i,
{
    if i <= 1 {
        0
    } else {
        let b = best_from(top, p, i - 1);
        if closer(top, p, i - 1, b) { i - 1 } else { b }
    }
}

/// The dictionary entry the selector `p` is coded against.
pub open spec fn best_match(top: Seq<u32>, p: u32) -> int {
    best_from(top, p, top.len() as int)
}

/// A selector is coded against the entry that differs from it in the
/// fewest bits, the largest such entry on ties.
pub proof fn lemma_best_match_law(top: Seq<u32>, p: u32)
    requires
        top.len() >= 1,
    ensures
        0 <= best_match(top, p) < top.len(),
        forall|j: int|
            0 <= j < top.len() ==> popcount(p ^ #[trigger] top[j]) > popcount(p ^ top[best_match(top, p)]) || (popcount(p ^ top[j])
                == popcount(p ^ top[best_match(top, p)]) && top[j] <= top[best_match(top, p)]),
{
    lemma_best_from(top, p, top.len() as int);
    let b = best_match(top, p);
    assert forall|j: int| 0 <= j < top.len() implies popcount(p ^ #[trigger] top[j]) > popcount(p ^ top[b]) || (
    popcount(p ^ top[j]) == popcount(p ^ top[b]) && top[j] <= top[b]) by {
        assert(!closer(top, p, j, best_from(top, p, top.len() as int)));
    }
}

/// The selector words of a grid, in storage order.
pub open spec fn selectors(input: Seq<u8>, l: Layout) -> Seq<u32> {
    Seq::new(blocks(l) as nat, |k: int| u32_at(input, k * l.stride + l.offset + 4))
}

/// The selector dictionary of a plane: its 256 highest-ranked selectors in
/// increasing order.
pub open spec fn table_spec(input: Seq<u8>, l: Layout) -> Seq<u32> {
    dictionary(selectors(input, l))
}

// ---------------------------------------------------------------------------
// Encoding

/// Encoder state of the colour plane.
pub struct ColorEnc {
    pub c: Coder,
    pub prev: Seq<u16>,
}

/// Code endpoint `j` of the `k`-th block: optionally choose the upper block
/// as predictor, then code the green residual and the red and blue residuals
/// relative to half the green one.
pub open spec fn color_enc_endpoint(st: ColorEnc, input: Seq<u8>, l: Layout, k: int, j: int) -> ColorEnc {
    let at = color_pos(l, k);
    let y = k / (l.columns as int);
    let x = k % (l.columns as int);
    let c = u16_at(input, at + 2 * j);
    let curr = rgb(c);
    let p0 = rgb(st.prev[j]);
    let up = rgb(u16_at(input, at - l.columns * l.stride + 2 * j));
    let has_up = y > 0 && x != 0;
    let use_up = has_up && delta(curr, up) < delta(curr, p0);
    let c1 = if has_up { c_put(st.c, REFERENCE as int, if use_up { 1 } else { 0 }) } else { st.c };
    let prev = if use_up { up } else { p0 };
    let dg = curr.1 - prev.1;
    let c2 = c_put(c1, C_G as int, dg + 64);
    let c3 = c_put(c2, C_R as int, curr.0 - prev.0 - half(dg) + 64);
    let c4 = c_put(c3, C_B as int, curr.2 - prev.2 - half(dg) + 64);
    ColorEnc { c: c4, prev: st.prev.update(j, c) }
}

/// Mask of the nonzero bytes of `v`.
pub open spec fn sel_mask(v: u32) -> int {
    (if byte_of(v, 0) != 0 { 1int } else { 0 }) + (if byte_of(v, 1) != 0 { 2int } else { 0 }) + (if byte_of(v, 2) != 0 {
        4int
    } else {
        0
    }) + (if byte_of(v, 3) != 0 { 8int } else { 0 })
}

/// Code the nonzero bytes among the first `j` bytes of `v`.
pub open spec fn put_diffs(c: Coder, v: u32, j: int) -> Coder
    decreases j,
{
    if j <= 0 {
        c
    } else {
        let c1 = put_diffs(c, v, j - 1);
        if byte_of(v, j - 1) != 0 { c_put(c1, DIFF as int, byte_of(v, j - 1) as int) } else { c1 }
    }
}

/// Code the selector word of the `k`-th block as a dictionary entry and the
/// nonzero bytes of its difference from it.
pub open spec fn color_enc_selector(c: Coder, input: Seq<u8>, l: Layout, top: Seq<u32>, k: int) -> Coder {
    let at = color_pos(l, k);
    let p = u32_at(input, at + 4);
    let f = best_match(top, p);
    let v = p ^ top[f];
    put_diffs(c_put(c_put(c, INDEX as int, f), MASK as int, sel_mask(v)), v, 4)
}

pub open spec fn color_enc_block(st: ColorEnc, input: Seq<u8>, l: Layout, top: Seq<u32>, k: int) -> ColorEnc {
    let s1 = color_enc_endpoint(st, input, l, k, 0);
    let s2 = color_enc_endpoint(s1, input, l, k, 1);
    ColorEnc { c: color_enc_selector(s2.c, input, l, top, k), prev: s2.prev }
}

/// The state after coding the first `k` blocks.
pub open spec fn color_enc_blocks(st: ColorEnc, input: Seq<u8>, l: Layout, top: Seq<u32>, k: int) -> ColorEnc
    decreases k,
{
    if k <= 0 {
        st
    } else {
        color_enc_block(color_enc_blocks(st, input, l, top, k - 1), input, l, top, k - 1)
    }
}

/// The mask of a selector difference has bit `j` set exactly when byte `j`
/// of the difference is nonzero, so it is zero only for an exact match.
pub proof fn lemma_mask_law(v: u32)
    ensures
        0 <= sel_mask(v) < 16,
        sel_mask(v) == 0 <==> v == 0,
        sel_mask(v) % 2 == 1 <==> byte_of(v, 0) != 0,
        (sel_mask(v) / 2) % 2 == 1 <==> byte_of(v, 1) != 0,
        (sel_mask(v) / 4) % 2 == 1 <==> byte_of(v, 2) != 0,
        (sel_mask(v) / 8) % 2 == 1 <==> byte_of(v, 3) != 0,
{
    crate::block::lemma_bytes_of(v);
}

/// Code the first `j` bytes of `v` as raw bits.
pub open spec fn bits_bytes(c: Coder, v: u32, j: int) -> Coder
    decreases j,
{
    if j <= 0 {
        c
    } else {
        c_bits(bits_bytes(c, v, j - 1), byte_of(v, j - 1) as u32, 8)
    }
}

/// Code the first `j` bytes of `v` under model `id`.
pub open spec fn put_bytes(c: Coder, id: int, v: u32, j: int) -> Coder
    decreases j,
{
    if j <= 0 {
        c
    } else {
        c_put(put_bytes(c, id, v, j - 1), id, byte_of(v, j - 1) as int)
    }
}

/// Difference of two words modulo 2^32.
pub open spec fn wsub(a: u32, b: u32) -> u32 {
    if a >= b { (a - b) as u32 } else { (a - b + 0x1_0000_0000int) as u32 }
}

/// Code the differences between consecutive entries of the first `i`.
pub open spec fn color_enc_entries(c: Coder, top: Seq<u32>, i: int) -> Coder
    decreases i,
{
    if i <= 1 {
        c
    } else {
        put_bytes(color_enc_entries(c, top, i - 1), ENTRY as int, wsub(top[i - 1], top[i - 2]), 4)
    }
}

/// Code the dictionary: its size, its first entry and the differences.
pub open spec fn color_enc_header(c: Coder, top: Seq<u32>) -> Coder {
    color_enc_entries(bits_bytes(c_bits(c, (top.len() - 1) as u32, 8), top[0], 4), top, top.len() as int)
}

/// The encoder state after coding the colour plane of `input`.
pub open spec fn color_encode(e: EncState, input: Seq<u8>, l: Layout) -> EncState {
    let top = table_spec(input, l);
    let c0 = Coder { enc: e, models: color_models(top.len() as int) };
    let c1 = color_enc_header(c0, top);
    color_enc_blocks(ColorEnc { c: c1, prev: seq![0u16, 0u16] }, input, l, top, blocks(l)).c.enc
}


// ---------------------------------------------------------------------------
// Decoding

/// Decoder state of the colour plane.
pub struct ColorDec {
    pub d: DCoder,
    pub prev: Seq<u16>,
    pub out: Seq<u8>,
}

/// Decode endpoint `j` of the `k`-th block and store it.
pub open spec fn color_dec_endpoint(st: ColorDec, bytes: Seq<u8>, l: Layout, k: int, j: int) -> Result<ColorDec> {
    let at = color_pos(l, k);
    let y = k / (l.columns as int);
    let x = k % (l.columns as int);
    let p0 = rgb(st.prev[j]);
    let has_up = y > 0 && x != 0;
    let r1 = if has_up { d_get(st.d, bytes, REFERENCE as int) } else { Ok((st.d, 0int)) };
    match r1 {
        Err(e) => Err(e),
        Ok((d1, u)) => {
            let prev = if u != 0 { rgb(u16_at(st.out, at - l.columns * l.stride + 2 * j)) } else { p0 };
            match d_get(d1, bytes, C_G as int) {
                Err(e) => Err(e),
                Ok((d2, sg)) => {
                    let dg = sg - 64;
                    match d_get(d2, bytes, C_R as int) {
                        Err(e) => Err(e),
                        Ok((d3, sr)) => {
                            let r = prev.0 + sr - 64 + half(dg);
                            match d_get(d3, bytes, C_B as int) {
                                Err(e) => Err(e),
                                Ok((d4, sb)) => {
                                    let b = prev.2 + sb - 64 + half(dg);
                                    let g = prev.1 + dg;
                                    if !(0 <= r < 32 && 0 <= g < 64 && 0 <= b < 32) {
                                        Err(Error::InvalidStream)
                                    } else {
                                        let c = r * 2048 + g * 32 + b;
                                        Ok(ColorDec {
                                            d: d4,
                                            prev: st.prev.update(j, c as u16),
                                            out: st.out.update(at + 2 * j, (c % 256) as u8).update(at + 2 * j + 1, (c / 256) as u8),
                                        })
                                    }
                                },
                            }
                        },
                    }
                },
            }
        },
    }
}

/// Decode the nonzero bytes of a selector difference from byte `j` on,
/// accumulating them into `v`.
pub open spec fn dec_diffs(d: DCoder, bytes: Seq<u8>, m: int, j: int, v: int) -> Result<(DCoder, int)>
    decreases 4 - j,
{
    if j >= 4 {
        Ok((d, v))
    } else if (m / p2(j as nat)) % 2 == 1 {
        match d_get(d, bytes, DIFF as int) {
            Err(e) => Err(e),
            Ok((d1, b)) => dec_diffs(d1, bytes, m, j + 1, v + b * p256(j as nat)),
        }
    } else {
        dec_diffs(d, bytes, m, j + 1, v)
    }
}

/// Decode the selector word of the `k`-th block and store it.
pub open spec fn color_dec_selector(st: ColorDec, bytes: Seq<u8>, l: Layout, top: Seq<u32>, k: int) -> Result<ColorDec> {
    let at = color_pos(l, k);
    match d_get(st.d, bytes, INDEX as int) {
        Err(e) => Err(e),
        Ok((d1, f)) => match d_get(d1, bytes, MASK as int) {
            Err(e) => Err(e),
            Ok((d2, m)) => match dec_diffs(d2, bytes, m, 0, 0) {
                Err(e) => Err(e),
                Ok((d3, v)) => {
                    let w = (v as u32) ^ top[f];
                    Ok(ColorDec {
                        d: d3,
                        prev: st.prev,
                        out: st.out.update(at + 4, byte_of(w, 0)).update(at + 5, byte_of(w, 1)).update(at + 6, byte_of(w, 2)).update(
                            at + 7,
                            byte_of(w, 3),
                        ),
                    })
                },
            },
        },
    }
}

#[verifier::opaque]
pub open spec fn color_dec_block(st: ColorDec, bytes: Seq<u8>, l: Layout, top: Seq<u32>, k: int) -> Result<ColorDec> {
    match color_dec_endpoint(st, bytes, l, k, 0) {
        Err(e) => Err(e),
        Ok(s1) => match color_dec_endpoint(s1, bytes, l, k, 1) {
            Err(e) => Err(e),
            Ok(s2) => color_dec_selector(s2, bytes, l, top, k),
        },
    }
}

/// Decode the blocks from the `k`-th on.
pub open spec fn color_dec_from(st: ColorDec, bytes: Seq<u8>, l: Layout, top: Seq<u32>, k: int) -> Result<ColorDec>
    decreases blocks(l) - k,
{
    if k >= blocks(l) {
        Ok(st)
    } else {
        match color_dec_block(st, bytes, l, top, k) {
            Err(e) => Err(e),
            Ok(s1) => color_dec_from(s1, bytes, l, top, k + 1),
        }
    }
}

/// Decode raw bytes from byte `j` on, accumulating them into `v`.
pub open spec fn dec_bits_bytes(d: DCoder, bytes: Seq<u8>, j: int, v: int) -> Result<(DCoder, int)>
    decreases 4 - j,
{
    if j >= 4 {
        Ok((d, v))
    } else {
        match d_bits(d, bytes, 8) {
            Err(e) => Err(e),
            Ok((d1, b)) => dec_bits_bytes(d1, bytes, j + 1, v + b * p256(j as nat)),
        }
    }
}

/// Decode bytes under model `id` from byte `j` on, accumulating them into `v`.
pub open spec fn dec_get_bytes(d: DCoder, bytes: Seq<u8>, id: int, j: int, v: int) -> Result<(DCoder, int)>
    decreases 4 - j,
{
    if j >= 4 {
        Ok((d, v))
    } else {
        match d_get(d, bytes, id) {
            Err(e) => Err(e),
            Ok((d1, b)) => dec_get_bytes(d1, bytes, id, j + 1, v + b * p256(j as nat)),
        }
    }
}

/// Sum of two words modulo 2^32.
pub open spec fn wadd(a: u32, b: u32) -> u32 {
    if a + b > u32::MAX { (a + b - 0x1_0000_0000int) as u32 } else { (a + b) as u32 }
}

/// Decode dictionary entries until there are `n`.
pub open spec fn color_dec_entries(d: DCoder, bytes: Seq<u8>, top: Seq<u32>, n: int) -> Result<(DCoder, Seq<u32>)>
    decreases n - top.len(),
{
    if top.len() >= n || top.len() == 0 {
        Ok((d, top))
    } else {
        match dec_get_bytes(d, bytes, ENTRY as int, 0, 0) {
            Err(e) => Err(e),
            Ok((d1, v)) => color_dec_entries(d1, bytes, top.push(wadd(top.last(), v as u32)), n),
        }
    }
}

/// Decode the colour plane into `out`.
pub open spec fn color_decode(dec: DecState, bytes: Seq<u8>, out: Seq<u8>, l: Layout) -> Result<(DecState, Seq<u8>)> {
    match crate::range::dec_bits(dec, bytes, 8) {
        Err(e) => Err(e),
        Ok((d1, nm1)) => {
            let n = nm1 + 1;
            let dc = DCoder { dec: d1, models: color_models(n as int) };
            match dec_bits_bytes(dc, bytes, 0, 0) {
                Err(e) => Err(e),
                Ok((dc2, t0)) => match color_dec_entries(dc2, bytes, seq![t0 as u32], n as int) {
                    Err(e) => Err(e),
                    Ok((dc3, top)) => match color_dec_from(ColorDec { d: dc3, prev: seq![0u16, 0u16], out }, bytes, l, top, 0) {
                        Err(e) => Err(e),
                        Ok(st) => Ok((st.d.dec, st.out)),
                    },
                },
            }
        },
    }
}

/// The output as block `k` leaves it when its decoding fails: the endpoints
/// decoded before the failure are stored.
pub open spec fn color_block_left(st: ColorDec, bytes: Seq<u8>, l: Layout, k: int) -> Seq<u8> {
    match color_dec_endpoint(st, bytes, l, k, 0) {
        Err(_) => st.out,
        Ok(s1) => match color_dec_endpoint(s1, bytes, l, k, 1) {
            Err(_) => s1.out,
            Ok(s2) => s2.out,
        },
    }
}

/// The output as decoding the blocks from the `k`-th on leaves it, whether
/// or not a block fails.
pub open spec fn color_left_from(st: ColorDec, bytes: Seq<u8>, l: Layout, top: Seq<u32>, k: int) -> Seq<u8>
    decreases blocks(l) - k,
{
    if k >= blocks(l) {
        st.out
    } else {
        match color_dec_block(st, bytes, l, top, k) {
            Ok(s1) => color_left_from(s1, bytes, l, top, k + 1),
            Err(_) => color_block_left(st, bytes, l, k),
        }
    }
}

/// The output as decoding the colour plane leaves it, whether or not it
/// fails.
pub open spec fn color_left(dec: DecState, bytes: Seq<u8>, out: Seq<u8>, l: Layout) -> Seq<u8> {
    match crate::range::dec_bits(dec, bytes, 8) {
        Err(_) => out,
        Ok((d1, nm1)) => {
            let n = nm1 + 1;
            let dc = DCoder { dec: d1, models: color_models(n as int) };
            match dec_bits_bytes(dc, bytes, 0, 0) {
                Err(_) => out,
                Ok((dc2, t0)) => match color_dec_entries(dc2, bytes, seq![t0 as u32], n as int) {
                    Err(_) => out,
                    Ok((dc3, top)) => color_left_from(ColorDec { d: dc3, prev: seq![0u16, 0u16], out }, bytes, l, top, 0),
                },
            }
        },
    }
}

// ---------------------------------------------------------------------------
// Executable helpers

/// Models sized as `sizes`.
pub open spec fn sized(models: Seq<ModelView>, sizes: Seq<usize>) -> bool {
    &&& models.len() == sizes.len()
    &&& forall|i: int| 0 <= i < sizes.len() ==> #[trigger] models[i].counts.len() == sizes[i]
}

pub proof fn lemma_put_sized(c: Coder, sizes: Seq<usize>, id: int, s: int)
    requires
        crate::range::coder_wf(c),
        sized(c.models, sizes),
        0 <= id < sizes.len(),
        0 <= s < sizes[id],
    ensures
        crate::range::coder_wf(c_put(c, id, s)),
        sized(c_put(c, id, s).models, sizes),
{
    crate::range::lemma_c_put(c, id, s);
}

/// The coder view of an encoder and a bank of models.
pub open spec fn coder_of(e: EncState, b: Seq<Model>) -> Coder {
    Coder { enc: e, models: bank_view(b) }
}

fn rgb_of(c: u16) -> (r: (i32, i32, i32))
    ensures
        (r.0 as int, r.1 as int, r.2 as int) == rgb(c),
        0 <= r.0 < 32,
        0 <= r.1 < 64,
        0 <= r.2 < 32,
{
    ((c / 2048) as i32, ((c / 32) % 64) as i32, (c % 32) as i32)
}

fn abs_of(v: i32) -> (r: i32)
    requires
        -1000 < v < 1000,
    ensures
        r == abs(v as int),
{
    if v < 0 { -v } else { v }
}

fn delta_of(a: (i32, i32, i32), b: (i32, i32, i32)) -> (r: i32)
    requires
        0 <= a.0 < 64, 0 <= a.1 < 64, 0 <= a.2 < 64,
        0 <= b.0 < 64, 0 <= b.1 < 64, 0 <= b.2 < 64,
    ensures
        r == delta((a.0 as int, a.1 as int, a.2 as int), (b.0 as int, b.1 as int, b.2 as int)),
{
    abs_of(a.0 - b.0) + abs_of(a.1 - b.1) + abs_of(a.2 - b.2)
}

fn half_of(v: i32) -> (r: i32)
    requires
        -1000 < v < 1000,
    ensures
        r == half(v as int),
        v >= 0 ==> 0 <= v - 2 * r <= 1,
        v < 0 ==> -1 <= v - 2 * r <= 0,
{
    if v >= 0 {
        ((v as u32) / 2) as i32
    } else {
        -((((-v) as u32) / 2) as i32)
    }
}

fn popcount_of(v: u32) -> (r: u32)
    ensures
        r == popcount(v),
        r <= 32,
{
    let mut x = v;
    let mut n: u32 = 0;
    proof {
        lemma_popcount_bound(v);
    }
    while x != 0
        invariant
            popcount(v) == n + popcount(x),
            n + popcount(x) <= 32,
        decreases x,
    {
        proof {
            lemma_popcount_bound(x);
        }
        n = n + x % 2;
        x = x / 2;
    }
    n
}

pub open spec fn p2(b: nat) -> int
    decreases b,
{
    if b == 0 {
        1
    } else {
        2 * p2((b - 1) as nat)
    }
}

pub proof fn lemma_popcount_bound(v: u32)
    ensures
        popcount(v) <= 32,
        popcount(v) == 0 <==> v == 0,
{
    assert(p2(32) == 0x1_0000_0000int) by {
        reveal_with_fuel(p2, 33);
    }
    lemma_popcount_bits(v, 32);
}

proof fn lemma_popcount_bits(v: u32, b: nat)
    requires
        v < p2(b),
    ensures
        popcount(v) <= b,
        popcount(v) == 0 <==> v == 0,
    decreases b,
{
    if v != 0 {
        if b == 0 {
        } else {
            lemma_popcount_bits(v / 2, (b - 1) as nat);
        }
    }
}

proof fn lemma_closer_order(top: Seq<u32>, p: u32, i: int, j: int, k: int)
    ensures
        !closer(top, p, i, i),
        closer(top, p, i, j) && closer(top, p, j, k) ==> closer(top, p, i, k),
{
}

pub proof fn lemma_best_from(top: Seq<u32>, p: u32, i: int)
    requires
        1 <= i <= top.len(),
    ensures
        0 <= best_from(top, p, i) < i,
        forall|j: int| 0 <= j < i ==> !closer(top, p, j, #[trigger] best_from(top, p, i)),
    decreases i,
{
    if i > 1 {
        lemma_best_from(top, p, i - 1);
        let b = best_from(top, p, i - 1);
        assert forall|j: int| 0 <= j < i implies !closer(top, p, j, #[trigger] best_from(top, p, i)) by {
            lemma_closer_order(top, p, j, i - 1, b);
            lemma_closer_order(top, p, j, j, j);
            if j < i - 1 {
                assert(!closer(top, p, j, b));
            }
        }
    }
}

/// An entry equal to the selector is its best match.
proof fn lemma_exact_match(top: Seq<u32>, p: u32, h: int)
    requires
        strictly_sorted(top),
        1 <= top.len(),
        0 <= h < top.len(),
        top[h] == p,
    ensures
        best_match(top, p) == h,
{
    lemma_best_from(top, p, top.len() as int);
    let b = best_match(top, p);
    let th = top[h];
    assert(p ^ th == 0) by (bit_vector)
        requires th == p;
    lemma_popcount_bound(p ^ top[b]);
    lemma_popcount_bound(p ^ top[h]);
    assert(!closer(top, p, h, b));
    let t = top[b];
    assert(p ^ t == 0 ==> t == p) by (bit_vector);
    if b != h {
        assert(top[b] != top[h]);
    }
}

/// The dictionary entry that selector `p` is coded against.
fn find_entry(top: &Vec<u32>, p: u32) -> (r: usize)
    requires
        strictly_sorted(top@),
        1 <= top@.len() <= 256,
    ensures
        r == best_match(top@, p),
        r < top@.len(),
{
    proof {
        lemma_best_from(top@, p, top@.len() as int);
    }
    // An exact match has zero error and needs no nearest-pattern search.
    let mut lo: usize = 0;
    let mut hi: usize = top.len();
    while lo < hi
        invariant
            0 <= lo <= hi <= top@.len(),
            strictly_sorted(top@),
            forall|i: int| 0 <= i < lo ==> top@[i] < p,
            forall|i: int| hi <= i < top@.len() ==> top@[i] > p,
        decreases hi - lo,
    {
        let mid = lo + (hi - lo) / 2;
        if top[mid] == p {
            proof {
                lemma_exact_match(top@, p, mid as int);
            }
            return mid;
        } else if top[mid] < p {
            lo = mid + 1;
        } else {
            hi = mid;
        }
    }
    let mut best: usize = 0;
    let mut best_err = popcount_of(p ^ top[0]);
    let mut i: usize = 1;
    while i < top.len()
        invariant
            1 <= i <= top@.len(),
            top@.len() <= 256,
            best == best_from(top@, p, i as int),
            best < i,
            best_err == popcount(p ^ top@[best as int]),
        decreases top@.len() - i,
    {
        let err = popcount_of(p ^ top[i]);
        if err < best_err || (err == best_err && top[i] > top[best]) {
            best = i;
            best_err = err;
        }
        i = i + 1;
    }
    best
}


/// The invariant of the colour coding loops.
pub open spec fn color_bank_ok(e: EncState, b: Seq<Model>, n: int) -> bool {
    &&& crate::range::enc_inv(e)
    &&& bank_inv(b)
    &&& sized(bank_view(b), color_sizes(n))
}

proof fn lemma_bank_coder(e: EncState, b: Seq<Model>, n: int)
    requires
        color_bank_ok(e, b, n),
    ensures
        crate::range::coder_wf(coder_of(e, b)),
{
    crate::range::lemma_bank_wf(b);
}

/// Code one endpoint of a block.
fn encode_endpoint(
    encoder: &mut Encoder,
    bank: &mut Vec<Model>,
    prev: &mut Vec<u16>,
    input: &[u8],
    layout: Layout,
    k: usize,
    at: usize,
    j: usize,
    Ghost(n): Ghost<int>,
)
    requires
        color_bank_ok(old(encoder).view(), old(bank)@, n),
        old(prev)@.len() == 2,
        layout.wf(),
        input@.len() == layout.len(),
        k < blocks(layout),
        at == color_pos(layout, k as int),
        j < 2,
    ensures
        color_bank_ok(final(encoder).view(), final(bank)@, n),
        final(prev)@.len() == 2,
        (ColorEnc { c: coder_of(final(encoder).view(), final(bank)@), prev: final(prev)@ })
            == color_enc_endpoint((ColorEnc { c: coder_of(old(encoder).view(), old(bank)@), prev: old(prev)@ }), input@, layout, k as int, j as int),
{
    proof {
        lemma_color_pos(layout, k as int);
    }
    let ghost st = ColorEnc { c: coder_of(encoder.view(), bank@), prev: prev@ };
    let columns = layout.columns;
    let y = k / columns;
    let x = k % columns;
    let c = read_u16(input, at + j * 2);
    let curr = rgb_of(c);
    let mut p = rgb_of(prev[j]);
    if y > 0 && x != 0 {
        let up = rgb_of(read_u16(input, at - columns * layout.stride + j * 2));
        let use_up = delta_of(curr, up) < delta_of(curr, p);
        proof {
            lemma_bank_coder(encoder.view(), bank@, n);
            lemma_put_sized(coder_of(encoder.view(), bank@), color_sizes(n), REFERENCE as int, if use_up { 1 } else { 0 });
        }
        bank_put(encoder, bank, REFERENCE, if use_up { 1 } else { 0 });
        if use_up {
            p = up;
        }
    }
    let dg = curr.1 - p.1;
    let h = half_of(dg);
    let sg = (dg + 64) as u32;
    let sr = (curr.0 - p.0 - h + 64) as u32;
    let sb = (curr.2 - p.2 - h + 64) as u32;
    proof {
        lemma_bank_coder(encoder.view(), bank@, n);
        lemma_put_sized(coder_of(encoder.view(), bank@), color_sizes(n), C_G as int, sg as int);
    }
    bank_put(encoder, bank, C_G, sg);
    proof {
        lemma_bank_coder(encoder.view(), bank@, n);
        lemma_put_sized(coder_of(encoder.view(), bank@), color_sizes(n), C_R as int, sr as int);
    }
    bank_put(encoder, bank, C_R, sr);
    proof {
        lemma_bank_coder(encoder.view(), bank@, n);
        lemma_put_sized(coder_of(encoder.view(), bank@), color_sizes(n), C_B as int, sb as int);
    }
    bank_put(encoder, bank, C_B, sb);
    prev.set(j, c);
}

/// Code the selector word of a block.
fn encode_selector(
    encoder: &mut Encoder,
    bank: &mut Vec<Model>,
    input: &[u8],
    layout: Layout,
    top: &Vec<u32>,
    k: usize,
    at: usize,
)
    requires
        color_bank_ok(old(encoder).view(), old(bank)@, top@.len() as int),
        layout.wf(),
        input@.len() == layout.len(),
        k < blocks(layout),
        at == color_pos(layout, k as int),
        strictly_sorted(top@),
        1 <= top@.len() <= 256,
    ensures
        color_bank_ok(final(encoder).view(), final(bank)@, top@.len() as int),
        coder_of(final(encoder).view(), final(bank)@)
            == color_enc_selector(coder_of(old(encoder).view(), old(bank)@), input@, layout, top@, k as int),
{
    let ghost n = top@.len() as int;
    proof {
        lemma_color_pos(layout, k as int);
    }
    let pattern = read_u32(input, at + 4);
    let found = find_entry(top, pattern);
    proof {
        lemma_bank_coder(encoder.view(), bank@, n);
        lemma_put_sized(coder_of(encoder.view(), bank@), color_sizes(n), INDEX as int, found as int);
    }
    bank_put(encoder, bank, INDEX, found as u32);
    let v = pattern ^ top[found];
    let b0 = le_byte(v, 0);
    let b1 = le_byte(v, 1);
    let b2 = le_byte(v, 2);
    let b3 = le_byte(v, 3);
    let mask: u32 = (if b0 != 0 { 1 } else { 0 }) + (if b1 != 0 { 2 } else { 0 }) + (if b2 != 0 { 4 } else { 0 }) + (if b3
        != 0 {
        8
    } else {
        0
    });
    let ghost c0 = coder_of(old(encoder).view(), old(bank)@);
    let ghost c1 = c_put(c0, INDEX as int, found as int);
    proof {
        lemma_bank_coder(encoder.view(), bank@, n);
        lemma_put_sized(coder_of(encoder.view(), bank@), color_sizes(n), MASK as int, mask as int);
    }
    bank_put(encoder, bank, MASK, mask);
    let ghost c2 = coder_of(encoder.view(), bank@);
    if b0 != 0 {
        proof {
            lemma_bank_coder(encoder.view(), bank@, n);
            lemma_put_sized(coder_of(encoder.view(), bank@), color_sizes(n), DIFF as int, b0 as int);
        }
        bank_put(encoder, bank, DIFF, b0 as u32);
    }
    let ghost c3 = coder_of(encoder.view(), bank@);
    if b1 != 0 {
        proof {
            lemma_bank_coder(encoder.view(), bank@, n);
            lemma_put_sized(coder_of(encoder.view(), bank@), color_sizes(n), DIFF as int, b1 as int);
        }
        bank_put(encoder, bank, DIFF, b1 as u32);
    }
    let ghost c4 = coder_of(encoder.view(), bank@);
    if b2 != 0 {
        proof {
            lemma_bank_coder(encoder.view(), bank@, n);
            lemma_put_sized(coder_of(encoder.view(), bank@), color_sizes(n), DIFF as int, b2 as int);
        }
        bank_put(encoder, bank, DIFF, b2 as u32);
    }
    let ghost c5 = coder_of(encoder.view(), bank@);
    if b3 != 0 {
        proof {
            lemma_bank_coder(encoder.view(), bank@, n);
            lemma_put_sized(coder_of(encoder.view(), bank@), color_sizes(n), DIFF as int, b3 as int);
        }
        bank_put(encoder, bank, DIFF, b3 as u32);
    }
    proof {
        reveal_with_fuel(put_diffs, 5);
        assert(put_diffs(c2, v, 1) == c3);
        assert(put_diffs(c2, v, 2) == c4);
        assert(put_diffs(c2, v, 3) == c5);
    }
}


/// The selector dictionary of a plane.
fn table(input: &[u8], layout: Layout) -> (top: Vec<u32>)
    requires
        layout.wf(),
        input@.len() == layout.len(),
    ensures
        top@ == table_spec(input@, layout),
        strictly_sorted(top@),
        1 <= top@.len() <= 256,
{
    let total = layout.columns * layout.rows;
    let mut values: Vec<u32> = Vec::new();
    let mut k: usize = 0;
    while k < total
        invariant
            0 <= k <= total,
            total == blocks(layout),
            layout.wf(),
            input@.len() == layout.len(),
            values@ == selectors(input@, layout).take(k as int),
        decreases total - k,
    {
        proof {
            crate::alpha::lemma_alpha_pos(layout, k as int);
        }
        values.push(read_u32(input, k * layout.stride + layout.offset + 4));
        k = k + 1;
        proof {
            assert(values@ =~= selectors(input@, layout).take(k as int));
        }
    }
    proof {
        assert(values@ =~= selectors(input@, layout));
        assert(layout.columns * layout.rows >= 1) by (nonlinear_arith)
            requires layout.columns >= 1, layout.rows >= 1;
    }
    let top = top_words(values);
    proof {
        crate::dictionary::lemma_dictionary(selectors(input@, layout));
    }
    top
}

/// Code the dictionary header.
fn encode_header(encoder: &mut Encoder, bank: &mut Vec<Model>, top: &Vec<u32>)
    requires
        color_bank_ok(old(encoder).view(), old(bank)@, top@.len() as int),
        1 <= top@.len() <= 256,
    ensures
        color_bank_ok(final(encoder).view(), final(bank)@, top@.len() as int),
        coder_of(final(encoder).view(), final(bank)@) == color_enc_header(coder_of(old(encoder).view(), old(bank)@), top@),
{
    let ghost n = top@.len() as int;
    let ghost c0 = coder_of(encoder.view(), bank@);
    proof {
        vstd::arithmetic::power2::lemma2_to64();
    }
    encoder.bits((top.len() - 1) as u32, 8);
    let ghost c1 = coder_of(encoder.view(), bank@);
    assert(c1 == c_bits(c0, (top@.len() - 1) as u32, 8));
    let first = top[0];
    let mut j: u32 = 0;
    while j < 4
        invariant
            0 <= j <= 4,
            color_bank_ok(encoder.view(), bank@, n),
            top@.len() == n,
            n >= 1,
            first == top@[0],
            coder_of(encoder.view(), bank@) == bits_bytes(c1, first, j as int),
        decreases 4 - j,
    {
        let b = le_byte(first, j);
        proof {
            vstd::arithmetic::power2::lemma2_to64();
        }
        encoder.bits(b as u32, 8);
        j = j + 1;
    }
    let ghost c2 = coder_of(encoder.view(), bank@);
    let mut i: usize = 1;
    proof {
        assert(color_enc_entries(c2, top@, 1) == c2);
    }
    while i < top.len()
        invariant
            1 <= i <= top@.len(),
            top@.len() == n,
            n <= 256,
            color_bank_ok(encoder.view(), bank@, n),
            coder_of(encoder.view(), bank@) == color_enc_entries(c2, top@, i as int),
        decreases top@.len() - i,
    {
        let d = top[i].wrapping_sub(top[i - 1]);
        assert(d == wsub(top@[i as int], top@[i - 1]));
        let ghost ci = coder_of(encoder.view(), bank@);
        let mut j: u32 = 0;
        while j < 4
            invariant
                0 <= j <= 4,
                n <= 256,
                color_bank_ok(encoder.view(), bank@, n),
                coder_of(encoder.view(), bank@) == put_bytes(ci, ENTRY as int, d, j as int),
            decreases 4 - j,
        {
            let b = le_byte(d, j);
            proof {
                lemma_bank_coder(encoder.view(), bank@, n);
                lemma_put_sized(coder_of(encoder.view(), bank@), color_sizes(n), ENTRY as int, b as int);
            }
            bank_put(encoder, bank, ENTRY, b as u32);
            j = j + 1;
        }
        i = i + 1;
    }
}

/// Code the `k`-th block.
fn encode_block(
    encoder: &mut Encoder,
    bank: &mut Vec<Model>,
    prev: &mut Vec<u16>,
    input: &[u8],
    layout: Layout,
    top: &Vec<u32>,
    k: usize,
)
    requires
        color_bank_ok(old(encoder).view(), old(bank)@, top@.len() as int),
        old(prev)@.len() == 2,
        layout.wf(),
        input@.len() == layout.len(),
        k < blocks(layout),
        strictly_sorted(top@),
        1 <= top@.len() <= 256,
    ensures
        color_bank_ok(final(encoder).view(), final(bank)@, top@.len() as int),
        final(prev)@.len() == 2,
        (ColorEnc { c: coder_of(final(encoder).view(), final(bank)@), prev: final(prev)@ })
            == color_enc_block((ColorEnc { c: coder_of(old(encoder).view(), old(bank)@), prev: old(prev)@ }), input@, layout, top@, k as int),
{
    proof {
        lemma_color_pos(layout, k as int);
    }
    let columns = layout.columns;
    let y = k / columns;
    let x = k % columns;
    let zx = if y % 2 == 1 { x } else { columns - x - 1 };
    proof {
        assert(y as int == k as int / (layout.columns as int));
        assert((y * columns + zx) * layout.stride + layout.offset + 8 <= layout.len());
        assert(layout.len() <= usize::MAX);
        assert((y * columns + zx) * layout.stride + layout.offset == color_pos(layout, k as int));
    }
    let idx = y * columns + zx;
    assert(idx * layout.stride <= usize::MAX);
    let at = idx * layout.stride + layout.offset;
    encode_endpoint(encoder, bank, prev, input, layout, k, at, 0, Ghost(top@.len() as int));
    encode_endpoint(encoder, bank, prev, input, layout, k, at, 1, Ghost(top@.len() as int));
    encode_selector(encoder, bank, input, layout, top, k, at);
}

/// Code the colour plane of `input`.
pub(crate) fn encode(encoder: &mut Encoder, input: &[u8], layout: Layout)
    requires
        old(encoder).inv(),
        layout.wf(),
        input@.len() == layout.len(),
    ensures
        final(encoder).inv(),
        final(encoder).view() == color_encode(old(encoder).view(), input@, layout),
{
    let top = table(input, layout);
    let ghost n = top@.len() as int;
    let sizes: Vec<usize> = vec![128, 128, 128, top.len(), 256, 16, 2, 256];
    let mut bank = new_bank(&sizes, false);
    proof {
        assert(sizes@ == color_sizes(n));
        assert(bank_view(bank@) == color_models(n));
        assert(sized(bank_view(bank@), color_sizes(n)));
    }
    let ghost c0 = coder_of(encoder.view(), bank@);
    encode_header(encoder, &mut bank, &top);
    let ghost st0 = ColorEnc { c: coder_of(encoder.view(), bank@), prev: seq![0u16, 0u16] };
    let mut prev: Vec<u16> = vec![0, 0];
    let total = layout.columns * layout.rows;
    let columns = layout.columns;
    let mut k: usize = 0;
    proof {
        assert(prev@ == seq![0u16, 0u16]);
    }
    while k < total
        invariant
            0 <= k <= total,
            total == blocks(layout),
            columns == layout.columns,
            layout.wf(),
            input@.len() == layout.len(),
            top@.len() == n,
            strictly_sorted(top@),
            1 <= n <= 256,
            prev@.len() == 2,
            color_bank_ok(encoder.view(), bank@, n),
            (ColorEnc { c: coder_of(encoder.view(), bank@), prev: prev@ }) == color_enc_blocks(st0, input@, layout, top@, k as int),
        decreases total - k,
    {
        encode_block(encoder, &mut bank, &mut prev, input, layout, &top, k);
        k = k + 1;
    }
}


/// 2^j for a byte index.
fn bit_weight(j: u32) -> (r: u32)
    requires
        j < 4,
    ensures
        r == p2(j as nat),
        r >= 1,
{
    proof {
        reveal_with_fuel(p2, 5);
    }
    if j == 0 { 1 } else if j == 1 { 2 } else if j == 2 { 4 } else { 8 }
}

/// 256^j for a byte index.
fn byte_weight(j: u32) -> (r: u32)
    requires
        j < 4,
    ensures
        r == p256(j as nat),
{
    proof {
        lemma_p256_small();
    }
    if j == 0 { 1 } else if j == 1 { 256 } else if j == 2 { 65536 } else { 16777216 }
}

/// The invariant of the colour decoding loops.
pub open spec fn color_dbank_ok(d: DecState, bytes: Seq<u8>, b: Seq<Model>, n: int) -> bool {
    &&& crate::range::dec_inv(d, bytes)
    &&& bank_inv(b)
    &&& sized(bank_view(b), color_sizes(n))
}

/// The decoder coder view of a decoder and a bank of models.
pub open spec fn dcoder_of(d: DecState, b: Seq<Model>) -> DCoder {
    DCoder { dec: d, models: bank_view(b) }
}

pub proof fn lemma_get_sized(d: DCoder, bytes: Seq<u8>, id: int, sizes: Seq<usize>)
    requires
        sized(d.models, sizes),
        0 <= id < sizes.len(),
        crate::range::models_wf(d.models),
    ensures
        d_get(d, bytes, id) matches Ok((d2, s)) ==> sized(d2.models, sizes),
{
    if let Ok((d2, s)) = d_get(d, bytes, id) {
        assert(crate::range::model_wf(d.models[id]));
        crate::range::lemma_search_range(d.models[id].cdf, (d.dec.value / (d.dec.len / 32768)) as int);
        crate::range::lemma_record_len(d.models[id], s);
    }
}


proof fn lemma_dbank(d: DecState, bytes: Seq<u8>, b: Seq<Model>, n: int, id: int)
    requires
        color_dbank_ok(d, bytes, b, n),
        0 <= id < 8,
    ensures
        d_get(dcoder_of(d, b), bytes, id) matches Ok((d2, s)) ==> sized(d2.models, color_sizes(n)),
{
    crate::range::lemma_bank_wf(b);
    lemma_get_sized(dcoder_of(d, b), bytes, id, color_sizes(n));
}

/// Decode one endpoint of a block.
fn decode_endpoint(
    decoder: &mut Decoder,
    bank: &mut Vec<Model>,
    prev: &mut Vec<u16>,
    out: &mut [u8],
    layout: Layout,
    k: usize,
    at: usize,
    j: usize,
    Ghost(n): Ghost<int>,
) -> (r: Result<()>)
    requires
        color_dbank_ok(old(decoder).view(), old(decoder).input(), old(bank)@, n),
        old(prev)@.len() == 2,
        layout.wf(),
        old(out)@.len() == layout.len(),
        k < blocks(layout),
        at == color_pos(layout, k as int),
        j < 2,
    ensures
        final(decoder).input() == old(decoder).input(),
        final(out)@.len() == old(out)@.len(),
        r is Err ==> final(out)@ == old(out)@,
        match color_dec_endpoint(
            (ColorDec { d: dcoder_of(old(decoder).view(), old(bank)@), prev: old(prev)@, out: old(out)@ }),
            old(decoder).input(),
            layout,
            k as int,
            j as int,
        ) {
            Ok(st) => {
                &&& r is Ok
                &&& st == (ColorDec { d: dcoder_of(final(decoder).view(), final(bank)@), prev: final(prev)@, out: final(out)@ })
                &&& color_dbank_ok(final(decoder).view(), final(decoder).input(), final(bank)@, n)
                &&& final(prev)@.len() == 2
            },
            Err(e) => r == Err::<(), Error>(e),
        },
{
    proof {
        lemma_color_pos(layout, k as int);
    }
    let columns = layout.columns;
    let y = k / columns;
    let x = k % columns;
    let mut p = rgb_of(prev[j]);
    if y > 0 && x != 0 {
        proof {
            lemma_dbank(decoder.view(), decoder.input(), bank@, n, REFERENCE as int);
        }
        let u = bank_get(decoder, bank, REFERENCE)?;
        if u != 0 {
            p = rgb_of(read_u16(out, at - columns * layout.stride + j * 2));
        }
    }
    proof {
        lemma_dbank(decoder.view(), decoder.input(), bank@, n, C_G as int);
    }
    let sg = bank_get(decoder, bank, C_G)?;
    let dg = sg as i32 - 64;
    let h = half_of(dg);
    proof {
        lemma_dbank(decoder.view(), decoder.input(), bank@, n, C_R as int);
    }
    let sr = bank_get(decoder, bank, C_R)?;
    let r = p.0 + sr as i32 - 64 + h;
    proof {
        lemma_dbank(decoder.view(), decoder.input(), bank@, n, C_B as int);
    }
    let sb = bank_get(decoder, bank, C_B)?;
    let b = p.2 + sb as i32 - 64 + h;
    let g = p.1 + dg;
    if !(0 <= r && r < 32 && 0 <= g && g < 64 && 0 <= b && b < 32) {
        return Err(Error::InvalidStream);
    }
    let c = (r * 2048 + g * 32 + b) as u16;
    out[at + j * 2] = (c % 256) as u8;
    out[at + j * 2 + 1] = (c / 256) as u8;
    prev.set(j, c);
    Ok(())
}

/// Decode the selector word of a block.
fn decode_selector(
    decoder: &mut Decoder,
    bank: &mut Vec<Model>,
    out: &mut [u8],
    layout: Layout,
    top: &Vec<u32>,
    k: usize,
    at: usize,
) -> (r: Result<()>)
    requires
        color_dbank_ok(old(decoder).view(), old(decoder).input(), old(bank)@, top@.len() as int),
        1 <= top@.len() <= 256,
        layout.wf(),
        old(out)@.len() == layout.len(),
        k < blocks(layout),
        at == color_pos(layout, k as int),
    ensures
        final(decoder).input() == old(decoder).input(),
        final(out)@.len() == old(out)@.len(),
        r is Err ==> final(out)@ == old(out)@,
        forall|prev: Seq<u16>| match #[trigger] color_dec_selector(
            (ColorDec { d: dcoder_of(old(decoder).view(), old(bank)@), prev: prev, out: old(out)@ }),
            old(decoder).input(),
            layout,
            top@,
            k as int,
        ) {
            Ok(st) => {
                &&& r is Ok
                &&& st == (ColorDec { d: dcoder_of(final(decoder).view(), final(bank)@), prev: prev, out: final(out)@ })
                &&& color_dbank_ok(final(decoder).view(), final(decoder).input(), final(bank)@, top@.len() as int)
            },
            Err(e) => r == Err::<(), Error>(e),
        },
{
    let ghost n = top@.len() as int;
    let ghost bytes = decoder.input();
    proof {
        lemma_color_pos(layout, k as int);
        lemma_dbank(decoder.view(), decoder.input(), bank@, n, INDEX as int);
    }
    let f = bank_get(decoder, bank, INDEX)?;
    let ghost d1 = dcoder_of(decoder.view(), bank@);
    proof {
        lemma_dbank(decoder.view(), decoder.input(), bank@, n, MASK as int);
    }
    let m = bank_get(decoder, bank, MASK)?;
    let ghost d0 = dcoder_of(decoder.view(), bank@);
    let mut v: u32 = 0;
    let mut j: u32 = 0;
    proof {
        lemma_p256_small();
    }
    while j < 4
        invariant
            0 <= j <= 4,
            decoder.input() == bytes,
            bytes == old(decoder).input(),
            out@.len() == old(out)@.len(),
            out@ == old(out)@,
            d_get(dcoder_of(old(decoder).view(), old(bank)@), bytes, INDEX as int) == Ok::<(DCoder, int), Error>((d1, f as int)),
            d_get(d1, bytes, MASK as int) == Ok::<(DCoder, int), Error>((d0, m as int)),
            color_dbank_ok(decoder.view(), bytes, bank@, n),
            0 <= v < p256(j as nat),
            dec_diffs(d0, bytes, m as int, 0, 0) == dec_diffs(dcoder_of(decoder.view(), bank@), bytes, m as int, j as int, v as int),
        decreases 4 - j,
    {
        let w2 = bit_weight(j);
        let w256 = byte_weight(j);
        if (m / w2) % 2 == 1 {
            proof {
                lemma_dbank(decoder.view(), decoder.input(), bank@, n, DIFF as int);
            }
            let b = bank_get(decoder, bank, DIFF)?;
            proof {
                lemma_p256_small();
                assert(v + b * w256 < p256((j + 1) as nat)) by (nonlinear_arith)
                    requires v < w256, b < 256, p256((j + 1) as nat) == 256 * w256;
            }
            v = v + b * w256;
        } else {
            proof {
                lemma_p256_small();
            }
        }
        j = j + 1;
    }
    let w = v ^ top[f as usize];
    out[at + 4] = le_byte(w, 0);
    out[at + 5] = le_byte(w, 1);
    out[at + 6] = le_byte(w, 2);
    out[at + 7] = le_byte(w, 3);
    Ok(())
}


/// Decode the `k`-th block.
fn decode_block(
    decoder: &mut Decoder,
    bank: &mut Vec<Model>,
    prev: &mut Vec<u16>,
    out: &mut [u8],
    layout: Layout,
    top: &Vec<u32>,
    k: usize,
) -> (r: Result<()>)
    requires
        color_dbank_ok(old(decoder).view(), old(decoder).input(), old(bank)@, top@.len() as int),
        1 <= top@.len() <= 256,
        old(prev)@.len() == 2,
        layout.wf(),
        old(out)@.len() == layout.len(),
        k < blocks(layout),
    ensures
        final(decoder).input() == old(decoder).input(),
        final(out)@.len() == old(out)@.len(),
        r is Err ==> final(out)@ == color_block_left(
            (ColorDec { d: dcoder_of(old(decoder).view(), old(bank)@), prev: old(prev)@, out: old(out)@ }),
            old(decoder).input(),
            layout,
            k as int,
        ),
        match color_dec_block(
            (ColorDec { d: dcoder_of(old(decoder).view(), old(bank)@), prev: old(prev)@, out: old(out)@ }),
            old(decoder).input(),
            layout,
            top@,
            k as int,
        ) {
            Ok(st) => {
                &&& r is Ok
                &&& st == (ColorDec { d: dcoder_of(final(decoder).view(), final(bank)@), prev: final(prev)@, out: final(out)@ })
                &&& color_dbank_ok(final(decoder).view(), final(decoder).input(), final(bank)@, top@.len() as int)
                &&& final(prev)@.len() == 2
            },
            Err(e) => r == Err::<(), Error>(e),
        },
{
    proof {
        lemma_color_pos(layout, k as int);
        reveal(color_dec_block);
    }
    let columns = layout.columns;
    let y = k / columns;
    let x = k % columns;
    let zx = if y % 2 == 1 { x } else { columns - x - 1 };
    proof {
        assert(y as int == k as int / (layout.columns as int));
        assert((y * columns + zx) * layout.stride + layout.offset + 8 <= layout.len());
        assert((y * columns + zx) * layout.stride + layout.offset == color_pos(layout, k as int));
    }
    let idx = y * columns + zx;
    assert(idx * layout.stride <= usize::MAX);
    let at = idx * layout.stride + layout.offset;
    decode_endpoint(decoder, bank, prev, out, layout, k, at, 0, Ghost(top@.len() as int))?;
    decode_endpoint(decoder, bank, prev, out, layout, k, at, 1, Ghost(top@.len() as int))?;
    let ghost pv = prev@;
    let r = decode_selector(decoder, bank, out, layout, top, k, at);
    proof {
        let st = ColorDec { d: dcoder_of(old(decoder).view(), old(bank)@), prev: old(prev)@, out: old(out)@ };
        let _ = color_dec_selector(
            (ColorDec { d: color_dec_endpoint(color_dec_endpoint(st, old(decoder).input(), layout, k as int, 0).unwrap(),
                old(decoder).input(), layout, k as int, 1).unwrap().d, prev: pv,
                out: color_dec_endpoint(color_dec_endpoint(st, old(decoder).input(), layout, k as int, 0).unwrap(),
                old(decoder).input(), layout, k as int, 1).unwrap().out }),
            old(decoder).input(),
            layout,
            top@,
            k as int,
        );
    }
    r
}

/// Decode the colour plane into `out`.
pub(crate) fn decode(decoder: &mut Decoder, out: &mut [u8], layout: Layout) -> (r: Result<()>)
    requires
        old(decoder).inv(),
        layout.wf(),
        old(out)@.len() == layout.len(),
    ensures
        final(decoder).input() == old(decoder).input(),
        final(out)@.len() == old(out)@.len(),
        final(out)@ == color_left(old(decoder).view(), old(decoder).input(), old(out)@, layout),
        match color_decode(old(decoder).view(), old(decoder).input(), old(out)@, layout) {
            Ok((d, o)) => {
                &&& r is Ok
                &&& final(decoder).view() == d
                &&& final(out)@ == o
                &&& final(decoder).inv()
            },
            Err(e) => r == Err::<(), Error>(e),
        },
{
    let ghost bytes = decoder.input();
    proof {
        vstd::arithmetic::power2::lemma2_to64();
    }
    let nm1 = decoder.bits(8)?;
    let ghost dstate1 = decoder.view();
    let n = nm1 as usize + 1;
    let sizes: Vec<usize> = vec![128, 128, 128, n, 256, 16, 2, 256];
    let mut bank = new_bank(&sizes, true);
    proof {
        assert(sizes@ == color_sizes(n as int));
        assert(bank_view(bank@) == color_models(n as int));
        assert(sized(bank_view(bank@), color_sizes(n as int)));
    }
    let ghost dc = dcoder_of(decoder.view(), bank@);
    let mut t0: u32 = 0;
    let mut j: u32 = 0;
    proof {
        lemma_p256_small();
    }
    while j < 4
        invariant
            0 <= j <= 4,
            decoder.input() == bytes,
            bytes == old(decoder).input(),
            out@ == old(out)@,
            crate::range::dec_bits(old(decoder).view(), bytes, 8) == Ok::<(DecState, u32), Error>((dstate1, nm1)),
            n == nm1 + 1,
            n <= 256,
            dc == dcoder_of(dstate1, bank@),
            bank_view(bank@) == color_models(n as int),
            color_dbank_ok(decoder.view(), bytes, bank@, n as int),
            0 <= t0 < p256(j as nat),
            dec_bits_bytes(dc, bytes, 0, 0) == dec_bits_bytes(dcoder_of(decoder.view(), bank@), bytes, j as int, t0 as int),
        decreases 4 - j,
    {
        let w256 = byte_weight(j);
        let b = decoder.bits(8)?;
        proof {
            lemma_p256_small();
            vstd::arithmetic::power2::lemma2_to64();
            assert(t0 + b * w256 < p256((j + 1) as nat)) by (nonlinear_arith)
                requires t0 < w256, b < 256, p256((j + 1) as nat) == 256 * w256;
        }
        t0 = t0 + b * w256;
        j = j + 1;
    }
    let ghost dc2 = dcoder_of(decoder.view(), bank@);
    assert(dec_bits_bytes(dc, bytes, 0, 0) == Ok::<(DCoder, int), Error>((dc2, t0 as int)));
    let mut top: Vec<u32> = vec![t0];
    proof {
        assert(top@ == seq![t0]);
    }
    while top.len() < n
        invariant
            1 <= top@.len() <= n,
            n <= 256,
            n == nm1 + 1,
            crate::range::dec_bits(old(decoder).view(), bytes, 8) == Ok::<(DecState, u32), Error>((dstate1, nm1)),
            dc == (DCoder { dec: dstate1, models: color_models(n as int) }),
            dec_bits_bytes(dc, bytes, 0, 0) == Ok::<(DCoder, int), Error>((dc2, t0 as int)),
            decoder.input() == bytes,
            bytes == old(decoder).input(),
            out@ == old(out)@,
            color_dbank_ok(decoder.view(), bytes, bank@, n as int),
            color_dec_entries(dc2, bytes, seq![t0], n as int) == color_dec_entries(dcoder_of(decoder.view(), bank@), bytes, top@, n as int),
        decreases n - top@.len(),
    {
        let ghost di = dcoder_of(decoder.view(), bank@);
        let mut v: u32 = 0;
        let mut j: u32 = 0;
        proof {
            lemma_p256_small();
        }
        while j < 4
            invariant
                0 <= j <= 4,
                1 <= top@.len() < n,
                n <= 256,
                n == nm1 + 1,
                crate::range::dec_bits(old(decoder).view(), bytes, 8) == Ok::<(DecState, u32), Error>((dstate1, nm1)),
                dc == (DCoder { dec: dstate1, models: color_models(n as int) }),
                dec_bits_bytes(dc, bytes, 0, 0) == Ok::<(DCoder, int), Error>((dc2, t0 as int)),
                decoder.input() == bytes,
                bytes == old(decoder).input(),
                out@ == old(out)@,
                color_dbank_ok(decoder.view(), bytes, bank@, n as int),
                0 <= v < p256(j as nat),
                color_dec_entries(dc2, bytes, seq![t0], n as int) == color_dec_entries(di, bytes, top@, n as int),
                dec_get_bytes(di, bytes, ENTRY as int, 0, 0) == dec_get_bytes(dcoder_of(decoder.view(), bank@), bytes, ENTRY as int, j as int, v as int),
            decreases 4 - j,
        {
            let w256 = byte_weight(j);
            proof {
                lemma_dbank(decoder.view(), decoder.input(), bank@, n as int, ENTRY as int);
            }
            let b = bank_get(decoder, &mut bank, ENTRY)?;
            proof {
                lemma_p256_small();
                assert(v + b * w256 < p256((j + 1) as nat)) by (nonlinear_arith)
                    requires v < w256, b < 256, p256((j + 1) as nat) == 256 * w256;
            }
            v = v + b * w256;
            j = j + 1;
        }
        let last = top[top.len() - 1];
        top.push(last.wrapping_add(v));
    }
    decode_blocks(decoder, &mut bank, out, layout, &top)
}

/// Decode all blocks of the colour plane.
fn decode_blocks(decoder: &mut Decoder, bank: &mut Vec<Model>, out: &mut [u8], layout: Layout, top: &Vec<u32>) -> (r: Result<()>)
    requires
        color_dbank_ok(old(decoder).view(), old(decoder).input(), old(bank)@, top@.len() as int),
        1 <= top@.len() <= 256,
        layout.wf(),
        old(out)@.len() == layout.len(),
    ensures
        final(decoder).input() == old(decoder).input(),
        final(out)@.len() == old(out)@.len(),
        final(out)@ == color_left_from(
            (ColorDec { d: dcoder_of(old(decoder).view(), old(bank)@), prev: seq![0u16, 0u16], out: old(out)@ }),
            old(decoder).input(),
            layout,
            top@,
            0,
        ),
        match color_dec_from(
            (ColorDec { d: dcoder_of(old(decoder).view(), old(bank)@), prev: seq![0u16, 0u16], out: old(out)@ }),
            old(decoder).input(),
            layout,
            top@,
            0,
        ) {
            Ok(st) => {
                &&& r is Ok
                &&& final(decoder).view() == st.d.dec
                &&& final(out)@ == st.out
                &&& final(decoder).inv()
            },
            Err(e) => r == Err::<(), Error>(e),
        },
{
    let ghost bytes = decoder.input();
    let ghost n = top@.len();
    let ghost st0 = ColorDec { d: dcoder_of(decoder.view(), bank@), prev: seq![0u16, 0u16], out: out@ };
    let mut prev: Vec<u16> = vec![0, 0];
    proof {
        assert(prev@ == seq![0u16, 0u16]);
    }
    let total = layout.columns * layout.rows;
    let mut k: usize = 0;
    while k < total
        invariant
            0 <= k <= total,
            total == blocks(layout),
            layout.wf(),
            top@.len() == n,
            1 <= n <= 256,
            prev@.len() == 2,
            out@.len() == layout.len(),
            out@.len() == old(out)@.len(),
            st0 == (ColorDec { d: dcoder_of(old(decoder).view(), old(bank)@), prev: seq![0u16, 0u16], out: old(out)@ }),
            decoder.input() == bytes,
            bytes == old(decoder).input(),
            color_dbank_ok(decoder.view(), bytes, bank@, n as int),
            color_dec_from(st0, bytes, layout, top@, 0) == color_dec_from(
                (ColorDec { d: dcoder_of(decoder.view(), bank@), prev: prev@, out: out@ }),
                bytes,
                layout,
                top@,
                k as int,
            ),
            color_left_from(st0, bytes, layout, top@, 0) == color_left_from(
                (ColorDec { d: dcoder_of(decoder.view(), bank@), prev: prev@, out: out@ }),
                bytes,
                layout,
                top@,
                k as int,
            ),
        decreases total - k,
    {
        decode_block(decoder, bank, &mut prev, out, layout, top, k)?;
        k = k + 1;
    }
    proof {
        crate::range::lemma_bank_wf(bank@);
    }
    Ok(())
}

} // verus!
