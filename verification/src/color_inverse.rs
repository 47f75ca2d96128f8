//! Decoding the colour plane recovers it: a decoder in step with the
//! encoder before the plane reads back the dictionary, every endpoint and
//! every selector word, and ends in step with the encoder after the plane.
use vstd::prelude::*;
use crate::block::{Layout, byte_of, lemma_p256_small, u16_at, u32_at};
use crate::color::{color_decode, color_encode, color_models, selectors, table_spec, color_dec_block, color_dec_from, color_enc_block, color_enc_blocks, DIFF, INDEX, MASK, best_match, color_dec_selector, color_enc_selector, dec_diffs, lemma_best_from, p2, put_diffs, sel_mask, C_B, C_G, C_R, REFERENCE, ColorDec, ColorEnc, blocks, color_dec_endpoint, color_enc_endpoint, color_pos, delta, half, lemma_color_pos, rgb, ENTRY, bits_bytes, color_dec_entries, color_enc_entries, color_sizes, dec_bits_bytes, dec_get_bytes, put_bytes, sized, wadd, wsub};
use crate::decodable::{code_in, csync, dec_sync, lemma_c_bits_step, lemma_c_put_step, lemma_d_bits_sync, lemma_d_get_sync, lemma_narrows_trans, narrows};
use crate::range::{Coder, DCoder, DecState, EncState, c_bits, c_put, coder_wf, enc_inv, p256};
use crate::dictionary::lemma_dictionary;

verus! {

/// A colour coder for a dictionary of `n` entries.
pub open spec fn cok(c: Coder, n: int) -> bool {
    &&& coder_wf(c)
    &&& sized(c.models, color_sizes(n))
    &&& 1 <= n <= 256
}

/// The first `j` bytes of `v` as a number.
pub open spec fn low_bytes(v: u32, j: int) -> int
    decreases j,
{
    if j <= 0 {
        0
    } else {
        low_bytes(v, j - 1) + byte_of(v, j - 1) * p256((j - 1) as nat)
    }
}

pub proof fn lemma_low_bytes(v: u32)
    ensures
        low_bytes(v, 4) == v,
{
    lemma_p256_small();
    crate::block::lemma_bytes_of(v);
    reveal_with_fuel(low_bytes, 5);
}

pub proof fn lemma_cput_ok(c: Coder, n: int, id: int, s: int)
    requires
        cok(c, n),
        0 <= id < 8,
        0 <= s < color_sizes(n)[id],
    ensures
        cok(c_put(c, id, s), n),
        narrows(c.enc, c_put(c, id, s).enc),
{
    lemma_c_put_step(c, id, s);
}

pub proof fn lemma_cbits_ok(c: Coder, n: int, v: u32)
    requires
        cok(c, n),
        v < 256,
    ensures
        cok(c_bits(c, v, 8), n),
        narrows(c.enc, c_bits(c, v, 8).enc),
{
    vstd::arithmetic::power2::lemma2_to64();
    lemma_c_bits_step(c, v, 8);
}

// ---------------------------------------------------------------------------
// Words as four bytes

pub proof fn lemma_bits_bytes_ok(c: Coder, n: int, v: u32, j: int, j2: int)
    requires
        cok(c, n),
        0 <= j <= j2 <= 4,
    ensures
        cok(bits_bytes(c, v, j2), n),
        narrows(bits_bytes(c, v, j).enc, bits_bytes(c, v, j2).enc),
    decreases j2, j,
{
    if j2 > j {
        lemma_bits_bytes_ok(c, n, v, j, j2 - 1);
        let c1 = bits_bytes(c, v, j2 - 1);
        lemma_p256_small();
        lemma_cbits_ok(c1, n, byte_of(v, j2 - 1) as u32);
        lemma_narrows_trans(bits_bytes(c, v, j).enc, c1.enc, bits_bytes(c, v, j2).enc);
    } else if j2 > 0 {
        lemma_bits_bytes_ok(c, n, v, 0, j2);
    }
}

pub proof fn lemma_bits_bytes_sync(d: DCoder, c: Coder, n: int, bytes: Seq<u8>, v: u32, j: int)
    requires
        cok(c, n),
        0 <= j <= 4,
        csync(d, bits_bytes(c, v, j), bytes),
        code_in(bytes, bits_bytes(c, v, 4).enc),
    ensures
        dec_bits_bytes(d, bytes, j, low_bytes(v, j)) matches Ok((d2, w)) && w == v && csync(d2, bits_bytes(c, v, 4), bytes),
    decreases 4 - j,
{
    if j == 4 {
        lemma_low_bytes(v);
    } else {
        lemma_bits_bytes_ok(c, n, v, 0, j);
        lemma_bits_bytes_ok(c, n, v, j + 1, 4);
        let cj = bits_bytes(c, v, j);
        let b = byte_of(v, j) as u32;
        vstd::arithmetic::power2::lemma2_to64();
        lemma_d_bits_sync(d, cj, bytes, b, 8);
        let (d1, b1) = d_bits_ok(d, bytes);
        lemma_bits_bytes_sync(d1, c, n, bytes, v, j + 1);
    }
}

spec fn d_bits_ok(d: DCoder, bytes: Seq<u8>) -> (DCoder, u32) {
    crate::range::d_bits(d, bytes, 8)->Ok_0
}

spec fn got(d: DCoder, bytes: Seq<u8>, id: int) -> (DCoder, int) {
    crate::range::d_get(d, bytes, id)->Ok_0
}

pub proof fn lemma_put_bytes_ok(c: Coder, n: int, id: int, v: u32, j: int, j2: int)
    requires
        cok(c, n),
        0 <= id < 8,
        color_sizes(n)[id] == 256,
        0 <= j <= j2 <= 4,
    ensures
        cok(put_bytes(c, id, v, j2), n),
        narrows(put_bytes(c, id, v, j).enc, put_bytes(c, id, v, j2).enc),
    decreases j2, j,
{
    if j2 > j {
        lemma_put_bytes_ok(c, n, id, v, j, j2 - 1);
        let c1 = put_bytes(c, id, v, j2 - 1);
        lemma_cput_ok(c1, n, id, byte_of(v, j2 - 1) as int);
        lemma_narrows_trans(put_bytes(c, id, v, j).enc, c1.enc, put_bytes(c, id, v, j2).enc);
    } else if j2 > 0 {
        lemma_put_bytes_ok(c, n, id, v, 0, j2);
    }
}

pub proof fn lemma_put_bytes_sync(d: DCoder, c: Coder, n: int, bytes: Seq<u8>, id: int, v: u32, j: int)
    requires
        cok(c, n),
        0 <= id < 8,
        color_sizes(n)[id] == 256,
        0 <= j <= 4,
        csync(d, put_bytes(c, id, v, j), bytes),
        code_in(bytes, put_bytes(c, id, v, 4).enc),
    ensures
        dec_get_bytes(d, bytes, id, j, low_bytes(v, j)) matches Ok((d2, w)) && w == v && csync(d2, put_bytes(c, id, v, 4), bytes),
    decreases 4 - j,
{
    if j == 4 {
        lemma_low_bytes(v);
    } else {
        lemma_put_bytes_ok(c, n, id, v, 0, j);
        lemma_put_bytes_ok(c, n, id, v, j + 1, 4);
        let cj = put_bytes(c, id, v, j);
        lemma_d_get_sync(d, cj, bytes, id, byte_of(v, j) as int);
        let (d1, b1) = got(d, bytes, id);
        lemma_put_bytes_sync(d1, c, n, bytes, id, v, j + 1);
    }
}

// ---------------------------------------------------------------------------
// The dictionary

pub proof fn lemma_entries_ok(c: Coder, top: Seq<u32>, i: int, i2: int)
    requires
        cok(c, top.len() as int),
        1 <= i <= i2 <= top.len(),
    ensures
        cok(color_enc_entries(c, top, i2), top.len() as int),
        narrows(color_enc_entries(c, top, i).enc, color_enc_entries(c, top, i2).enc),
    decreases i2, i,
{
    let n = top.len() as int;
    if i2 > i {
        lemma_entries_ok(c, top, i, i2 - 1);
        let c1 = color_enc_entries(c, top, i2 - 1);
        lemma_put_bytes_ok(c1, n, ENTRY as int, wsub(top[i2 - 1], top[i2 - 2]), 0, 4);
        lemma_narrows_trans(color_enc_entries(c, top, i).enc, c1.enc, color_enc_entries(c, top, i2).enc);
    } else if i2 > 1 {
        lemma_entries_ok(c, top, 1, i2);
    }
}

pub proof fn lemma_entries_sync(d: DCoder, c: Coder, bytes: Seq<u8>, top: Seq<u32>, i: int)
    requires
        cok(c, top.len() as int),
        1 <= i <= top.len(),
        csync(d, color_enc_entries(c, top, i), bytes),
        code_in(bytes, color_enc_entries(c, top, top.len() as int).enc),
    ensures
        color_dec_entries(d, bytes, top.take(i), top.len() as int) matches Ok((d2, t2)) && t2 == top && csync(
            d2,
            color_enc_entries(c, top, top.len() as int),
            bytes,
        ),
    decreases top.len() - i,
{
    let n = top.len() as int;
    if i == n {
        assert(top.take(i) =~= top);
    } else {
        lemma_entries_ok(c, top, 1, i);
        lemma_entries_ok(c, top, i + 1, n);
        let ci = color_enc_entries(c, top, i);
        let w = wsub(top[i], top[i - 1]);
        lemma_put_bytes_ok(ci, n, ENTRY as int, w, 0, 4);
        assert(color_enc_entries(c, top, i + 1) == put_bytes(ci, ENTRY as int, w, 4));
        reveal_with_fuel(low_bytes, 1);
        lemma_put_bytes_sync(d, ci, n, bytes, ENTRY as int, w, 0);
        let (d1, v) = dec_get_bytes(d, bytes, ENTRY as int, 0, 0)->Ok_0;
        assert(wadd(top.take(i).last(), v as u32) == top[i]);
        assert(top.take(i).push(top[i]) =~= top.take(i + 1));
        lemma_entries_sync(d1, c, bytes, top, i + 1);
    }
}

// ---------------------------------------------------------------------------
// Endpoints

/// The channels of a colour recompose it, and each lies in its range.
pub proof fn lemma_rgb(c: u16)
    ensures
        rgb(c).0 * 2048 + rgb(c).1 * 32 + rgb(c).2 == c,
        0 <= rgb(c).0 < 32,
        0 <= rgb(c).1 < 64,
        0 <= rgb(c).2 < 32,
{
    let v = c as int;
    vstd::arithmetic::div_mod::lemma_fundamental_div_mod(v, 2048);
    vstd::arithmetic::div_mod::lemma_fundamental_div_mod(v, 32);
    vstd::arithmetic::div_mod::lemma_fundamental_div_mod(v / 32, 64);
    vstd::arithmetic::div_mod::lemma_div_denominator(v, 32, 64);
}

/// The two bytes of a little-endian 16-bit read.
pub proof fn lemma_u16_bytes(s: Seq<u8>, at: int)
    requires
        0 <= at,
        at + 2 <= s.len(),
    ensures
        (u16_at(s, at) as int) % 256 == s[at],
        (u16_at(s, at) as int) / 256 == s[at + 1],
{
    let v = s[at] as int + 256 * s[at + 1] as int;
    assert(u16_at(s, at) as int == v);
    vstd::arithmetic::div_mod::lemma_fundamental_div_mod_converse(v, 256, s[at + 1] as int, s[at] as int);
}

pub proof fn lemma_half(dg: int)
    requires
        -63 <= dg <= 63,
    ensures
        -31 <= half(dg) <= 31,
{
}

pub proof fn lemma_endpoint_ok(st: ColorEnc, input: Seq<u8>, l: Layout, n: int, k: int, j: int)
    requires
        cok(st.c, n),
        st.prev.len() == 2,
        0 <= j < 2,
    ensures
        cok(color_enc_endpoint(st, input, l, k, j).c, n),
        color_enc_endpoint(st, input, l, k, j).prev.len() == 2,
        narrows(st.c.enc, color_enc_endpoint(st, input, l, k, j).c.enc),
{
    let at = color_pos(l, k);
    let y = k / (l.columns as int);
    let x = k % (l.columns as int);
    let c = u16_at(input, at + 2 * j);
    let curr = rgb(c);
    let p0 = rgb(st.prev[j]);
    let up = rgb(u16_at(input, at - l.columns * l.stride + 2 * j));
    let has_up = y > 0 && x != 0;
    let use_up = has_up && delta(curr, up) < delta(curr, p0);
    lemma_rgb(c);
    lemma_rgb(st.prev[j]);
    lemma_rgb(u16_at(input, at - l.columns * l.stride + 2 * j));
    let c1 = if has_up { c_put(st.c, REFERENCE as int, if use_up { 1 } else { 0 }) } else { st.c };
    if has_up {
        lemma_cput_ok(st.c, n, REFERENCE as int, if use_up { 1 } else { 0 });
    }
    let prev = if use_up { up } else { p0 };
    let dg = curr.1 - prev.1;
    lemma_half(dg);
    let c2 = c_put(c1, C_G as int, dg + 64);
    let c3 = c_put(c2, C_R as int, curr.0 - prev.0 - half(dg) + 64);
    let c4 = c_put(c3, C_B as int, curr.2 - prev.2 - half(dg) + 64);
    lemma_cput_ok(c1, n, C_G as int, dg + 64);
    lemma_cput_ok(c2, n, C_R as int, curr.0 - prev.0 - half(dg) + 64);
    lemma_cput_ok(c3, n, C_B as int, curr.2 - prev.2 - half(dg) + 64);
    lemma_narrows_trans(c2.enc, c3.enc, c4.enc);
    lemma_narrows_trans(c1.enc, c2.enc, c4.enc);
    lemma_narrows_trans(st.c.enc, c1.enc, c4.enc);
}

/// Decoding endpoint `j` of block `k` reads back what was coded and
/// stores the input's two bytes.
pub proof fn lemma_endpoint_sync(sd: ColorDec, st: ColorEnc, bytes: Seq<u8>, input: Seq<u8>, l: Layout, n: int, k: int, j: int)
    requires
        l.wf(),
        input.len() == l.len(),
        0 <= k < blocks(l),
        0 <= j < 2,
        cok(st.c, n),
        st.prev.len() == 2,
        sd.prev == st.prev,
        csync(sd.d, st.c, bytes),
        sd.out.len() == l.len(),
        k / (l.columns as int) > 0 ==> ({
            let u = color_pos(l, k) - l.columns * l.stride + 2 * j;
            sd.out[u] == input[u] && sd.out[u + 1] == input[u + 1]
        }),
        code_in(bytes, color_enc_endpoint(st, input, l, k, j).c.enc),
    ensures
        color_dec_endpoint(sd, bytes, l, k, j) matches Ok(s1) && s1.prev == color_enc_endpoint(st, input, l, k, j).prev
            && csync(s1.d, color_enc_endpoint(st, input, l, k, j).c, bytes) && s1.out == sd.out.update(
            color_pos(l, k) + 2 * j,
            input[color_pos(l, k) + 2 * j],
        ).update(color_pos(l, k) + 2 * j + 1, input[color_pos(l, k) + 2 * j + 1]),
{
    lemma_color_pos(l, k);
    let at = color_pos(l, k);
    let y = k / (l.columns as int);
    let x = k % (l.columns as int);
    let c = u16_at(input, at + 2 * j);
    let curr = rgb(c);
    let p0 = rgb(st.prev[j]);
    let ua = at - l.columns * l.stride + 2 * j;
    let up = rgb(u16_at(input, ua));
    let has_up = y > 0 && x != 0;
    let use_up = has_up && delta(curr, up) < delta(curr, p0);
    lemma_rgb(c);
    lemma_rgb(st.prev[j]);
    lemma_rgb(u16_at(input, ua));
    let c1 = if has_up { c_put(st.c, REFERENCE as int, if use_up { 1 } else { 0 }) } else { st.c };
    if has_up {
        lemma_cput_ok(st.c, n, REFERENCE as int, if use_up { 1 } else { 0 });
    }
    let prev = if use_up { up } else { p0 };
    let dg = curr.1 - prev.1;
    lemma_half(dg);
    let c2 = c_put(c1, C_G as int, dg + 64);
    let c3 = c_put(c2, C_R as int, curr.0 - prev.0 - half(dg) + 64);
    let c4 = c_put(c3, C_B as int, curr.2 - prev.2 - half(dg) + 64);
    lemma_cput_ok(c1, n, C_G as int, dg + 64);
    lemma_cput_ok(c2, n, C_R as int, curr.0 - prev.0 - half(dg) + 64);
    lemma_cput_ok(c3, n, C_B as int, curr.2 - prev.2 - half(dg) + 64);
    lemma_narrows_trans(c2.enc, c3.enc, c4.enc);
    lemma_narrows_trans(c1.enc, c2.enc, c4.enc);
    assert(c4 == color_enc_endpoint(st, input, l, k, j).c);
    // The reference choice.
    let d1 = if has_up {
        lemma_d_get_sync(sd.d, st.c, bytes, REFERENCE as int, if use_up { 1 } else { 0 });
        got(sd.d, bytes, REFERENCE as int).0
    } else {
        sd.d
    };
    assert(csync(d1, c1, bytes));
    if use_up {
        lemma_u16_bytes(input, ua);
        assert(u16_at(sd.out, ua) == u16_at(input, ua));
    }
    lemma_d_get_sync(d1, c1, bytes, C_G as int, dg + 64);
    let d2 = got(d1, bytes, C_G as int).0;
    lemma_d_get_sync(d2, c2, bytes, C_R as int, curr.0 - prev.0 - half(dg) + 64);
    let d3 = got(d2, bytes, C_R as int).0;
    lemma_d_get_sync(d3, c3, bytes, C_B as int, curr.2 - prev.2 - half(dg) + 64);
    lemma_u16_bytes(input, at + 2 * j);
}

// ---------------------------------------------------------------------------
// Selector words

pub proof fn lemma_mask_bit(v: u32, j: int)
    requires
        0 <= j < 4,
    ensures
        0 <= sel_mask(v) < 16,
        (sel_mask(v) / p2(j as nat)) % 2 == 1 <==> byte_of(v, j) != 0,
{
    reveal_with_fuel(p2, 5);
    let b0: int = if byte_of(v, 0) != 0 { 1 } else { 0 };
    let b1: int = if byte_of(v, 1) != 0 { 1 } else { 0 };
    let b2: int = if byte_of(v, 2) != 0 { 1 } else { 0 };
    let b3: int = if byte_of(v, 3) != 0 { 1 } else { 0 };
    let m = sel_mask(v);
    assert(m == b0 + 2 * b1 + 4 * b2 + 8 * b3);
    if j == 0 {
        vstd::arithmetic::div_mod::lemma_fundamental_div_mod_converse(m, 2, b1 + 2 * b2 + 4 * b3, b0);
    } else if j == 1 {
        vstd::arithmetic::div_mod::lemma_fundamental_div_mod_converse(m, 2, b1 + 2 * b2 + 4 * b3, b0);
        vstd::arithmetic::div_mod::lemma_fundamental_div_mod_converse(b1 + 2 * b2 + 4 * b3, 2, b2 + 2 * b3, b1);
    } else if j == 2 {
        vstd::arithmetic::div_mod::lemma_fundamental_div_mod_converse(m, 4, b2 + 2 * b3, b0 + 2 * b1);
        vstd::arithmetic::div_mod::lemma_fundamental_div_mod_converse(b2 + 2 * b3, 2, b3, b2);
    } else {
        vstd::arithmetic::div_mod::lemma_fundamental_div_mod_converse(m, 8, b3, b0 + 2 * b1 + 4 * b2);
        vstd::arithmetic::div_mod::lemma_fundamental_div_mod_converse(b3, 2, 0, b3);
    }
}

pub proof fn lemma_diffs_ok(c: Coder, n: int, v: u32, j: int, j2: int)
    requires
        cok(c, n),
        0 <= j <= j2 <= 4,
    ensures
        cok(put_diffs(c, v, j2), n),
        narrows(put_diffs(c, v, j).enc, put_diffs(c, v, j2).enc),
    decreases j2, j,
{
    if j2 > j {
        lemma_diffs_ok(c, n, v, j, j2 - 1);
        let c1 = put_diffs(c, v, j2 - 1);
        if byte_of(v, j2 - 1) != 0 {
            lemma_cput_ok(c1, n, DIFF as int, byte_of(v, j2 - 1) as int);
            lemma_narrows_trans(put_diffs(c, v, j).enc, c1.enc, put_diffs(c, v, j2).enc);
        }
    } else if j2 > 0 {
        lemma_diffs_ok(c, n, v, 0, j2);
    }
}

pub proof fn lemma_diffs_sync(d: DCoder, c: Coder, n: int, bytes: Seq<u8>, v: u32, j: int)
    requires
        cok(c, n),
        0 <= j <= 4,
        csync(d, put_diffs(c, v, j), bytes),
        code_in(bytes, put_diffs(c, v, 4).enc),
    ensures
        dec_diffs(d, bytes, sel_mask(v), j, low_bytes(v, j)) matches Ok((d2, w)) && w == v && csync(d2, put_diffs(c, v, 4), bytes),
    decreases 4 - j,
{
    if j == 4 {
        lemma_low_bytes(v);
    } else {
        lemma_diffs_ok(c, n, v, 0, j);
        lemma_diffs_ok(c, n, v, j + 1, 4);
        lemma_mask_bit(v, j);
        let cj = put_diffs(c, v, j);
        if byte_of(v, j) != 0 {
            lemma_d_get_sync(d, cj, bytes, DIFF as int, byte_of(v, j) as int);
            let (d1, b1) = got(d, bytes, DIFF as int);
            lemma_diffs_sync(d1, c, n, bytes, v, j + 1);
        } else {
            lemma_diffs_sync(d, c, n, bytes, v, j + 1);
        }
    }
}

pub proof fn lemma_selector_ok(c: Coder, input: Seq<u8>, l: Layout, top: Seq<u32>, k: int)
    requires
        cok(c, top.len() as int),
    ensures
        cok(color_enc_selector(c, input, l, top, k), top.len() as int),
        narrows(c.enc, color_enc_selector(c, input, l, top, k).enc),
{
    let n = top.len() as int;
    let at = color_pos(l, k);
    let p = u32_at(input, at + 4);
    let f = best_match(top, p);
    lemma_best_from(top, p, n);
    let v = p ^ top[f];
    lemma_mask_bit(v, 0);
    let c1 = c_put(c, INDEX as int, f);
    let c2 = c_put(c1, MASK as int, sel_mask(v));
    lemma_cput_ok(c, n, INDEX as int, f);
    lemma_cput_ok(c1, n, MASK as int, sel_mask(v));
    lemma_diffs_ok(c2, n, v, 0, 4);
    lemma_narrows_trans(c1.enc, c2.enc, put_diffs(c2, v, 4).enc);
    lemma_narrows_trans(c.enc, c1.enc, put_diffs(c2, v, 4).enc);
}

/// Decoding the selector word of block `k` reads back the coded word and
/// stores the input's four bytes.
pub proof fn lemma_selector_sync(sd: ColorDec, c: Coder, bytes: Seq<u8>, input: Seq<u8>, l: Layout, top: Seq<u32>, k: int)
    requires
        l.wf(),
        input.len() == l.len(),
        0 <= k < blocks(l),
        cok(c, top.len() as int),
        csync(sd.d, c, bytes),
        code_in(bytes, color_enc_selector(c, input, l, top, k).enc),
    ensures
        color_dec_selector(sd, bytes, l, top, k) matches Ok(s1) && s1.prev == sd.prev && csync(
            s1.d,
            color_enc_selector(c, input, l, top, k),
            bytes,
        ) && s1.out == sd.out.update(color_pos(l, k) + 4, input[color_pos(l, k) + 4]).update(
            color_pos(l, k) + 5,
            input[color_pos(l, k) + 5],
        ).update(color_pos(l, k) + 6, input[color_pos(l, k) + 6]).update(color_pos(l, k) + 7, input[color_pos(l, k) + 7]),
{
    lemma_color_pos(l, k);
    let n = top.len() as int;
    let at = color_pos(l, k);
    let p = u32_at(input, at + 4);
    let f = best_match(top, p);
    lemma_best_from(top, p, n);
    let v = p ^ top[f];
    lemma_mask_bit(v, 0);
    let c1 = c_put(c, INDEX as int, f);
    let c2 = c_put(c1, MASK as int, sel_mask(v));
    lemma_cput_ok(c, n, INDEX as int, f);
    lemma_cput_ok(c1, n, MASK as int, sel_mask(v));
    lemma_diffs_ok(c2, n, v, 0, 4);
    lemma_narrows_trans(c1.enc, c2.enc, put_diffs(c2, v, 4).enc);
    lemma_d_get_sync(sd.d, c, bytes, INDEX as int, f);
    let d1 = got(sd.d, bytes, INDEX as int).0;
    lemma_d_get_sync(d1, c1, bytes, MASK as int, sel_mask(v));
    let d2 = got(d1, bytes, MASK as int).0;
    reveal_with_fuel(low_bytes, 1);
    lemma_diffs_sync(d2, c2, n, bytes, v, 0);
    let t = top[f];
    assert((v ^ t) == p) by (bit_vector)
        requires v == p ^ t;
    crate::block::lemma_u32_at_bytes(input, at + 4);
}

// ---------------------------------------------------------------------------
// Where the blocks are

/// Byte `p` of a grid lies in its coded eight-byte plane.
pub open spec fn in_plane(l: Layout, p: int) -> bool {
    l.offset <= p % (l.stride as int) < l.offset + 8
}

/// `out0` with the bytes of the plane replaced by those of `input`.
pub open spec fn plane_fill(out0: Seq<u8>, input: Seq<u8>, l: Layout) -> Seq<u8> {
    Seq::new(out0.len(), |p: int| if in_plane(l, p) { input[p] } else { out0[p] })
}

/// Position in colour coding order of the block stored at index `q`.
pub open spec fn zrank(l: Layout, q: int) -> int {
    let c = l.columns as int;
    let y = q / c;
    let x = q % c;
    if y % 2 == 1 { q } else { y * c + (c - 1 - x) }
}

/// `out` holds the input's plane bytes of the blocks coded before the
/// `k`-th, and the bytes of `out0` elsewhere.
pub open spec fn color_filled(out: Seq<u8>, out0: Seq<u8>, input: Seq<u8>, l: Layout, k: int) -> bool {
    &&& out.len() == out0.len()
    &&& forall|p: int|
        0 <= p < out.len() ==> #[trigger] out[p] == if in_plane(l, p) && zrank(l, p / (l.stride as int)) < k {
            input[p]
        } else {
            out0[p]
        }
}

/// The plane bytes of the block stored at index `q`.
pub proof fn lemma_in_block(l: Layout, q: int, p: int)
    requires
        l.wf(),
        0 <= q,
        0 <= p,
    ensures
        (q * l.stride + l.offset <= p < q * l.stride + l.offset + 8) <==> (p / (l.stride as int) == q && in_plane(l, p)),
{
    let s = l.stride as int;
    vstd::arithmetic::div_mod::lemma_fundamental_div_mod(p, s);
    if q * s + l.offset <= p < q * s + l.offset + 8 {
        vstd::arithmetic::div_mod::lemma_fundamental_div_mod_converse(p, s, q, p - q * s);
    }
    if p / s == q && in_plane(l, p) {
        assert(p == q * s + p % s) by (nonlinear_arith)
            requires p == s * (p / s) + p % s, p / s == q;
    }
}

/// Every block has a rank, and the `k`-th block coded is the only one of
/// rank `k`.
pub proof fn lemma_zrank(l: Layout, k: int, q: int)
    requires
        l.wf(),
        0 <= k < blocks(l),
        0 <= q < blocks(l),
    ensures
        0 <= zrank(l, q) < blocks(l),
        ({
            let y = k / (l.columns as int);
            let x = k % (l.columns as int);
            let zx = if y % 2 == 1 { x } else { l.columns - x - 1 };
            &&& (zrank(l, q) == k <==> q == y * l.columns + zx)
            &&& (color_pos(l, k) == q * l.stride + l.offset <==> q == y * l.columns + zx)
        }),
{
    let c = l.columns as int;
    let y = k / c;
    let x = k % c;
    let zx = if y % 2 == 1 { x } else { c - x - 1 };
    let qy = q / c;
    let qx = q % c;
    vstd::arithmetic::div_mod::lemma_fundamental_div_mod(k, c);
    vstd::arithmetic::div_mod::lemma_fundamental_div_mod(q, c);
    assert(0 <= qy < l.rows) by (nonlinear_arith)
        requires q == c * qy + qx, 0 <= qx < c, 0 <= q < c * l.rows, c >= 1;
    let xr = if qy % 2 == 1 { qx } else { c - 1 - qx };
    assert(zrank(l, q) == qy * c + xr) by (nonlinear_arith)
        requires q == c * qy + qx, zrank(l, q) == if qy % 2 == 1 { q } else { qy * c + (c - 1 - qx) }, xr == if qy % 2
            == 1 { qx } else { c - 1 - qx };
    assert(0 <= qy * c + xr < c * l.rows) by (nonlinear_arith)
        requires 0 <= qy < l.rows, 0 <= xr < c;
    lemma_color_pos(l, k);
    if zrank(l, q) == k {
        vstd::arithmetic::div_mod::lemma_fundamental_div_mod_converse(k, c, qy, xr);
        assert(q == y * c + zx) by (nonlinear_arith)
            requires q == c * qy + qx, qy == y, xr == if qy % 2 == 1 { qx } else { c - 1 - qx }, xr == x, zx == if y % 2 == 1 { x } else { c - x - 1 };
    }
    if q == y * c + zx {
        vstd::arithmetic::div_mod::lemma_fundamental_div_mod_converse(q, c, y, zx);
        assert(zrank(l, q) == k) by (nonlinear_arith)
            requires zrank(l, q) == qy * c + xr, qy == y, qx == zx, xr == if qy % 2 == 1 { qx } else { c - 1 - qx }, zx == if y % 2 == 1 { x } else { c - x - 1 }, k == c * y + x;
    }
    assert(color_pos(l, k) == (y * c + zx) * l.stride + l.offset);
    if color_pos(l, k) == q * l.stride + l.offset {
        assert(q == y * c + zx) by (nonlinear_arith)
            requires (y * c + zx) * l.stride == q * l.stride, l.stride >= 8;
    }
}

/// The endpoints of the block above the `k`-th block were coded before it.
pub proof fn lemma_up(l: Layout, k: int, j: int)
    requires
        l.wf(),
        0 <= k < blocks(l),
        k / (l.columns as int) > 0,
        0 <= j < 2,
    ensures
        ({
            let u = color_pos(l, k) - l.columns * l.stride + 2 * j;
            &&& 0 <= u
            &&& u + 2 + l.columns * l.stride <= color_pos(l, k) + 8
            &&& in_plane(l, u) && zrank(l, u / (l.stride as int)) < k
            &&& in_plane(l, u + 1) && zrank(l, (u + 1) / (l.stride as int)) < k
        }),
{
    lemma_color_pos(l, k);
    let c = l.columns as int;
    let s = l.stride as int;
    let y = k / c;
    let x = k % c;
    let zx = if y % 2 == 1 { x } else { c - x - 1 };
    let q = y * c + zx;
    let q1 = q - c;
    vstd::arithmetic::div_mod::lemma_fundamental_div_mod(k, c);
    assert(q1 == (y - 1) * c + zx) by (nonlinear_arith)
        requires q == y * c + zx, q1 == q - c;
    assert(q1 >= 0) by (nonlinear_arith)
        requires q1 == (y - 1) * c + zx, y >= 1, zx >= 0, c >= 0;
    let u = color_pos(l, k) - c * s + 2 * j;
    assert(u == q1 * s + l.offset + 2 * j) by (nonlinear_arith)
        requires u == q * s + l.offset - c * s + 2 * j, q1 == q - c;
    assert(c * s >= 8) by (nonlinear_arith)
        requires c >= 1, s >= 8;
    lemma_in_block(l, q1, u);
    lemma_in_block(l, q1, u + 1);
    vstd::arithmetic::div_mod::lemma_fundamental_div_mod_converse(q1, c, y - 1, zx);
    assert(k >= y * c) by (nonlinear_arith)
        requires k == c * y + x, x >= 0;
    assert(zrank(l, q1) < y * c) by (nonlinear_arith)
        requires q1 == (y - 1) * c + zx, q1 / c == y - 1, q1 % c == zx, 0 <= zx < c, zrank(l, q1) == if (y - 1) % 2 == 1 {
            q1
        } else {
            (y - 1) * c + (c - 1 - zx)
        };
}

/// Decoding block `k` fills its plane bytes.
pub proof fn lemma_fill_step(out: Seq<u8>, out0: Seq<u8>, input: Seq<u8>, l: Layout, k: int, out3: Seq<u8>)
    requires
        l.wf(),
        input.len() == l.len(),
        out0.len() == l.len(),
        0 <= k < blocks(l),
        color_filled(out, out0, input, l, k),
        out3.len() == out.len(),
        forall|p: int|
            0 <= p < out.len() ==> #[trigger] out3[p] == if color_pos(l, k) <= p < color_pos(l, k) + 8 {
                input[p]
            } else {
                out[p]
            },
    ensures
        color_filled(out3, out0, input, l, k + 1),
{
    lemma_color_pos(l, k);
    let s = l.stride as int;
    let c = l.columns as int;
    let y = k / c;
    let x = k % c;
    let zx = if y % 2 == 1 { x } else { c - x - 1 };
    let q = y * c + zx;
    assert forall|p: int| 0 <= p < out3.len() implies #[trigger] out3[p] == if in_plane(l, p) && zrank(l, p / s) < k + 1 {
        input[p]
    } else {
        out0[p]
    } by {
        let qp = p / s;
        vstd::arithmetic::div_mod::lemma_fundamental_div_mod(p, s);
        assert(0 <= qp < blocks(l)) by (nonlinear_arith)
            requires p == s * qp + p % s, 0 <= p % s < s, 0 <= p < l.columns * l.rows * s, s >= 8;
        lemma_zrank(l, k, qp);
        lemma_in_block(l, q, p);
        assert(out[p] == if in_plane(l, p) && zrank(l, p / s) < k { input[p] } else { out0[p] });
    }
}

/// After the last block, the whole plane is filled.
pub proof fn lemma_fill_done(out: Seq<u8>, out0: Seq<u8>, input: Seq<u8>, l: Layout)
    requires
        l.wf(),
        input.len() == l.len(),
        out0.len() == l.len(),
        color_filled(out, out0, input, l, blocks(l)),
    ensures
        out == plane_fill(out0, input, l),
{
    let s = l.stride as int;
    assert forall|p: int| 0 <= p < out.len() implies #[trigger] out[p] == plane_fill(out0, input, l)[p] by {
        let qp = p / s;
        vstd::arithmetic::div_mod::lemma_fundamental_div_mod(p, s);
        assert(0 <= qp < blocks(l)) by (nonlinear_arith)
            requires p == s * qp + p % s, 0 <= p % s < s, 0 <= p < l.columns * l.rows * s, s >= 8;
        assert(blocks(l) >= 1) by (nonlinear_arith)
            requires l.columns >= 1, l.rows >= 1;
        lemma_zrank(l, 0, qp);
    }
    assert(out =~= plane_fill(out0, input, l));
}

// ---------------------------------------------------------------------------
// Blocks

pub proof fn lemma_block_ok(st: ColorEnc, input: Seq<u8>, l: Layout, top: Seq<u32>, k: int)
    requires
        cok(st.c, top.len() as int),
        st.prev.len() == 2,
    ensures
        cok(color_enc_block(st, input, l, top, k).c, top.len() as int),
        color_enc_block(st, input, l, top, k).prev.len() == 2,
        narrows(st.c.enc, color_enc_block(st, input, l, top, k).c.enc),
{
    let n = top.len() as int;
    let s1 = color_enc_endpoint(st, input, l, k, 0);
    let s2 = color_enc_endpoint(s1, input, l, k, 1);
    lemma_endpoint_ok(st, input, l, n, k, 0);
    lemma_endpoint_ok(s1, input, l, n, k, 1);
    lemma_selector_ok(s2.c, input, l, top, k);
    let c3 = color_enc_selector(s2.c, input, l, top, k);
    lemma_narrows_trans(s1.c.enc, s2.c.enc, c3.enc);
    lemma_narrows_trans(st.c.enc, s1.c.enc, c3.enc);
}

/// Decoding block `k` reads back what was coded and fills its plane bytes.
pub proof fn lemma_block_sync(
    sd: ColorDec,
    st: ColorEnc,
    bytes: Seq<u8>,
    input: Seq<u8>,
    l: Layout,
    top: Seq<u32>,
    k: int,
    out0: Seq<u8>,
)
    requires
        l.wf(),
        input.len() == l.len(),
        out0.len() == l.len(),
        0 <= k < blocks(l),
        cok(st.c, top.len() as int),
        st.prev.len() == 2,
        sd.prev == st.prev,
        csync(sd.d, st.c, bytes),
        color_filled(sd.out, out0, input, l, k),
        code_in(bytes, color_enc_block(st, input, l, top, k).c.enc),
    ensures
        color_dec_block(sd, bytes, l, top, k) matches Ok(s1) && s1.prev == color_enc_block(st, input, l, top, k).prev
            && csync(s1.d, color_enc_block(st, input, l, top, k).c, bytes) && color_filled(s1.out, out0, input, l, k + 1),
{
    reveal(color_dec_block);
    lemma_color_pos(l, k);
    let n = top.len() as int;
    let at = color_pos(l, k);
    let s = l.stride as int;
    let e1 = color_enc_endpoint(st, input, l, k, 0);
    let e2 = color_enc_endpoint(e1, input, l, k, 1);
    lemma_endpoint_ok(st, input, l, n, k, 0);
    lemma_endpoint_ok(e1, input, l, n, k, 1);
    lemma_selector_ok(e2.c, input, l, top, k);
    let c3 = color_enc_selector(e2.c, input, l, top, k);
    lemma_narrows_trans(e1.c.enc, e2.c.enc, c3.enc);
    if k / (l.columns as int) > 0 {
        lemma_up(l, k, 0);
        lemma_up(l, k, 1);
        let u0 = at - l.columns * l.stride;
        assert(sd.out[u0] == input[u0]);
        assert(sd.out[u0 + 1] == input[u0 + 1]);
        assert(sd.out[u0 + 2] == input[u0 + 2]);
        assert(sd.out[u0 + 3] == input[u0 + 3]);
    }
    lemma_endpoint_sync(sd, st, bytes, input, l, n, k, 0);
    let d1 = color_dec_endpoint(sd, bytes, l, k, 0)->Ok_0;
    lemma_endpoint_sync(d1, e1, bytes, input, l, n, k, 1);
    let d2 = color_dec_endpoint(d1, bytes, l, k, 1)->Ok_0;
    lemma_selector_sync(d2, e2.c, bytes, input, l, top, k);
    let d3 = color_dec_selector(d2, bytes, l, top, k)->Ok_0;
    assert forall|p: int| 0 <= p < sd.out.len() implies #[trigger] d3.out[p] == if at <= p < at + 8 {
        input[p]
    } else {
        sd.out[p]
    } by {
    }
    lemma_fill_step(sd.out, out0, input, l, k, d3.out);
}

pub proof fn lemma_blocks_ok(st: ColorEnc, input: Seq<u8>, l: Layout, top: Seq<u32>, k: int, k2: int)
    requires
        cok(st.c, top.len() as int),
        st.prev.len() == 2,
        0 <= k <= k2,
    ensures
        cok(color_enc_blocks(st, input, l, top, k2).c, top.len() as int),
        color_enc_blocks(st, input, l, top, k2).prev.len() == 2,
        narrows(color_enc_blocks(st, input, l, top, k).c.enc, color_enc_blocks(st, input, l, top, k2).c.enc),
    decreases k2, k,
{
    if k2 > k {
        lemma_blocks_ok(st, input, l, top, k, k2 - 1);
        let s1 = color_enc_blocks(st, input, l, top, k2 - 1);
        lemma_block_ok(s1, input, l, top, k2 - 1);
        lemma_narrows_trans(color_enc_blocks(st, input, l, top, k).c.enc, s1.c.enc, color_enc_blocks(st, input, l, top, k2).c.enc);
    } else if k2 > 0 {
        lemma_blocks_ok(st, input, l, top, 0, k2);
    }
}

/// Decoding the blocks from the `k`-th on reads back what was coded and
/// fills the whole plane.
pub proof fn lemma_blocks_sync(
    sd: ColorDec,
    st0: ColorEnc,
    bytes: Seq<u8>,
    input: Seq<u8>,
    l: Layout,
    top: Seq<u32>,
    k: int,
    out0: Seq<u8>,
)
    requires
        l.wf(),
        input.len() == l.len(),
        out0.len() == l.len(),
        0 <= k <= blocks(l),
        cok(st0.c, top.len() as int),
        st0.prev.len() == 2,
        sd.prev == color_enc_blocks(st0, input, l, top, k).prev,
        csync(sd.d, color_enc_blocks(st0, input, l, top, k).c, bytes),
        color_filled(sd.out, out0, input, l, k),
        code_in(bytes, color_enc_blocks(st0, input, l, top, blocks(l)).c.enc),
    ensures
        color_dec_from(sd, bytes, l, top, k) matches Ok(sf) && csync(sf.d, color_enc_blocks(st0, input, l, top, blocks(l)).c, bytes)
            && color_filled(sf.out, out0, input, l, blocks(l)),
    decreases blocks(l) - k,
{
    if k < blocks(l) {
        let st = color_enc_blocks(st0, input, l, top, k);
        lemma_blocks_ok(st0, input, l, top, 0, k);
        lemma_blocks_ok(st0, input, l, top, k + 1, blocks(l));
        lemma_block_sync(sd, st, bytes, input, l, top, k, out0);
        let s1 = color_dec_block(sd, bytes, l, top, k)->Ok_0;
        lemma_blocks_sync(s1, st0, bytes, input, l, top, k + 1, out0);
    }
}

// ---------------------------------------------------------------------------
// The plane

pub proof fn lemma_color_models(n: int)
    requires
        1 <= n <= 256,
    ensures
        crate::range::models_wf(color_models(n)),
        sized(color_models(n), color_sizes(n)),
{
    assert forall|i: int| 0 <= i < 8 implies crate::range::model_wf(#[trigger] color_models(n)[i]) && color_models(n)[i].counts.len()
        == color_sizes(n)[i] by {
        crate::range::lemma_init_wf(color_sizes(n)[i] as int);
    }
}

/// Coding the colour plane keeps the encoder well formed and narrows its
/// interval.
pub proof fn lemma_color_encode_ok(e: EncState, input: Seq<u8>, l: Layout)
    requires
        enc_inv(e),
        l.wf(),
        input.len() == l.len(),
    ensures
        enc_inv(color_encode(e, input, l)),
        narrows(e, color_encode(e, input, l)),
{
    let top = table_spec(input, l);
    assert(blocks(l) >= 1) by (nonlinear_arith)
        requires l.columns >= 1, l.rows >= 1;
    lemma_dictionary(selectors(input, l));
    let n = top.len() as int;
    lemma_color_models(n);
    let c0 = Coder { enc: e, models: color_models(n) };
    let c1 = c_bits(c0, (n - 1) as u32, 8);
    lemma_cbits_ok(c0, n, (n - 1) as u32);
    let c2 = bits_bytes(c1, top[0], 4);
    lemma_bits_bytes_ok(c1, n, top[0], 0, 4);
    let c3 = color_enc_entries(c2, top, n);
    lemma_entries_ok(c2, top, 1, n);
    let st0 = ColorEnc { c: c3, prev: seq![0u16, 0u16] };
    lemma_blocks_ok(st0, input, l, top, 0, blocks(l));
    let fin = color_enc_blocks(st0, input, l, top, blocks(l)).c;
    lemma_narrows_trans(c2.enc, c3.enc, fin.enc);
    lemma_narrows_trans(c1.enc, c2.enc, fin.enc);
    lemma_narrows_trans(e, c1.enc, fin.enc);
}

/// A decoder in step with the encoder before the colour plane decodes the
/// plane into `out0`, ending in step with the encoder after it.
pub proof fn lemma_color_inverse(e: EncState, input: Seq<u8>, l: Layout, dec: DecState, bytes: Seq<u8>, out0: Seq<u8>)
    requires
        enc_inv(e),
        l.wf(),
        input.len() == l.len(),
        out0.len() == l.len(),
        dec_sync(dec, e, bytes),
        code_in(bytes, color_encode(e, input, l)),
    ensures
        color_decode(dec, bytes, out0, l) matches Ok((d2, out)) && dec_sync(d2, color_encode(e, input, l), bytes) && out
            == plane_fill(out0, input, l),
{
    let top = table_spec(input, l);
    assert(blocks(l) >= 1) by (nonlinear_arith)
        requires l.columns >= 1, l.rows >= 1;
    lemma_dictionary(selectors(input, l));
    let n = top.len() as int;
    lemma_color_models(n);
    let c0 = Coder { enc: e, models: color_models(n) };
    let c1 = c_bits(c0, (n - 1) as u32, 8);
    lemma_cbits_ok(c0, n, (n - 1) as u32);
    let c2 = bits_bytes(c1, top[0], 4);
    lemma_bits_bytes_ok(c1, n, top[0], 0, 4);
    let c3 = color_enc_entries(c2, top, n);
    lemma_entries_ok(c2, top, 1, n);
    let st0 = ColorEnc { c: c3, prev: seq![0u16, 0u16] };
    lemma_blocks_ok(st0, input, l, top, 0, blocks(l));
    let fin = color_enc_blocks(st0, input, l, top, blocks(l)).c;
    lemma_narrows_trans(c2.enc, c3.enc, fin.enc);
    lemma_narrows_trans(c1.enc, c2.enc, fin.enc);
    // The dictionary size.
    let dd0 = DCoder { dec, models: color_models(n) };
    vstd::arithmetic::power2::lemma2_to64();
    lemma_d_bits_sync(dd0, c0, bytes, (n - 1) as u32, 8);
    let dd1 = crate::range::d_bits(dd0, bytes, 8)->Ok_0.0;
    // The dictionary.
    reveal_with_fuel(low_bytes, 1);
    lemma_bits_bytes_sync(dd1, c1, n, bytes, top[0], 0);
    let dd2 = dec_bits_bytes(dd1, bytes, 0, 0)->Ok_0.0;
    assert(seq![top[0]] =~= top.take(1));
    lemma_entries_sync(dd2, c2, bytes, top, 1);
    let dd3 = color_dec_entries(dd2, bytes, top.take(1), n)->Ok_0.0;
    // The blocks.
    let sd = ColorDec { d: dd3, prev: seq![0u16, 0u16], out: out0 };
    lemma_blocks_sync(sd, st0, bytes, input, l, top, 0, out0);
    let sf = color_dec_from(sd, bytes, l, top, 0)->Ok_0;
    lemma_fill_done(sf.out, out0, input, l);
}

} // verus!
