//! A stream cut short is refused: decoding from the first `m` bytes of a
//! stream agrees with decoding from the whole stream as long as the latter
//! reads no further than byte `m`, and fails otherwise.
use vstd::prelude::*;
use crate::range::{DCoder, DecState, d_bits, d_get, dec_bits, dec_fill, dec_get, dec_new, p256};
use crate::types::Result;
use crate::block::Layout;
use crate::color::{C_B, C_G, C_R, DIFF, ENTRY, INDEX, MASK, REFERENCE, ColorDec, blocks, color_dec_block, color_dec_endpoint, color_dec_entries,
    color_dec_from, color_dec_selector, color_decode, color_models, dec_bits_bytes, dec_diffs, dec_get_bytes, p2, wadd};
use crate::alpha::{A_DELTA, A_FIRST, A_FIRST_END, A_INDICES, A_POSITION, A_SECOND_END, A_USE_DICT, AlphaDec, alpha_dec_block, alpha_dec_ends,
    alpha_dec_from, alpha_dec_index, alpha_decode, alpha_models, alpha_pos, bucket, dec_chunks, dec_zig, dict_init, reference, zig};
use crate::codec::{decode_planes, encode_planes, grid, input_limit, second, spec_compress, spec_decompress};
use crate::decodable::lemma_finish;
use crate::roundtrip::{lemma_grid, lemma_planes_inverse, lemma_planes_ok};
use crate::types::Format;

verus! {

/// `rt`, a decoding step on a prefix of `m` bytes, and `rf`, the same step
/// on the whole stream of `n` bytes from position `start`: the step moves
/// forward within the stream, and on the prefix it fails unless it stayed
/// within the prefix, in which case it does the same.
pub open spec fn cut<T>(rt: Result<T>, rf: Result<T>, pos: spec_fn(T) -> int, start: int, m: int, n: int) -> bool {
    match rf {
        Ok(x) => start <= pos(x) <= n && if pos(x) <= m {
            rt == rf
        } else {
            rt is Err
        },
        Err(_) => rt is Err,
    }
}

pub proof fn lemma_cut_fill(d: DecState, bytes: Seq<u8>, m: int, fuel: nat)
    requires
        0 <= d.at <= m <= bytes.len(),
    ensures
        cut(dec_fill(d, bytes.take(m), fuel), dec_fill(d, bytes, fuel), |x: DecState| x.at, d.at, m, bytes.len() as int),
    decreases fuel,
{
    let t = bytes.take(m);
    if d.len >= crate::range::MIN || fuel == 0 {
    } else if d.at >= bytes.len() {
    } else if d.at == m {
        let d1 = DecState {
            at: d.at + 1,
            value: ((d.value % 16777216) * 256 + bytes[d.at]) as u32,
            len: (d.len * 256) as u32,
        };
        lemma_cut_fill(d1, bytes, bytes.len() as int, (fuel - 1) as nat);
    } else {
        assert(t[d.at] == bytes[d.at]);
        let d1 = DecState {
            at: d.at + 1,
            value: ((d.value % 16777216) * 256 + bytes[d.at]) as u32,
            len: (d.len * 256) as u32,
        };
        lemma_cut_fill(d1, bytes, m, (fuel - 1) as nat);
    }
}

pub proof fn lemma_cut_get(d: DecState, bytes: Seq<u8>, m: int, cdf: Seq<u32>)
    requires
        0 <= d.at <= m <= bytes.len(),
    ensures
        cut(dec_get(d, bytes.take(m), cdf), dec_get(d, bytes, cdf), |x: (DecState, int)| x.0.at, d.at, m, bytes.len() as int),
{
    if d.value >= d.len {
    } else if d.len / 32768 == 0 {
    } else {
        let scale = d.len / 32768;
        let dv = d.value / scale;
        let s = crate::range::search(cdf, dv as int);
        let x = cdf[s] * scale;
        let y = if s + 1 == cdf.len() { d.len as int } else { cdf[s + 1] * scale };
        let d1 = DecState { at: d.at, value: (d.value - x) as u32, len: (y - x) as u32 };
        if d1.len != 0 {
            lemma_cut_fill(d1, bytes, m, 3);
        }
    }
}

pub proof fn lemma_cut_bits(d: DecState, bytes: Seq<u8>, m: int, bits: u32)
    requires
        0 <= d.at <= m <= bytes.len(),
    ensures
        cut(dec_bits(d, bytes.take(m), bits), dec_bits(d, bytes, bits), |x: (DecState, u32)| x.0.at, d.at, m, bytes.len() as int),
{
    let p = vstd::arithmetic::power2::pow2(bits as nat);
    let len = d.len as nat / p;
    if len == 0 {
    } else if d.value as nat / len >= p {
    } else {
        let s = d.value as nat / len;
        let d1 = DecState { at: d.at, value: (d.value - len * s) as u32, len: len as u32 };
        if d1.len != 0 {
            lemma_cut_fill(d1, bytes, m, 3);
        }
    }
}

pub proof fn lemma_cut_d_get(d: DCoder, bytes: Seq<u8>, m: int, id: int)
    requires
        0 <= d.dec.at <= m <= bytes.len(),
    ensures
        cut(d_get(d, bytes.take(m), id), d_get(d, bytes, id), |x: (DCoder, int)| x.0.dec.at, d.dec.at, m, bytes.len() as int),
{
    lemma_cut_get(d.dec, bytes, m, d.models[id].cdf);
}

pub proof fn lemma_cut_d_bits(d: DCoder, bytes: Seq<u8>, m: int, bits: u32)
    requires
        0 <= d.dec.at <= m <= bytes.len(),
    ensures
        cut(d_bits(d, bytes.take(m), bits), d_bits(d, bytes, bits), |x: (DCoder, u32)| x.0.dec.at, d.dec.at, m, bytes.len() as int),
{
    lemma_cut_bits(d.dec, bytes, m, bits);
}

// ---------------------------------------------------------------------------
// The colour plane

/// The prefix length to hold a later step to: the prefix while the step
/// starts within it, the whole stream otherwise.
pub open spec fn within(at: int, m: int, n: int) -> int {
    if at <= m { m } else { n }
}

pub proof fn lemma_cut_bits_bytes(d: DCoder, bytes: Seq<u8>, m: int, j: int, v: int)
    requires
        0 <= d.dec.at <= m <= bytes.len(),
    ensures
        cut(dec_bits_bytes(d, bytes.take(m), j, v), dec_bits_bytes(d, bytes, j, v), |x: (DCoder, int)| x.0.dec.at, d.dec.at, m, bytes.len() as int),
    decreases 4 - j,
{
    let n = bytes.len() as int;
    if j < 4 {
        lemma_cut_d_bits(d, bytes, m, 8);
        if let Ok((d1, b)) = d_bits(d, bytes, 8) {
            lemma_cut_bits_bytes(d1, bytes, within(d1.dec.at, m, n), j + 1, v + b * p256(j as nat));
        }
    }
}

pub proof fn lemma_cut_get_bytes(d: DCoder, bytes: Seq<u8>, m: int, id: int, j: int, v: int)
    requires
        0 <= d.dec.at <= m <= bytes.len(),
    ensures
        cut(dec_get_bytes(d, bytes.take(m), id, j, v), dec_get_bytes(d, bytes, id, j, v), |x: (DCoder, int)| x.0.dec.at, d.dec.at, m, bytes.len() as int),
    decreases 4 - j,
{
    let n = bytes.len() as int;
    if j < 4 {
        lemma_cut_d_get(d, bytes, m, id);
        if let Ok((d1, b)) = d_get(d, bytes, id) {
            lemma_cut_get_bytes(d1, bytes, within(d1.dec.at, m, n), id, j + 1, v + b * p256(j as nat));
        }
    }
}

pub proof fn lemma_cut_entries(d: DCoder, bytes: Seq<u8>, m: int, top: Seq<u32>, k: int)
    requires
        0 <= d.dec.at <= m <= bytes.len(),
    ensures
        cut(color_dec_entries(d, bytes.take(m), top, k), color_dec_entries(d, bytes, top, k), |x: (DCoder, Seq<u32>)| x.0.dec.at, d.dec.at, m, bytes.len() as int),
    decreases k - top.len(),
{
    let n = bytes.len() as int;
    if !(top.len() >= k || top.len() == 0) {
        lemma_cut_get_bytes(d, bytes, m, ENTRY as int, 0, 0);
        if let Ok((d1, v)) = dec_get_bytes(d, bytes, ENTRY as int, 0, 0) {
            lemma_cut_entries(d1, bytes, within(d1.dec.at, m, n), top.push(wadd(top.last(), v as u32)), k);
        }
    }
}

pub proof fn lemma_cut_endpoint(st: ColorDec, bytes: Seq<u8>, m: int, l: Layout, k: int, j: int)
    requires
        0 <= st.d.dec.at <= m <= bytes.len(),
    ensures
        cut(color_dec_endpoint(st, bytes.take(m), l, k, j), color_dec_endpoint(st, bytes, l, k, j), |x: ColorDec| x.d.dec.at, st.d.dec.at, m, bytes.len() as int),
{
    let n = bytes.len() as int;
    let y = k / (l.columns as int);
    let x = k % (l.columns as int);
    let has_up = y > 0 && x != 0;
    if has_up {
        lemma_cut_d_get(st.d, bytes, m, REFERENCE as int);
    }
    let r1 = if has_up { d_get(st.d, bytes, REFERENCE as int) } else { Ok((st.d, 0int)) };
    if let Ok((d1, u)) = r1 {
        let m1 = within(d1.dec.at, m, n);
        lemma_cut_d_get(d1, bytes, m1, C_G as int);
        if let Ok((d2, sg)) = d_get(d1, bytes, C_G as int) {
            let m2 = within(d2.dec.at, m, n);
            lemma_cut_d_get(d2, bytes, m2, C_R as int);
            if let Ok((d3, sr)) = d_get(d2, bytes, C_R as int) {
                let m3 = within(d3.dec.at, m, n);
                lemma_cut_d_get(d3, bytes, m3, C_B as int);
            }
        }
    }
}

pub proof fn lemma_cut_diffs(d: DCoder, bytes: Seq<u8>, m: int, mask: int, j: int, v: int)
    requires
        0 <= d.dec.at <= m <= bytes.len(),
    ensures
        cut(dec_diffs(d, bytes.take(m), mask, j, v), dec_diffs(d, bytes, mask, j, v), |x: (DCoder, int)| x.0.dec.at, d.dec.at, m, bytes.len() as int),
    decreases 4 - j,
{
    let n = bytes.len() as int;
    if j < 4 {
        if (mask / p2(j as nat)) % 2 == 1 {
            lemma_cut_d_get(d, bytes, m, DIFF as int);
            if let Ok((d1, b)) = d_get(d, bytes, DIFF as int) {
                lemma_cut_diffs(d1, bytes, within(d1.dec.at, m, n), mask, j + 1, v + b * p256(j as nat));
            }
        } else {
            lemma_cut_diffs(d, bytes, m, mask, j + 1, v);
        }
    }
}

pub proof fn lemma_cut_selector(st: ColorDec, bytes: Seq<u8>, m: int, l: Layout, top: Seq<u32>, k: int)
    requires
        0 <= st.d.dec.at <= m <= bytes.len(),
    ensures
        cut(color_dec_selector(st, bytes.take(m), l, top, k), color_dec_selector(st, bytes, l, top, k), |x: ColorDec| x.d.dec.at, st.d.dec.at, m, bytes.len() as int),
{
    let n = bytes.len() as int;
    lemma_cut_d_get(st.d, bytes, m, INDEX as int);
    if let Ok((d1, f)) = d_get(st.d, bytes, INDEX as int) {
        let m1 = within(d1.dec.at, m, n);
        lemma_cut_d_get(d1, bytes, m1, MASK as int);
        if let Ok((d2, mk)) = d_get(d1, bytes, MASK as int) {
            let m2 = within(d2.dec.at, m, n);
            lemma_cut_diffs(d2, bytes, m2, mk, 0, 0);
        }
    }
}

pub proof fn lemma_cut_block(st: ColorDec, bytes: Seq<u8>, m: int, l: Layout, top: Seq<u32>, k: int)
    requires
        0 <= st.d.dec.at <= m <= bytes.len(),
    ensures
        cut(color_dec_block(st, bytes.take(m), l, top, k), color_dec_block(st, bytes, l, top, k), |x: ColorDec| x.d.dec.at, st.d.dec.at, m, bytes.len() as int),
{
    reveal(color_dec_block);
    let n = bytes.len() as int;
    lemma_cut_endpoint(st, bytes, m, l, k, 0);
    if let Ok(s1) = color_dec_endpoint(st, bytes, l, k, 0) {
        let m1 = within(s1.d.dec.at, m, n);
        lemma_cut_endpoint(s1, bytes, m1, l, k, 1);
        if let Ok(s2) = color_dec_endpoint(s1, bytes, l, k, 1) {
            let m2 = within(s2.d.dec.at, m, n);
            lemma_cut_selector(s2, bytes, m2, l, top, k);
        }
    }
}

pub proof fn lemma_cut_color_from(st: ColorDec, bytes: Seq<u8>, m: int, l: Layout, top: Seq<u32>, k: int)
    requires
        0 <= st.d.dec.at <= m <= bytes.len(),
    ensures
        cut(color_dec_from(st, bytes.take(m), l, top, k), color_dec_from(st, bytes, l, top, k), |x: ColorDec| x.d.dec.at, st.d.dec.at, m, bytes.len() as int),
    decreases blocks(l) - k,
{
    let n = bytes.len() as int;
    if k < blocks(l) {
        lemma_cut_block(st, bytes, m, l, top, k);
        if let Ok(s1) = color_dec_block(st, bytes, l, top, k) {
            lemma_cut_color_from(s1, bytes, within(s1.d.dec.at, m, n), l, top, k + 1);
        }
    }
}

pub proof fn lemma_cut_color(dec: DecState, bytes: Seq<u8>, m: int, out: Seq<u8>, l: Layout)
    requires
        0 <= dec.at <= m <= bytes.len(),
    ensures
        cut(color_decode(dec, bytes.take(m), out, l), color_decode(dec, bytes, out, l), |x: (DecState, Seq<u8>)| x.0.at, dec.at, m, bytes.len() as int),
{
    let n = bytes.len() as int;
    lemma_cut_bits(dec, bytes, m, 8);
    if let Ok((d1, nm1)) = dec_bits(dec, bytes, 8) {
        let nn = nm1 + 1;
        let dc = DCoder { dec: d1, models: color_models(nn as int) };
        let m1 = within(d1.at, m, n);
        lemma_cut_bits_bytes(dc, bytes, m1, 0, 0);
        if let Ok((dc2, t0)) = dec_bits_bytes(dc, bytes, 0, 0) {
            let m2 = within(dc2.dec.at, m, n);
            lemma_cut_entries(dc2, bytes, m2, seq![t0 as u32], nn as int);
            if let Ok((dc3, top)) = color_dec_entries(dc2, bytes, seq![t0 as u32], nn as int) {
                let m3 = within(dc3.dec.at, m, n);
                lemma_cut_color_from(ColorDec { d: dc3, prev: seq![0u16, 0u16], out }, bytes, m3, l, top, 0);
            }
        }
    }
}

// ---------------------------------------------------------------------------
// The alpha plane

pub proof fn lemma_cut_chunks(d: DCoder, bytes: Seq<u8>, m: int, j: int, v: u64)
    requires
        0 <= d.dec.at <= m <= bytes.len(),
    ensures
        cut(dec_chunks(d, bytes.take(m), j, v), dec_chunks(d, bytes, j, v), |x: (DCoder, u64)| x.0.dec.at, d.dec.at, m, bytes.len() as int),
    decreases 16 - j,
{
    let n = bytes.len() as int;
    if j < 16 {
        lemma_cut_d_get(d, bytes, m, A_DELTA + j);
        if let Ok((d1, s1)) = d_get(d, bytes, A_DELTA + j) {
            lemma_cut_chunks(d1, bytes, within(d1.dec.at, m, n), j + 1, v | ((s1 as u64) << ((3 * j) as u64)));
        }
    }
}

pub proof fn lemma_cut_zig(d: DCoder, bytes: Seq<u8>, m: int, base: int, i: int, last: u32, v: u64)
    requires
        0 <= d.dec.at <= m <= bytes.len(),
    ensures
        cut(dec_zig(d, bytes.take(m), base, i, last, v), dec_zig(d, bytes, base, i, last, v), |x: (DCoder, u64)| x.0.dec.at, d.dec.at, m, bytes.len() as int),
    decreases 16 - i,
{
    let n = bytes.len() as int;
    if i < 16 {
        lemma_cut_d_get(d, bytes, m, A_INDICES + base + last);
        if let Ok((d1, s1)) = d_get(d, bytes, A_INDICES + base + last) {
            let next = last ^ (s1 as u32);
            lemma_cut_zig(d1, bytes, within(d1.dec.at, m, n), base, i + 1, next, v | ((next as u64) << ((3 * zig(i)) as u64)));
        }
    }
}

pub proof fn lemma_cut_ends(d: DCoder, bytes: Seq<u8>, m: int, r: u8)
    requires
        0 <= d.dec.at <= m <= bytes.len(),
    ensures
        cut(alpha_dec_ends(d, bytes.take(m), r), alpha_dec_ends(d, bytes, r), |x: (DCoder, u8, u8)| x.0.dec.at, d.dec.at, m, bytes.len() as int),
{
    let n = bytes.len() as int;
    lemma_cut_d_get(d, bytes, m, A_FIRST_END as int);
    if let Ok((d1, s0)) = d_get(d, bytes, A_FIRST_END as int) {
        lemma_cut_d_get(d1, bytes, within(d1.dec.at, m, n), A_SECOND_END as int);
    }
}

pub proof fn lemma_cut_index(d: DCoder, bytes: Seq<u8>, m: int, dict: Seq<u64>, out: Seq<u8>, at: int, a: u8, b: u8)
    requires
        0 <= d.dec.at <= m <= bytes.len(),
    ensures
        cut(
            alpha_dec_index(d, bytes.take(m), dict, out, at, a, b),
            alpha_dec_index(d, bytes, dict, out, at, a, b),
            |x: (DCoder, Seq<u64>, Seq<u8>)| x.0.dec.at,
            d.dec.at,
            m,
            bytes.len() as int,
        ),
{
    let n = bytes.len() as int;
    lemma_cut_d_get(d, bytes, m, A_USE_DICT as int);
    if let Ok((d3, u)) = d_get(d, bytes, A_USE_DICT as int) {
        let m3 = within(d3.dec.at, m, n);
        if u != 0 {
            lemma_cut_d_get(d3, bytes, m3, A_POSITION as int);
            if let Ok((d4, i)) = d_get(d3, bytes, A_POSITION as int) {
                lemma_cut_chunks(d4, bytes, within(d4.dec.at, m, n), 0, 0);
            }
        } else {
            lemma_cut_d_get(d3, bytes, m3, A_FIRST as int);
            if let Ok((d4, f)) = d_get(d3, bytes, A_FIRST as int) {
                lemma_cut_zig(d4, bytes, within(d4.dec.at, m, n), bucket(a, b), 1, f as u32, f as u64);
            }
        }
    }
}

pub proof fn lemma_cut_alpha_block(st: AlphaDec, bytes: Seq<u8>, m: int, l: Layout, k: int)
    requires
        0 <= st.d.dec.at <= m <= bytes.len(),
    ensures
        cut(alpha_dec_block(st, bytes.take(m), l, k), alpha_dec_block(st, bytes, l, k), |x: AlphaDec| x.d.dec.at, st.d.dec.at, m, bytes.len() as int),
{
    let n = bytes.len() as int;
    let cols = l.columns as int;
    let at = alpha_pos(l, k);
    let r = reference(st.out, at, cols, l.stride as int, k % cols, k / cols, st.prev);
    lemma_cut_ends(st.d, bytes, m, r);
    if let Ok((d2, a, b)) = alpha_dec_ends(st.d, bytes, r) {
        lemma_cut_index(d2, bytes, within(d2.dec.at, m, n), st.dict, st.out.update(at, a).update(at + 1, b), at, a, b);
    }
}

pub proof fn lemma_cut_alpha_from(st: AlphaDec, bytes: Seq<u8>, m: int, l: Layout, k: int)
    requires
        0 <= st.d.dec.at <= m <= bytes.len(),
    ensures
        cut(alpha_dec_from(st, bytes.take(m), l, k), alpha_dec_from(st, bytes, l, k), |x: AlphaDec| x.d.dec.at, st.d.dec.at, m, bytes.len() as int),
    decreases blocks(l) - k,
{
    let n = bytes.len() as int;
    if k < blocks(l) {
        lemma_cut_alpha_block(st, bytes, m, l, k);
        if let Ok(s1) = alpha_dec_block(st, bytes, l, k) {
            lemma_cut_alpha_from(s1, bytes, within(s1.d.dec.at, m, n), l, k + 1);
        }
    }
}

pub proof fn lemma_cut_alpha(dec: DecState, bytes: Seq<u8>, m: int, out: Seq<u8>, l: Layout)
    requires
        0 <= dec.at <= m <= bytes.len(),
    ensures
        cut(alpha_decode(dec, bytes.take(m), out, l), alpha_decode(dec, bytes, out, l), |x: (DecState, Seq<u8>)| x.0.at, dec.at, m, bytes.len() as int),
{
    let st0 = AlphaDec { d: DCoder { dec, models: alpha_models() }, dict: dict_init(), prev: 0, out };
    lemma_cut_alpha_from(st0, bytes, m, l, 0);
}

// ---------------------------------------------------------------------------
// Streams

pub proof fn lemma_cut_planes(format: Format, dec: DecState, bytes: Seq<u8>, m: int, out: Seq<u8>, l: Layout)
    requires
        0 <= dec.at <= m <= bytes.len(),
    ensures
        cut(
            decode_planes(format, dec, bytes.take(m), out, l),
            decode_planes(format, dec, bytes, out, l),
            |x: (DecState, Seq<u8>)| x.0.at,
            dec.at,
            m,
            bytes.len() as int,
        ),
{
    let n = bytes.len() as int;
    match format {
        Format::Bc1 => {
            lemma_cut_color(dec, bytes, m, out, l);
        },
        Format::Bc3 => {
            lemma_cut_alpha(dec, bytes, m, out, l);
            if let Ok((d1, o1)) = alpha_decode(dec, bytes, out, l) {
                lemma_cut_color(d1, bytes, within(d1.at, m, n), o1, second(l));
            }
        },
        Format::Bc4 => {
            lemma_cut_alpha(dec, bytes, m, out, l);
        },
        Format::Bc5 => {
            lemma_cut_alpha(dec, bytes, m, out, l);
            if let Ok((d1, o1)) = alpha_decode(dec, bytes, out, l) {
                lemma_cut_alpha(d1, bytes, within(d1.at, m, n), o1, second(l));
            }
        },
    }
}

/// A compressed stream missing two or more of its last bytes is refused:
/// decompressing any shorter prefix of it fails, whatever the buffer.
pub proof fn lemma_truncated(width: u32, height: u32, format: Format, input: Seq<u8>, out0: Seq<u8>, m: int)
    requires
        spec_compress(width, height, format, input) matches Ok(s) && 0 <= m <= s.len() - 2,
    ensures
        spec_compress(width, height, format, input) matches Ok(s) && spec_decompress(width, height, format, s.take(m), out0) is Err,
{
    let s = spec_compress(width, height, format, input)->Ok_0;
    let t = s.take(m);
    let nn = format.grid_len(width, height)->Some_0;
    if out0.len() == nn && t.len() <= input_limit(out0.len() as int) && m >= 4 {
        lemma_grid(width, height, format);
        let l = grid(width, height, format);
        lemma_planes_ok(format, input, l);
        let fin = encode_planes(format, input, l);
        lemma_finish(fin);
        lemma_planes_inverse(format, input, l, out0);
        let d0 = dec_new(s)->Ok_0;
        assert(t.take(4) =~= s.take(4));
        assert(dec_new(t) == dec_new(s)) by {
            assert(t[0] == s[0] && t[1] == s[1] && t[2] == s[2] && t[3] == s[3]);
        }
        lemma_cut_planes(format, d0, s, m, out0, l);
    }
}

/// Bytes after a stream are ignored: a stream that decompresses gives the
/// same result with any bytes appended, as long as the whole stays within
/// the decoder's input limit.
pub proof fn lemma_trailing(width: u32, height: u32, format: Format, s: Seq<u8>, extra: Seq<u8>, out0: Seq<u8>)
    requires
        spec_decompress(width, height, format, s, out0) is Ok,
        (s + extra).len() <= input_limit(out0.len() as int),
    ensures
        spec_decompress(width, height, format, s + extra, out0) == spec_decompress(width, height, format, s, out0),
{
    let t = s + extra;
    let m = s.len() as int;
    assert(t.take(m) =~= s);
    lemma_grid(width, height, format);
    let l = grid(width, height, format);
    let d0 = dec_new(s)->Ok_0;
    assert(dec_new(t) == dec_new(s)) by {
        assert(t[0] == s[0] && t[1] == s[1] && t[2] == s[2] && t[3] == s[3]);
    }
    lemma_cut_planes(format, d0, t, m, out0, l);
}

/// Decompressing a compressed grid with any bytes appended still gives the
/// grid back, as long as the whole stays within the decoder's input limit.
pub proof fn lemma_roundtrip_trailing(width: u32, height: u32, format: Format, input: Seq<u8>, extra: Seq<u8>, out0: Seq<u8>)
    requires
        format.grid_len(width, height) == Some(input.len() as int),
        out0.len() == input.len(),
        spec_compress(width, height, format, input) matches Ok(s) && (s + extra).len() <= input_limit(input.len() as int),
    ensures
        spec_compress(width, height, format, input) matches Ok(s) && spec_decompress(width, height, format, s + extra, out0)
            == Ok::<Seq<u8>, crate::types::Error>(input),
{
    let s = spec_compress(width, height, format, input)->Ok_0;
    crate::roundtrip::lemma_roundtrip(width, height, format, input, out0);
    lemma_trailing(width, height, format, s, extra, out0);
}

} // verus!
