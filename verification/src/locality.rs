//! What each plane pass reads and writes. Decoding writes only the coded
//! eight-byte plane of each block and reads back only plane bytes it wrote,
//! so the prior contents of the output never change the result; encoding
//! reads only the coded plane of each block.
use vstd::prelude::*;
use crate::block::Layout;
use crate::codec::{grid, input_limit, second, spec_decompress};
use crate::range::dec_new;
use crate::roundtrip::lemma_grid;
use crate::types::Format;
use crate::range::{Coder, DCoder, DecState, EncState};
use crate::color::{ColorEnc, color_enc_block, color_enc_blocks, color_enc_endpoint, color_enc_header, color_encode, selectors, table_spec, color_block_left, color_dec_entries, color_decode, color_left, color_left_from, color_models, dec_bits_bytes, ColorDec, blocks, color_dec_block, color_dec_endpoint, color_dec_from, color_dec_selector, color_pos, lemma_color_pos};
use crate::alpha::{AlphaEnc, alpha_enc_block, alpha_enc_blocks, alpha_encode, linear, packed, AlphaDec, alpha_block_left, alpha_dec_block, alpha_dec_from, alpha_decode, alpha_left, alpha_left_from, alpha_models, alpha_pos, dict_init, lemma_alpha_pos, reference};
use crate::color_inverse::{in_plane, lemma_in_block, lemma_up, lemma_zrank, zrank};

verus! {

/// `t` differs from `s` at most at the positions `lo..hi`.
pub open spec fn only_in(t: Seq<u8>, s: Seq<u8>, lo: int, hi: int) -> bool {
    &&& t.len() == s.len()
    &&& forall|p: int| 0 <= p < s.len() && !(lo <= p < hi) ==> #[trigger] t[p] == s[p]
}

/// `t1` and `t2` agree at the positions `lo..hi`.
pub open spec fn same_in(t1: Seq<u8>, t2: Seq<u8>, lo: int, hi: int) -> bool {
    forall|p: int| lo <= p < hi ==> #[trigger] t1[p] == t2[p]
}

/// Two outputs agree on the plane bytes of the blocks coded before the
/// `k`-th in colour order.
pub open spec fn color_agree(o1: Seq<u8>, o2: Seq<u8>, l: Layout, k: int) -> bool {
    &&& o1.len() == o2.len()
    &&& forall|p: int| 0 <= p < o1.len() && in_plane(l, p) && zrank(l, p / (l.stride as int)) < k ==> #[trigger] o1[p] == o2[p]
}

/// `t` holds the bytes of `o` but for the plane bytes of the blocks coded
/// before the `k`-th in colour order.
pub open spec fn color_kept(t: Seq<u8>, o: Seq<u8>, l: Layout, k: int) -> bool {
    &&& t.len() == o.len()
    &&& forall|p: int|
        0 <= p < o.len() && !(in_plane(l, p) && zrank(l, p / (l.stride as int)) < k) ==> #[trigger] t[p] == o[p]
}

/// Decoding an endpoint reads the output only at the block above, and
/// writes the same two bytes whatever else the output holds.
pub proof fn lemma_endpoint_pair(s1: ColorDec, s2: ColorDec, bytes: Seq<u8>, l: Layout, k: int, j: int)
    requires
        l.wf(),
        0 <= k < blocks(l),
        0 <= j < 2,
        s1.d == s2.d,
        s1.prev == s2.prev,
        s1.out.len() == l.len(),
        s2.out.len() == l.len(),
        k / (l.columns as int) > 0 ==> ({
            let u = color_pos(l, k) - l.columns * l.stride + 2 * j;
            s1.out[u] == s2.out[u] && s1.out[u + 1] == s2.out[u + 1]
        }),
    ensures
        ({
            let at = color_pos(l, k) + 2 * j;
            match color_dec_endpoint(s1, bytes, l, k, j) {
                Err(e) => color_dec_endpoint(s2, bytes, l, k, j) == Err::<ColorDec, crate::types::Error>(e),
                Ok(t1) => color_dec_endpoint(s2, bytes, l, k, j) matches Ok(t2) && t1.d == t2.d && t1.prev == t2.prev && only_in(
                    t1.out,
                    s1.out,
                    at,
                    at + 2,
                ) && only_in(t2.out, s2.out, at, at + 2) && same_in(t1.out, t2.out, at, at + 2),
            }
        }),
{
    lemma_color_pos(l, k);
    if k / (l.columns as int) > 0 {
        lemma_up(l, k, j);
        let u = color_pos(l, k) - l.columns * l.stride + 2 * j;
        assert(crate::block::u16_at(s1.out, u) == crate::block::u16_at(s2.out, u));
    }
}

/// Decoding a selector word reads nothing of the output and writes the same
/// four bytes whatever it holds.
pub proof fn lemma_selector_pair(s1: ColorDec, s2: ColorDec, bytes: Seq<u8>, l: Layout, top: Seq<u32>, k: int)
    requires
        l.wf(),
        0 <= k < blocks(l),
        s1.d == s2.d,
        s1.out.len() == l.len(),
        s2.out.len() == l.len(),
    ensures
        ({
            let at = color_pos(l, k) + 4;
            match color_dec_selector(s1, bytes, l, top, k) {
                Err(e) => color_dec_selector(s2, bytes, l, top, k) == Err::<ColorDec, crate::types::Error>(e),
                Ok(t1) => color_dec_selector(s2, bytes, l, top, k) matches Ok(t2) && t1.d == t2.d && t1.prev == s1.prev && t2.prev
                    == s2.prev && only_in(t1.out, s1.out, at, at + 4) && only_in(t2.out, s2.out, at, at + 4) && same_in(
                    t1.out,
                    t2.out,
                    at,
                    at + 4,
                ),
            }
        }),
{
    lemma_color_pos(l, k);
}

/// Decoding block `k` reads the output only at plane bytes of blocks coded
/// before it, and writes the same eight plane bytes whatever else the
/// output holds; a failing block writes within those bytes too.
pub proof fn lemma_block_pair(s1: ColorDec, s2: ColorDec, bytes: Seq<u8>, l: Layout, top: Seq<u32>, k: int)
    requires
        l.wf(),
        0 <= k < blocks(l),
        s1.d == s2.d,
        s1.prev == s2.prev,
        s1.out.len() == l.len(),
        color_agree(s1.out, s2.out, l, k),
    ensures
        ({
            let at = color_pos(l, k);
            &&& only_in(color_block_left(s1, bytes, l, k), s1.out, at, at + 8)
            &&& match color_dec_block(s1, bytes, l, top, k) {
                Err(e) => color_dec_block(s2, bytes, l, top, k) == Err::<ColorDec, crate::types::Error>(e),
                Ok(t1) => color_dec_block(s2, bytes, l, top, k) matches Ok(t2) && t1.d == t2.d && t1.prev == t2.prev && only_in(
                    t1.out,
                    s1.out,
                    at,
                    at + 8,
                ) && only_in(t2.out, s2.out, at, at + 8) && same_in(t1.out, t2.out, at, at + 8),
            }
        }),
{
    reveal(color_dec_block);
    lemma_color_pos(l, k);
    let at = color_pos(l, k);
    if k / (l.columns as int) > 0 {
        lemma_up(l, k, 0);
        lemma_up(l, k, 1);
    }
    lemma_endpoint_pair(s1, s2, bytes, l, k, 0);
    lemma_endpoint_pair(s1, s1, bytes, l, k, 0);
    if let Ok(a1) = color_dec_endpoint(s1, bytes, l, k, 0) {
        let a2 = color_dec_endpoint(s2, bytes, l, k, 0)->Ok_0;
        lemma_endpoint_pair(a1, a2, bytes, l, k, 1);
        lemma_endpoint_pair(a1, a1, bytes, l, k, 1);
        if let Ok(b1) = color_dec_endpoint(a1, bytes, l, k, 1) {
            let b2 = color_dec_endpoint(a2, bytes, l, k, 1)->Ok_0;
            lemma_selector_pair(b1, b2, bytes, l, top, k);
        }
    }
}

/// After a block is decoded in both outputs, they agree and keep their old
/// bytes one block further.
pub proof fn lemma_color_step(t: Seq<u8>, s: Seq<u8>, o: Seq<u8>, l: Layout, k: int)
    requires
        l.wf(),
        0 <= k < blocks(l),
        s.len() == l.len(),
        color_kept(s, o, l, k),
        only_in(t, s, color_pos(l, k), color_pos(l, k) + 8),
    ensures
        color_kept(t, o, l, k + 1),
        forall|p: int|
            0 <= p < t.len() && !(color_pos(l, k) <= p < color_pos(l, k) + 8) ==> #[trigger] t[p] == s[p],
        forall|p: int|
            0 <= p < t.len() && in_plane(l, p) && zrank(l, p / (l.stride as int)) == k ==> color_pos(l, k) <= p < color_pos(l, k) + 8,
{
    lemma_color_pos(l, k);
    let st = l.stride as int;
    let c = l.columns as int;
    let y = k / c;
    let x = k % c;
    let zx = if y % 2 == 1 { x } else { c - x - 1 };
    let q = y * c + zx;
    assert forall|p: int| 0 <= p < t.len() && in_plane(l, p) && zrank(l, p / st) == k implies color_pos(l, k) <= p < color_pos(
        l,
        k,
    ) + 8 by {
        let qp = p / st;
        vstd::arithmetic::div_mod::lemma_fundamental_div_mod(p, st);
        assert(0 <= qp < blocks(l)) by (nonlinear_arith)
            requires p == st * qp + p % st, 0 <= p % st < st, 0 <= p < l.columns * l.rows * st, st >= 8;
        lemma_zrank(l, k, qp);
        lemma_in_block(l, q, p);
    }
    assert forall|p: int| 0 <= p < o.len() && !(in_plane(l, p) && zrank(l, p / st) < k + 1) implies #[trigger] t[p] == o[p] by {
        lemma_in_block(l, q, p);
        lemma_zrank(l, k, q);
        assert(s[p] == o[p]);
    }
}

pub proof fn lemma_agree_step(t1: Seq<u8>, t2: Seq<u8>, s1: Seq<u8>, s2: Seq<u8>, l: Layout, k: int)
    requires
        l.wf(),
        0 <= k < blocks(l),
        s1.len() == l.len(),
        color_agree(s1, s2, l, k),
        only_in(t1, s1, color_pos(l, k), color_pos(l, k) + 8),
        only_in(t2, s2, color_pos(l, k), color_pos(l, k) + 8),
        same_in(t1, t2, color_pos(l, k), color_pos(l, k) + 8),
    ensures
        color_agree(t1, t2, l, k + 1),
{
    let st = l.stride as int;
    assert forall|p: int| 0 <= p < t1.len() && in_plane(l, p) && zrank(l, p / st) < k + 1 implies #[trigger] t1[p] == t2[p] by {
        lemma_color_step(t1, s1, s1, l, k);
        if !(color_pos(l, k) <= p < color_pos(l, k) + 8) {
            assert(s1[p] == s2[p]);
        }
    }
}

/// Every byte of a grid lies in a block of some rank.
pub proof fn lemma_rank_all(l: Layout, p: int)
    requires
        l.wf(),
        0 <= p < l.len(),
    ensures
        0 <= p / (l.stride as int) < blocks(l),
        zrank(l, p / (l.stride as int)) < blocks(l),
{
    let st = l.stride as int;
    let qp = p / st;
    vstd::arithmetic::div_mod::lemma_fundamental_div_mod(p, st);
    assert(0 <= qp < blocks(l)) by (nonlinear_arith)
        requires p == st * qp + p % st, 0 <= p % st < st, 0 <= p < l.columns * l.rows * st, st >= 8;
    lemma_zrank(l, 0, qp);
}

/// Decoding the blocks from the `k`-th on gives the same result and the
/// same plane bytes whatever the outputs hold elsewhere, and keeps every
/// byte outside the plane, whether or not a block fails.
pub proof fn lemma_from_pair(
    s1: ColorDec,
    s2: ColorDec,
    bytes: Seq<u8>,
    l: Layout,
    top: Seq<u32>,
    k: int,
    o1: Seq<u8>,
    o2: Seq<u8>,
)
    requires
        l.wf(),
        0 <= k <= blocks(l),
        s1.d == s2.d,
        s1.prev == s2.prev,
        s1.out.len() == l.len(),
        color_agree(s1.out, s2.out, l, k),
        color_kept(s1.out, o1, l, k),
        color_kept(s2.out, o2, l, k),
    ensures
        color_kept(color_left_from(s1, bytes, l, top, k), o1, l, blocks(l)),
        match color_dec_from(s1, bytes, l, top, k) {
            Err(e) => color_dec_from(s2, bytes, l, top, k) == Err::<ColorDec, crate::types::Error>(e),
            Ok(t1) => color_dec_from(s2, bytes, l, top, k) matches Ok(t2) && t1.d == t2.d && color_agree(t1.out, t2.out, l, blocks(l))
                && color_kept(t1.out, o1, l, blocks(l)) && color_kept(t2.out, o2, l, blocks(l)),
        },
    decreases blocks(l) - k,
{
    if k < blocks(l) {
        lemma_block_pair(s1, s2, bytes, l, top, k);
        lemma_block_pair(s1, s1, bytes, l, top, k);
        if let Ok(t1) = color_dec_block(s1, bytes, l, top, k) {
            let t2 = color_dec_block(s2, bytes, l, top, k)->Ok_0;
            lemma_color_step(t1.out, s1.out, o1, l, k);
            lemma_color_step(t2.out, s2.out, o2, l, k);
            lemma_agree_step(t1.out, t2.out, s1.out, s2.out, l, k);
            lemma_from_pair(t1, t2, bytes, l, top, k + 1, o1, o2);
        } else {
            let t = color_block_left(s1, bytes, l, k);
            lemma_color_step(t, s1.out, o1, l, k);
            assert forall|p: int| 0 <= p < o1.len() && !(in_plane(l, p) && zrank(l, p / (l.stride as int)) < blocks(l)) implies #[trigger] t[p]
                == o1[p] by {
                lemma_rank_all(l, p);
            }
        }
    }
}

/// Decoding a colour plane gives the same result and the same plane bytes
/// whatever the output held before, and never changes a byte outside the
/// plane, whether or not it fails.
pub proof fn lemma_color_local(dec: DecState, bytes: Seq<u8>, o1: Seq<u8>, o2: Seq<u8>, l: Layout)
    requires
        l.wf(),
        o1.len() == l.len(),
        o2.len() == l.len(),
    ensures
        color_left(dec, bytes, o1, l).len() == o1.len(),
        forall|p: int| 0 <= p < o1.len() && !in_plane(l, p) ==> #[trigger] color_left(dec, bytes, o1, l)[p] == o1[p],
        match color_decode(dec, bytes, o1, l) {
            Err(e) => color_decode(dec, bytes, o2, l) == Err::<(DecState, Seq<u8>), crate::types::Error>(e),
            Ok((d1, p1)) => color_decode(dec, bytes, o2, l) matches Ok((d2, p2)) && d1 == d2 && p1.len() == o1.len() && p2.len()
                == o2.len() && (forall|p: int| 0 <= p < o1.len() && in_plane(l, p) ==> #[trigger] p1[p] == p2[p]) && (forall|p: int|
                0 <= p < o1.len() && !in_plane(l, p) ==> p1[p] == o1[p] && #[trigger] p2[p] == o2[p]),
        },
{
    if let Ok((d1, nm1)) = crate::range::dec_bits(dec, bytes, 8) {
        let n = nm1 + 1;
        let dc = DCoder { dec: d1, models: color_models(n as int) };
        if let Ok((dc2, t0)) = dec_bits_bytes(dc, bytes, 0, 0) {
            if let Ok((dc3, top)) = color_dec_entries(dc2, bytes, seq![t0 as u32], n as int) {
                let s1 = ColorDec { d: dc3, prev: seq![0u16, 0u16], out: o1 };
                let s2 = ColorDec { d: dc3, prev: seq![0u16, 0u16], out: o2 };
                lemma_from_pair(s1, s2, bytes, l, top, 0, o1, o2);
                assert forall|p: int| 0 <= p < o1.len() implies #[trigger] o1[p] == o1[p] && zrank(l, p / (l.stride as int)) < blocks(l) by {
                    lemma_rank_all(l, p);
                }
            }
        }
    }
}

// ---------------------------------------------------------------------------
// The alpha plane

/// Two outputs agree on the plane bytes of the first `k` blocks.
pub open spec fn alpha_agree(o1: Seq<u8>, o2: Seq<u8>, l: Layout, k: int) -> bool {
    &&& o1.len() == o2.len()
    &&& forall|p: int| 0 <= p < o1.len() && in_plane(l, p) && p / (l.stride as int) < k ==> #[trigger] o1[p] == o2[p]
}

/// `t` holds the bytes of `o` but for the plane bytes of the first `k`
/// blocks.
pub open spec fn alpha_kept(t: Seq<u8>, o: Seq<u8>, l: Layout, k: int) -> bool {
    &&& t.len() == o.len()
    &&& forall|p: int| 0 <= p < o.len() && !(in_plane(l, p) && p / (l.stride as int) < k) ==> #[trigger] t[p] == o[p]
}

/// Decoding block `k` reads the output only at plane bytes of earlier
/// blocks, and writes the same eight plane bytes whatever else the output
/// holds; a failing block writes within those bytes too.
pub proof fn lemma_alpha_block_pair(s1: AlphaDec, s2: AlphaDec, bytes: Seq<u8>, l: Layout, k: int)
    requires
        l.wf(),
        0 <= k < blocks(l),
        s1.d == s2.d,
        s1.dict == s2.dict,
        s1.prev == s2.prev,
        s1.out.len() == l.len(),
        alpha_agree(s1.out, s2.out, l, k),
    ensures
        ({
            let at = alpha_pos(l, k);
            &&& only_in(alpha_block_left(s1, bytes, l, k), s1.out, at, at + 8)
            &&& match alpha_dec_block(s1, bytes, l, k) {
                Err(e) => alpha_dec_block(s2, bytes, l, k) == Err::<AlphaDec, crate::types::Error>(e),
                Ok(t1) => alpha_dec_block(s2, bytes, l, k) matches Ok(t2) && t1.d == t2.d && t1.dict == t2.dict && t1.prev == t2.prev
                    && only_in(t1.out, s1.out, at, at + 8) && only_in(t2.out, s2.out, at, at + 8) && same_in(t1.out, t2.out, at, at + 8),
            }
        }),
{
    lemma_alpha_pos(l, k);
    let cols = l.columns as int;
    let st = l.stride as int;
    let y = k / cols;
    let x = k % cols;
    let at = alpha_pos(l, k);
    vstd::arithmetic::div_mod::lemma_fundamental_div_mod(k, cols);
    if y > 0 {
        assert(k >= cols) by (nonlinear_arith)
            requires k == cols * y + x, y >= 1, x >= 0, cols >= 0;
        let pu = at - cols * st;
        assert(pu == (k - cols) * st + l.offset) by (nonlinear_arith)
            requires at == k * st + l.offset, pu == at - cols * st;
        lemma_in_block(l, k - cols, pu);
        assert(s1.out[pu] == s2.out[pu]);
        if x > 0 {
            assert(k >= cols + 1) by (nonlinear_arith)
                requires k == cols * y + x, y >= 1, x >= 1, cols >= 0;
            let pl = at - cols * st - st;
            assert(pl == (k - cols - 1) * st + l.offset) by (nonlinear_arith)
                requires at == k * st + l.offset, pl == at - cols * st - st;
            lemma_in_block(l, k - cols - 1, pl);
            assert(s1.out[pl] == s2.out[pl]);
        }
    }
    let r = reference(s1.out, at, cols, st, x, y, s1.prev);
    assert(reference(s2.out, at, cols, st, x, y, s2.prev) == r);
}

/// After a block is decoded, the output keeps its old bytes one block
/// further.
pub proof fn lemma_alpha_step(t: Seq<u8>, s: Seq<u8>, o: Seq<u8>, l: Layout, k: int)
    requires
        l.wf(),
        0 <= k < blocks(l),
        s.len() == l.len(),
        alpha_kept(s, o, l, k),
        only_in(t, s, alpha_pos(l, k), alpha_pos(l, k) + 8),
    ensures
        alpha_kept(t, o, l, k + 1),
{
    assert forall|p: int| 0 <= p < o.len() && !(in_plane(l, p) && p / (l.stride as int) < k + 1) implies #[trigger] t[p] == o[p] by {
        lemma_in_block(l, k, p);
        assert(s[p] == o[p]);
    }
}

pub proof fn lemma_alpha_agree_step(t1: Seq<u8>, t2: Seq<u8>, s1: Seq<u8>, s2: Seq<u8>, l: Layout, k: int)
    requires
        l.wf(),
        0 <= k < blocks(l),
        s1.len() == l.len(),
        alpha_agree(s1, s2, l, k),
        only_in(t1, s1, alpha_pos(l, k), alpha_pos(l, k) + 8),
        only_in(t2, s2, alpha_pos(l, k), alpha_pos(l, k) + 8),
        same_in(t1, t2, alpha_pos(l, k), alpha_pos(l, k) + 8),
    ensures
        alpha_agree(t1, t2, l, k + 1),
{
    assert forall|p: int| 0 <= p < t1.len() && in_plane(l, p) && p / (l.stride as int) < k + 1 implies #[trigger] t1[p] == t2[p] by {
        lemma_in_block(l, k, p);
        if !(alpha_pos(l, k) <= p < alpha_pos(l, k) + 8) {
            assert(s1[p] == s2[p]);
        }
    }
}

/// Decoding the alpha blocks from the `k`-th on gives the same result and
/// the same plane bytes whatever the outputs hold elsewhere, and keeps
/// every byte outside the plane, whether or not a block fails.
pub proof fn lemma_alpha_from_pair(s1: AlphaDec, s2: AlphaDec, bytes: Seq<u8>, l: Layout, k: int, o1: Seq<u8>, o2: Seq<u8>)
    requires
        l.wf(),
        0 <= k <= blocks(l),
        s1.d == s2.d,
        s1.dict == s2.dict,
        s1.prev == s2.prev,
        s1.out.len() == l.len(),
        alpha_agree(s1.out, s2.out, l, k),
        alpha_kept(s1.out, o1, l, k),
        alpha_kept(s2.out, o2, l, k),
    ensures
        alpha_kept(alpha_left_from(s1, bytes, l, k), o1, l, blocks(l)),
        match alpha_dec_from(s1, bytes, l, k) {
            Err(e) => alpha_dec_from(s2, bytes, l, k) == Err::<AlphaDec, crate::types::Error>(e),
            Ok(t1) => alpha_dec_from(s2, bytes, l, k) matches Ok(t2) && t1.d == t2.d && alpha_agree(t1.out, t2.out, l, blocks(l))
                && alpha_kept(t1.out, o1, l, blocks(l)) && alpha_kept(t2.out, o2, l, blocks(l)),
        },
    decreases blocks(l) - k,
{
    if k < blocks(l) {
        lemma_alpha_block_pair(s1, s2, bytes, l, k);
        lemma_alpha_block_pair(s1, s1, bytes, l, k);
        if let Ok(t1) = alpha_dec_block(s1, bytes, l, k) {
            let t2 = alpha_dec_block(s2, bytes, l, k)->Ok_0;
            lemma_alpha_step(t1.out, s1.out, o1, l, k);
            lemma_alpha_step(t2.out, s2.out, o2, l, k);
            lemma_alpha_agree_step(t1.out, t2.out, s1.out, s2.out, l, k);
            lemma_alpha_from_pair(t1, t2, bytes, l, k + 1, o1, o2);
        } else {
            let t = alpha_block_left(s1, bytes, l, k);
            lemma_alpha_step(t, s1.out, o1, l, k);
            assert forall|p: int| 0 <= p < o1.len() && !(in_plane(l, p) && p / (l.stride as int) < blocks(l)) implies #[trigger] t[p]
                == o1[p] by {
                lemma_rank_all(l, p);
            }
        }
    }
}

/// Decoding an alpha plane gives the same result and the same plane bytes
/// whatever the output held before, and never changes a byte outside the
/// plane, whether or not it fails.
pub proof fn lemma_alpha_local(dec: DecState, bytes: Seq<u8>, o1: Seq<u8>, o2: Seq<u8>, l: Layout)
    requires
        l.wf(),
        o1.len() == l.len(),
        o2.len() == l.len(),
    ensures
        alpha_left(dec, bytes, o1, l).len() == o1.len(),
        forall|p: int| 0 <= p < o1.len() && !in_plane(l, p) ==> #[trigger] alpha_left(dec, bytes, o1, l)[p] == o1[p],
        match alpha_decode(dec, bytes, o1, l) {
            Err(e) => alpha_decode(dec, bytes, o2, l) == Err::<(DecState, Seq<u8>), crate::types::Error>(e),
            Ok((d1, p1)) => alpha_decode(dec, bytes, o2, l) matches Ok((d2, p2)) && d1 == d2 && p1.len() == o1.len() && p2.len()
                == o2.len() && (forall|p: int| 0 <= p < o1.len() && in_plane(l, p) ==> #[trigger] p1[p] == p2[p]) && (forall|p: int|
                0 <= p < o1.len() && !in_plane(l, p) ==> p1[p] == o1[p] && #[trigger] p2[p] == o2[p]),
        },
{
    let s1 = AlphaDec { d: DCoder { dec, models: alpha_models() }, dict: dict_init(), prev: 0, out: o1 };
    let s2 = AlphaDec { d: DCoder { dec, models: alpha_models() }, dict: dict_init(), prev: 0, out: o2 };
    lemma_alpha_from_pair(s1, s2, bytes, l, 0, o1, o2);
    assert forall|p: int| 0 <= p < o1.len() implies #[trigger] o1[p] == o1[p] && p / (l.stride as int) < blocks(l) by {
        lemma_rank_all(l, p);
    }
}

// ---------------------------------------------------------------------------
// Whole streams

/// Decompression does not depend on what the output buffer held before:
/// into two buffers of the same size it fails with the same error, or
/// succeeds with the same bytes.
pub proof fn lemma_output_independent(width: u32, height: u32, format: Format, input: Seq<u8>, o1: Seq<u8>, o2: Seq<u8>)
    requires
        o1.len() == o2.len(),
    ensures
        spec_decompress(width, height, format, input, o2) == spec_decompress(width, height, format, input, o1),
{
    if let Some(n) = format.grid_len(width, height) {
        if o1.len() == n && input.len() <= input_limit(o1.len() as int) {
            if let Ok(d) = dec_new(input) {
                lemma_grid(width, height, format);
                let l = grid(width, height, format);
                let l2 = second(l);
                match format {
                    Format::Bc1 => {
                        lemma_color_local(d, input, o1, o2, l);
                        if let Ok((d1, p1)) = color_decode(d, input, o1, l) {
                            let p2 = color_decode(d, input, o2, l)->Ok_0.1;
                            assert(p1 =~= p2);
                        }
                    },
                    Format::Bc4 => {
                        lemma_alpha_local(d, input, o1, o2, l);
                        if let Ok((d1, p1)) = alpha_decode(d, input, o1, l) {
                            let p2 = alpha_decode(d, input, o2, l)->Ok_0.1;
                            assert(p1 =~= p2);
                        }
                    },
                    Format::Bc3 => {
                        lemma_alpha_local(d, input, o1, o2, l);
                        if let Ok((d1, q1)) = alpha_decode(d, input, o1, l) {
                            let q2 = alpha_decode(d, input, o2, l)->Ok_0.1;
                            lemma_color_local(d1, input, q1, q2, l2);
                            if let Ok((d2, p1)) = color_decode(d1, input, q1, l2) {
                                let p2 = color_decode(d1, input, q2, l2)->Ok_0.1;
                                assert(p1 =~= p2) by {
                                    assert forall|p: int| 0 <= p < p1.len() implies p1[p] == p2[p] by {
                                        if !in_plane(l2, p) {
                                            assert(in_plane(l, p));
                                            assert(q1[p] == q2[p]);
                                        }
                                    }
                                }
                            }
                        }
                    },
                    Format::Bc5 => {
                        lemma_alpha_local(d, input, o1, o2, l);
                        if let Ok((d1, q1)) = alpha_decode(d, input, o1, l) {
                            let q2 = alpha_decode(d, input, o2, l)->Ok_0.1;
                            lemma_alpha_local(d1, input, q1, q2, l2);
                            if let Ok((d2, p1)) = alpha_decode(d1, input, q1, l2) {
                                let p2 = alpha_decode(d1, input, q2, l2)->Ok_0.1;
                                assert(p1 =~= p2) by {
                                    assert forall|p: int| 0 <= p < p1.len() implies p1[p] == p2[p] by {
                                        if !in_plane(l2, p) {
                                            assert(in_plane(l, p));
                                            assert(q1[p] == q2[p]);
                                        }
                                    }
                                }
                            }
                        }
                    },
                }
            }
        }
    }
}

// ---------------------------------------------------------------------------
// Encoding

/// Two inputs agree on the coded plane.
pub open spec fn plane_agree(in1: Seq<u8>, in2: Seq<u8>, l: Layout) -> bool {
    &&& in1.len() == in2.len()
    &&& forall|p: int| 0 <= p < in1.len() && in_plane(l, p) ==> #[trigger] in1[p] == in2[p]
}

/// The plane bytes of block `q` agree.
pub proof fn lemma_block_agree(in1: Seq<u8>, in2: Seq<u8>, l: Layout, q: int)
    requires
        l.wf(),
        in1.len() == l.len(),
        plane_agree(in1, in2, l),
        0 <= q < blocks(l),
    ensures
        forall|i: int| 0 <= i < 8 ==> #[trigger] in1[q * l.stride + l.offset + i] == in2[q * l.stride + l.offset + i],
        0 <= q * l.stride,
        q * l.stride + l.offset + 8 <= l.len(),
{
    crate::alpha::lemma_alpha_pos(l, q);
    assert forall|i: int| 0 <= i < 8 implies #[trigger] in1[q * l.stride + l.offset + i] == in2[q * l.stride + l.offset + i] by {
        lemma_in_block(l, q, q * l.stride + l.offset + i);
    }
}

pub proof fn lemma_color_block_reads(st: ColorEnc, in1: Seq<u8>, in2: Seq<u8>, l: Layout, top: Seq<u32>, k: int)
    requires
        l.wf(),
        in1.len() == l.len(),
        plane_agree(in1, in2, l),
        0 <= k < blocks(l),
    ensures
        color_enc_block(st, in1, l, top, k) == color_enc_block(st, in2, l, top, k),
{
    lemma_color_pos(l, k);
    let c = l.columns as int;
    let y = k / c;
    let x = k % c;
    let zx = if y % 2 == 1 { x } else { c - x - 1 };
    let q = y * c + zx;
    lemma_block_agree(in1, in2, l, q);
    let at = color_pos(l, k);
    assert(at == q * l.stride + l.offset);
    assert(in1[at] == in2[at] && in1[at + 1] == in2[at + 1] && in1[at + 2] == in2[at + 2] && in1[at + 3] == in2[at + 3]) by {
        assert(in1[q * l.stride + l.offset + 0] == in2[q * l.stride + l.offset + 0]);
        assert(in1[q * l.stride + l.offset + 1] == in2[q * l.stride + l.offset + 1]);
        assert(in1[q * l.stride + l.offset + 2] == in2[q * l.stride + l.offset + 2]);
        assert(in1[q * l.stride + l.offset + 3] == in2[q * l.stride + l.offset + 3]);
    }
    assert(in1[at + 4] == in2[at + 4] && in1[at + 5] == in2[at + 5] && in1[at + 6] == in2[at + 6] && in1[at + 7] == in2[at + 7]) by {
        assert(in1[q * l.stride + l.offset + 4] == in2[q * l.stride + l.offset + 4]);
        assert(in1[q * l.stride + l.offset + 5] == in2[q * l.stride + l.offset + 5]);
        assert(in1[q * l.stride + l.offset + 6] == in2[q * l.stride + l.offset + 6]);
        assert(in1[q * l.stride + l.offset + 7] == in2[q * l.stride + l.offset + 7]);
    }
    if y > 0 {
        lemma_up(l, k, 0);
        lemma_up(l, k, 1);
        let u = at - l.columns * l.stride;
        assert(in1[u] == in2[u] && in1[u + 1] == in2[u + 1] && in1[u + 2] == in2[u + 2] && in1[u + 3] == in2[u + 3]);
    }
    let s1a = color_enc_endpoint(st, in1, l, k, 0);
    assert(s1a == color_enc_endpoint(st, in2, l, k, 0));
    assert(color_enc_endpoint(s1a, in1, l, k, 1) == color_enc_endpoint(s1a, in2, l, k, 1));
}

pub proof fn lemma_color_blocks_reads(st: ColorEnc, in1: Seq<u8>, in2: Seq<u8>, l: Layout, top: Seq<u32>, k: int)
    requires
        l.wf(),
        in1.len() == l.len(),
        plane_agree(in1, in2, l),
        0 <= k <= blocks(l),
    ensures
        color_enc_blocks(st, in1, l, top, k) == color_enc_blocks(st, in2, l, top, k),
    decreases k,
{
    if k > 0 {
        lemma_color_blocks_reads(st, in1, in2, l, top, k - 1);
        lemma_color_block_reads(color_enc_blocks(st, in1, l, top, k - 1), in1, in2, l, top, k - 1);
    }
}

/// Coding a colour plane reads only the coded plane of each block: inputs
/// that agree there give the same encoder state.
pub proof fn lemma_color_encode_reads(e: EncState, in1: Seq<u8>, in2: Seq<u8>, l: Layout)
    requires
        l.wf(),
        in1.len() == l.len(),
        plane_agree(in1, in2, l),
    ensures
        color_encode(e, in1, l) == color_encode(e, in2, l),
{
    assert(selectors(in1, l) =~= selectors(in2, l)) by {
        assert forall|k: int| 0 <= k < blocks(l) implies #[trigger] selectors(in1, l)[k] == selectors(in2, l)[k] by {
            lemma_block_agree(in1, in2, l, k);
            assert(in1[k * l.stride + l.offset + 4] == in2[k * l.stride + l.offset + 4]);
            assert(in1[k * l.stride + l.offset + 5] == in2[k * l.stride + l.offset + 5]);
            assert(in1[k * l.stride + l.offset + 6] == in2[k * l.stride + l.offset + 6]);
            assert(in1[k * l.stride + l.offset + 7] == in2[k * l.stride + l.offset + 7]);
        }
    }
    let top = table_spec(in1, l);
    let c0 = Coder { enc: e, models: color_models(top.len() as int) };
    let c1 = color_enc_header(c0, top);
    lemma_color_blocks_reads(ColorEnc { c: c1, prev: seq![0u16, 0u16] }, in1, in2, l, top, blocks(l));
}

pub proof fn lemma_alpha_block_reads(st: AlphaEnc, in1: Seq<u8>, in2: Seq<u8>, l: Layout, k: int)
    requires
        l.wf(),
        in1.len() == l.len(),
        plane_agree(in1, in2, l),
        0 <= k < blocks(l),
    ensures
        alpha_enc_block(st, in1, l, k) == alpha_enc_block(st, in2, l, k),
{
    reveal(alpha_enc_block);
    lemma_alpha_pos(l, k);
    lemma_block_agree(in1, in2, l, k);
    let cols = l.columns as int;
    let s = l.stride as int;
    let y = k / cols;
    let x = k % cols;
    let at = alpha_pos(l, k);
    assert(in1[at] == in2[at] && in1[at + 1] == in2[at + 1] && in1[at + 2] == in2[at + 2] && in1[at + 3] == in2[at + 3]) by {
        assert(in1[k * l.stride + l.offset + 0] == in2[k * l.stride + l.offset + 0]);
        assert(in1[k * l.stride + l.offset + 1] == in2[k * l.stride + l.offset + 1]);
        assert(in1[k * l.stride + l.offset + 2] == in2[k * l.stride + l.offset + 2]);
        assert(in1[k * l.stride + l.offset + 3] == in2[k * l.stride + l.offset + 3]);
    }
    assert(in1[at + 4] == in2[at + 4] && in1[at + 5] == in2[at + 5] && in1[at + 6] == in2[at + 6] && in1[at + 7] == in2[at + 7]) by {
        assert(in1[k * l.stride + l.offset + 4] == in2[k * l.stride + l.offset + 4]);
        assert(in1[k * l.stride + l.offset + 5] == in2[k * l.stride + l.offset + 5]);
        assert(in1[k * l.stride + l.offset + 6] == in2[k * l.stride + l.offset + 6]);
        assert(in1[k * l.stride + l.offset + 7] == in2[k * l.stride + l.offset + 7]);
    }
    vstd::arithmetic::div_mod::lemma_fundamental_div_mod(k, cols);
    if y > 0 {
        assert(k >= cols) by (nonlinear_arith)
            requires k == cols * y + x, y >= 1, x >= 0, cols >= 0;
        let pu = at - cols * s;
        assert(pu == (k - cols) * s + l.offset) by (nonlinear_arith)
            requires at == k * s + l.offset, pu == at - cols * s;
        lemma_in_block(l, k - cols, pu);
        if x > 0 {
            assert(k >= cols + 1) by (nonlinear_arith)
                requires k == cols * y + x, y >= 1, x >= 1, cols >= 0;
            let pl = at - cols * s - s;
            assert(pl == (k - cols - 1) * s + l.offset) by (nonlinear_arith)
                requires at == k * s + l.offset, pl == at - cols * s - s;
            lemma_in_block(l, k - cols - 1, pl);
        }
    }
    assert(reference(in1, at, cols, s, x, y, st.prev) == reference(in2, at, cols, s, x, y, st.prev));
    assert(packed(in1, at) == packed(in2, at));
    assert(linear(in1, at) == linear(in2, at));
}

/// Coding an alpha plane reads only the coded plane of each block: inputs
/// that agree there give the same encoder state.
pub proof fn lemma_alpha_encode_reads(e: EncState, in1: Seq<u8>, in2: Seq<u8>, l: Layout)
    requires
        l.wf(),
        in1.len() == l.len(),
        plane_agree(in1, in2, l),
    ensures
        alpha_encode(e, in1, l) == alpha_encode(e, in2, l),
{
    let st0 = AlphaEnc { c: Coder { enc: e, models: alpha_models() }, dict: dict_init(), prev: 0 };
    assert(blocks(l) >= 0) by (nonlinear_arith)
        requires l.columns >= 0, l.rows >= 0;
    lemma_alpha_blocks_reads(st0, in1, in2, l, blocks(l));
}

pub proof fn lemma_alpha_blocks_reads(st: AlphaEnc, in1: Seq<u8>, in2: Seq<u8>, l: Layout, k: int)
    requires
        l.wf(),
        in1.len() == l.len(),
        plane_agree(in1, in2, l),
        0 <= k <= blocks(l),
    ensures
        alpha_enc_blocks(st, in1, l, k) == alpha_enc_blocks(st, in2, l, k),
    decreases k,
{
    if k > 0 {
        lemma_alpha_blocks_reads(st, in1, in2, l, k - 1);
        lemma_alpha_block_reads(alpha_enc_blocks(st, in1, l, k - 1), in1, in2, l, k - 1);
    }
}

} // verus!
