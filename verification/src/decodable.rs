//! The range decoder recovers what the range encoder coded: a decoder that
//! has read the first bytes of a finished stream tracks the encoder's
//! interval, and decodes the symbol the encoder coded next.
use vstd::prelude::*;
use crate::range::{
    DecState, EncState, MIN, add_base, cdf_ok, dec_bits, dec_fill, dec_get, dec_new, dec_renorm, enc_bits, enc_finish, enc_init,
    enc_inv, enc_put, low, num, p256, renorm, renorm_fuel, rescaled, shift_out, search, be32,
    Coder, DCoder, ModelView, c_put, c_bits, d_get, d_bits, coder_wf,
};
use crate::types::Result;

verus! {

/// The number formed by the whole stream `c` lies in the interval of `e`,
/// scaled to the length of the stream.
pub open spec fn code_in(c: Seq<u8>, e: EncState) -> bool {
    let k = e.bytes.len();
    let r = (c.len() - k - 4) as nat;
    &&& k + 4 <= c.len()
    &&& low(e) * p256(r) <= num(c)
    &&& num(c) < (low(e) + e.len) * p256(r)
}

/// A decoder that has read as many bytes of `c` as the encoder in state `e`
/// had emitted, plus four, with the same interval length and the offset of
/// the read prefix within the encoder's interval.
pub open spec fn dec_sync(d: DecState, e: EncState, c: Seq<u8>) -> bool {
    &&& d.at == e.bytes.len() + 4
    &&& d.len == e.len
    &&& d.value as int == num(c.take(d.at)) - low(e)
}

pub proof fn lemma_num_take(c: Seq<u8>, m: int)
    requires
        0 <= m <= c.len(),
    ensures
        num(c.take(m)) == num(c) / p256((c.len() - m) as nat),
    decreases c.len(),
{
    crate::range::lemma_p256_pos((c.len() - m) as nat);
    if m == c.len() {
        assert(c.take(m) =~= c);
        assert(p256(0) == 1);
    } else {
        let c1 = c.drop_last();
        lemma_num_take(c1, m);
        assert(c1.take(m) =~= c.take(m));
        let p = p256((c1.len() - m) as nat);
        crate::range::lemma_p256_pos((c1.len() - m) as nat);
        assert(p256((c.len() - m) as nat) == 256 * p);
        let n1 = num(c1);
        crate::range::lemma_num_bound(c1);
        assert(num(c) == n1 * 256 + c.last());
        // (n1 * 256 + b) / (256 p) == n1 / p
        vstd::arithmetic::div_mod::lemma_div_denominator(n1 * 256 + c.last(), 256, p);
        assert((n1 * 256 + c.last()) / 256 == n1) by {
            vstd::arithmetic::div_mod::lemma_fundamental_div_mod_converse(n1 * 256 + c.last(), 256, n1, c.last() as int);
        }
        crate::range::lemma_num_bound(c1);
    }
}

/// The prefix of a stream in an interval lies in the unscaled interval.
pub proof fn lemma_prefix_in(c: Seq<u8>, e: EncState)
    requires
        code_in(c, e),
    ensures
        low(e) <= num(c.take(e.bytes.len() + 4int)) < low(e) + e.len,
{
    let k = e.bytes.len();
    let r = (c.len() - k - 4) as nat;
    lemma_num_take(c, k + 4int);
    let p = p256(r);
    crate::range::lemma_p256_pos(r);
    let n = num(c);
    let q = n / p;
    vstd::arithmetic::div_mod::lemma_fundamental_div_mod(n, p);
    assert(q * p <= n < q * p + p);
    if q < low(e) {
        assert(q * p + p <= low(e) * p) by (nonlinear_arith)
            requires q + 1 <= low(e), p >= 1;
    }
    if q >= low(e) + e.len {
        assert(q * p >= (low(e) + e.len) * p) by (nonlinear_arith)
            requires q >= low(e) + e.len, p >= 1;
    }
}

/// A synchronised decoder's offset lies within the interval.
pub proof fn lemma_sync_value(d: DecState, e: EncState, c: Seq<u8>)
    requires
        dec_sync(d, e, c),
        code_in(c, e),
    ensures
        0 <= d.value < d.len,
        num(c.take(d.at)) >= low(e),
{
    let k = e.bytes.len();
    let r = (c.len() - k - 4) as nat;
    lemma_num_take(c, d.at);
    let p = p256(r);
    crate::range::lemma_p256_pos(r);
    let n = num(c);
    let q = n / p;
    assert(low(e) <= q < low(e) + e.len) by {
        vstd::arithmetic::div_mod::lemma_fundamental_div_mod(n, p);
        assert(low(e) * p <= n);
        assert(n < (low(e) + e.len) * p);
        assert(q * p <= n < q * p + p);
        if q < low(e) {
            assert(q * p + p <= low(e) * p) by (nonlinear_arith)
                requires q + 1 <= low(e), p >= 1;
        }
        if q >= low(e) + e.len {
            assert(q * p >= (low(e) + e.len) * p) by (nonlinear_arith)
                requires q >= low(e) + e.len, p >= 1;
        }
    }
}

/// A subinterval of the same width: the stream lies in it only if it lies
/// in the whole interval.
pub proof fn lemma_code_in_sub(c: Seq<u8>, e1: EncState, e2: EncState)
    requires
        code_in(c, e2),
        e2.bytes.len() == e1.bytes.len(),
        low(e1) <= low(e2),
        low(e2) + e2.len <= low(e1) + e1.len,
    ensures
        code_in(c, e1),
{
    let r = (c.len() - e1.bytes.len() - 4) as nat;
    let p = p256(r);
    crate::range::lemma_p256_pos(r);
    assert(low(e1) * p <= low(e2) * p) by (nonlinear_arith)
        requires low(e1) <= low(e2), p >= 1;
    assert((low(e2) + e2.len) * p <= (low(e1) + e1.len) * p) by (nonlinear_arith)
        requires low(e2) + e2.len <= low(e1) + e1.len, p >= 1;
}

/// A rescaled interval holds the same streams.
pub proof fn lemma_code_in_rescaled(c: Seq<u8>, e1: EncState, e2: EncState)
    requires
        code_in(c, e2),
        rescaled(e2, e1),
    ensures
        code_in(c, e1),
{
    let r = (e2.bytes.len() - e1.bytes.len()) as nat;
    let r2 = (c.len() - e2.bytes.len() - 4) as nat;
    let r1 = (c.len() - e1.bytes.len() - 4) as nat;
    assert(r1 == r + r2);
    crate::range::lemma_p256_add(r, r2);
    let pr = p256(r);
    let p2 = p256(r2);
    assert(low(e2) * p2 == low(e1) * p256(r1)) by (nonlinear_arith)
        requires low(e2) == low(e1) * pr, p256(r1) == pr * p2;
    assert((low(e2) + e2.len) * p2 == (low(e1) + e1.len) * p256(r1)) by (nonlinear_arith)
        requires low(e2) == low(e1) * pr, e2.len == e1.len * pr, p256(r1) == pr * p2;
}

/// The state before renormalisation after coding symbol `s`.
pub open spec fn put_mid(e: EncState, cdf: Seq<u32>, s: int) -> EncState {
    let scale = e.len / 32768;
    let x = cdf[s] * scale;
    let len = if s + 1 == cdf.len() { e.len - x } else { cdf[s + 1] * scale - x };
    EncState { len: len as u32, ..add_base(e, x) }
}

/// The state before renormalisation after coding raw bits.
pub open spec fn bits_mid(e: EncState, value: u32, bits: u32) -> EncState {
    let len = e.len as nat / vstd::arithmetic::power2::pow2(bits as nat);
    EncState { len: len as u32, ..add_base(e, value * len) }
}

/// Renormalising a synchronised decoder follows the encoder.
pub proof fn lemma_renorm_sync(d: DecState, e: EncState, c: Seq<u8>, fuel: nat)
    requires
        dec_sync(d, e, c),
        1 <= e.len < MIN,
        e.len * p256(fuel) >= MIN,
        fuel >= 1,
        code_in(c, renorm_fuel(e, fuel)),
    ensures
        dec_fill(d, c, fuel) matches Ok(d2) && dec_sync(d2, renorm_fuel(e, fuel), c),
    decreases fuel,
{
    crate::range::lemma_renorm_fuel(e, fuel);
    lemma_code_in_rescaled(c, e, renorm_fuel(e, fuel));
    lemma_sync_value(d, e, c);
    let e1 = shift_out(e);
    crate::range::lemma_shift_out(e);
    let at = d.at;
    assert(at < c.len());
    let b = c[at];
    let d1 = DecState { at: d.at + 1, value: ((d.value % 16777216) * 256 + b) as u32, len: (d.len * 256) as u32 };
    assert(c.take(at + 1) =~= c.take(at).push(b));
    crate::range::lemma_num_push(c.take(at), b);
    assert(d.value % 16777216 == d.value);
    assert(dec_sync(d1, e1, c));
    if e1.len >= MIN || fuel <= 1 {
        assert(dec_fill(d1, c, (fuel - 1) as nat) == Ok::<DecState, crate::types::Error>(d1));
    } else {
        assert(e1.len * p256((fuel - 1) as nat) >= MIN) by {
            assert(p256(fuel) == 256 * p256((fuel - 1) as nat));
            assert(e.len * p256(fuel) == e1.len * p256((fuel - 1) as nat)) by (nonlinear_arith)
                requires p256(fuel) == 256 * p256((fuel - 1) as nat), e1.len == e.len * 256;
        }
        lemma_renorm_sync(d1, e1, c, (fuel - 1) as nat);
    }
}

pub proof fn lemma_dec_renorm_sync(d: DecState, e: EncState, c: Seq<u8>)
    requires
        dec_sync(d, e, c),
        1 <= e.len,
        code_in(c, if e.len < MIN { renorm(e) } else { e }),
    ensures
        dec_renorm(d, c) matches Ok(d2) && dec_sync(d2, if e.len < MIN { renorm(e) } else { e }, c),
{
    if e.len < MIN {
        assert(p256(3) == 16777216) by {
            reveal_with_fuel(p256, 4);
        }
        lemma_renorm_sync(d, e, c, 3);
    }
}

/// The stream lies in the interval before a symbol if it lies in the one after.
pub proof fn lemma_put_back(c: Seq<u8>, e: EncState, cdf: Seq<u32>, s: int)
    requires
        enc_inv(e),
        cdf_ok(cdf),
        0 <= s < cdf.len(),
        code_in(c, enc_put(e, cdf, s)),
    ensures
        code_in(c, put_mid(e, cdf, s)),
        code_in(c, e),
{
    crate::range::lemma_put_part(e, cdf, s);
    let scale = e.len / 32768;
    let x = cdf[s] * scale;
    crate::range::lemma_add_base(e, x);
    let m = put_mid(e, cdf, s);
    if m.len < MIN {
        crate::range::lemma_renorm(m);
        lemma_code_in_rescaled(c, m, renorm(m));
    }
    lemma_code_in_sub(c, e, m);
}

/// The stream lies in the interval before raw bits if it lies in the one after.
pub proof fn lemma_bits_back(c: Seq<u8>, e: EncState, value: u32, bits: u32)
    requires
        enc_inv(e),
        1 <= bits <= 8,
        value < vstd::arithmetic::power2::pow2(bits as nat),
        code_in(c, enc_bits(e, value, bits)),
    ensures
        code_in(c, bits_mid(e, value, bits)),
        code_in(c, e),
{
    crate::range::lemma_bits_part(e, value, bits);
    let len = e.len as nat / vstd::arithmetic::power2::pow2(bits as nat);
    crate::range::lemma_add_base(e, value * len);
    let m = bits_mid(e, value, bits);
    if m.len < MIN {
        crate::range::lemma_renorm(m);
        lemma_code_in_rescaled(c, m, renorm(m));
    }
    lemma_code_in_sub(c, e, m);
}

/// A synchronised decoder decodes the symbol the encoder coded, and stays
/// synchronised.
pub proof fn lemma_get_sync(d: DecState, e: EncState, c: Seq<u8>, cdf: Seq<u32>, s: int)
    requires
        enc_inv(e),
        cdf_ok(cdf),
        0 <= s < cdf.len(),
        dec_sync(d, e, c),
        code_in(c, enc_put(e, cdf, s)),
    ensures
        dec_get(d, c, cdf) matches Ok((d2, s2)) && s2 == s && dec_sync(d2, enc_put(e, cdf, s), c),
{
    lemma_put_back(c, e, cdf, s);
    crate::range::lemma_put_part(e, cdf, s);
    let scale = e.len / 32768;
    let x = cdf[s] * scale;
    crate::range::lemma_add_base(e, x);
    let m = put_mid(e, cdf, s);
    lemma_sync_value(d, e, c);
    // The offset within the interval of the symbol.
    lemma_prefix_in(c, m);
    assert(low(m) == low(e) + x);
    assert(x <= d.value < x + m.len);
    let dm = DecState { at: d.at, value: (d.value - x) as u32, len: m.len };
    assert(dec_sync(dm, m, c));
    assert(scale >= 512);
    let dv = d.value / scale;
    if s + 1 < cdf.len() {
        assert(cdf[s] <= dv < cdf[s + 1]) by {
            assert(x + m.len == cdf[s + 1] * scale);
            assert(cdf[s] * scale <= d.value < cdf[s + 1] * scale);
            assert(cdf[s] <= dv) by (nonlinear_arith)
                requires cdf[s] * scale <= d.value, dv == d.value / scale, scale >= 1;
            assert(dv < cdf[s + 1]) by (nonlinear_arith)
                requires d.value < cdf[s + 1] * scale, dv == d.value / scale, scale >= 1;
        }
    } else {
        assert(cdf[s] <= dv) by (nonlinear_arith)
            requires cdf[s] * scale <= d.value, dv == d.value / scale, scale >= 1;
    }
    crate::range::lemma_search(cdf, dv as int, s);
    assert(search(cdf, dv as int) == s);
    let y = if s + 1 == cdf.len() { d.len as int } else { cdf[s + 1] * scale };
    assert(y - x == m.len);
    lemma_dec_renorm_sync(dm, m, c);
}

/// A synchronised decoder decodes the raw bits the encoder coded, and stays
/// synchronised.
#[verifier::spinoff_prover]
pub proof fn lemma_bits_sync(d: DecState, e: EncState, c: Seq<u8>, value: u32, bits: u32)
    requires
        enc_inv(e),
        1 <= bits <= 8,
        value < vstd::arithmetic::power2::pow2(bits as nat),
        dec_sync(d, e, c),
        code_in(c, enc_bits(e, value, bits)),
    ensures
        dec_bits(d, c, bits) matches Ok((d2, v2)) && v2 == value && dec_sync(d2, enc_bits(e, value, bits), c),
{
    lemma_bits_back(c, e, value, bits);
    crate::range::lemma_bits_part(e, value, bits);
    let p = vstd::arithmetic::power2::pow2(bits as nat);
    let len = e.len as nat / p;
    let x = value * len;
    crate::range::lemma_add_base(e, x);
    let m = bits_mid(e, value, bits);
    lemma_sync_value(d, e, c);
    lemma_prefix_in(c, m);
    assert(low(m) == low(e) + x);
    assert(x <= d.value < x + len);
    let dm = DecState { at: d.at, value: (d.value - x) as u32, len: m.len };
    assert(dec_sync(dm, m, c));
    assert(d.value as nat / len == value) by {
        vstd::arithmetic::div_mod::lemma_fundamental_div_mod_converse(d.value as int, len as int, value as int, d.value - x);
    }
    assert(len * value == value * len) by (nonlinear_arith);
    assert(dm == DecState { at: d.at, value: (d.value - len * value) as u32, len: len as u32 });
    lemma_dec_renorm_sync(dm, m, c);
}

/// The finished stream lies in the final interval.
pub proof fn lemma_finish(e: EncState)
    requires
        enc_inv(e),
    ensures
        code_in(enc_finish(e), e),
        enc_finish(e).len() <= e.bytes.len() + 5,
{
    lemma_finish_in(e);
}

proof fn lemma_finish_in(e: EncState)
    requires
        enc_inv(e),
    ensures
        code_in(enc_finish(e), e),
        enc_finish(e).len() <= e.bytes.len() + 5,
{
    let big = e.len > 2 * MIN;
    let x: int = if big { MIN as int } else { (MIN / 2) as int };
    let e1 = if big {
        EncState { len: MIN / 2, ..add_base(e, MIN as int) }
    } else {
        EncState { len: MIN / 512, ..add_base(e, (MIN / 2) as int) }
    };
    crate::range::lemma_add_base(e, x);
    assert(low(e1) == low(e) + x);
    crate::range::lemma_renorm(e1);
    let e2 = renorm(e1);
    let k = e.bytes.len();
    let r = (e2.bytes.len() - k) as nat;
    assert(r == if big { 1nat } else { 2nat }) by {
        reveal_with_fuel(renorm_fuel, 3);
        crate::range::lemma_shift_out(e1);
        if !big {
            crate::range::lemma_shift_out(shift_out(e1));
        }
    }
    let c = enc_finish(e);
    let b = e2.bytes;
    assert(c == b + seq![0u8, 0u8, 0u8]);
    assert(c =~= b.push(0).push(0).push(0));
    crate::range::lemma_num_push(b, 0);
    crate::range::lemma_num_push(b.push(0), 0);
    crate::range::lemma_num_push(b.push(0).push(0), 0);
    let q = num(b);
    assert(num(c) == q * 16777216);
    let pr = p256(r);
    let p = p256((r - 1) as nat);
    assert(pr == 256 * p);
    assert(p == if big { 1int } else { 256int }) by {
        reveal_with_fuel(p256, 3);
    }
    let l = low(e);
    let a = (l + x) * p;
    assert(low(e2) == (l + x) * pr);
    assert(low(e2) == a * 256) by (nonlinear_arith)
        requires low(e2) == (l + x) * pr, pr == 256 * p, a == (l + x) * p;
    assert(low(e2) == q * 0x1_0000_0000int + e2.base);
    assert(q * 16777216 <= a < q * 16777216 + 16777216) by (nonlinear_arith)
        requires q * 0x1_0000_0000int + e2.base == a * 256, 0 <= e2.base < 0x1_0000_0000int;
    assert(x * p >= 16777216);
    assert(l * p <= q * 16777216) by (nonlinear_arith)
        requires a == (l + x) * p, x * p >= 16777216, q * 16777216 + 16777216 > a;
    assert(x < e.len);
    assert(q * 16777216 < (l + e.len) * p) by (nonlinear_arith)
        requires a == (l + x) * p, q * 16777216 <= a, x < e.len, p >= 1;
    assert(c.len() == k + r + 3);
}

/// A decoder starting on a stream that lies in the interval of a fresh
/// encoder is synchronised with it.
pub proof fn lemma_start(c: Seq<u8>)
    requires
        code_in(c, enc_init()),
    ensures
        dec_new(c) matches Ok(d) && dec_sync(d, enc_init(), c),
{
    assert(c.take(4) =~= seq![c[0], c[1], c[2], c[3]]);
    reveal_with_fuel(num, 5);
    assert(seq![c[0], c[1], c[2], c[3]].drop_last() =~= seq![c[0], c[1], c[2]]);
    assert(seq![c[0], c[1], c[2]].drop_last() =~= seq![c[0], c[1]]);
    assert(seq![c[0], c[1]].drop_last() =~= seq![c[0]]);
    assert(seq![c[0]].drop_last() =~= Seq::<u8>::empty());
    assert(num(Seq::<u8>::empty()) == 0);
    assert(low(enc_init()) == 0);
}


// ---------------------------------------------------------------------------
// Coding steps with models

/// Every stream in the interval of `e2` lies in the interval of `e1`: the
/// encoder reached `e2` from `e1` by coding more symbols.
pub open spec fn narrows(e1: EncState, e2: EncState) -> bool {
    forall|c: Seq<u8>| #[trigger] code_in(c, e2) ==> code_in(c, e1)
}

pub proof fn lemma_narrows_trans(e1: EncState, e2: EncState, e3: EncState)
    requires
        narrows(e1, e2),
        narrows(e2, e3),
    ensures
        narrows(e1, e3),
{
    assert forall|c: Seq<u8>| #[trigger] code_in(c, e3) implies code_in(c, e1) by {
        assert(code_in(c, e2));
    }
}

/// A decoder in step with a coder: same models, synchronised range coders.
pub open spec fn csync(d: DCoder, c: Coder, bytes: Seq<u8>) -> bool {
    d.models == c.models && dec_sync(d.dec, c.enc, bytes)
}

/// Coding a symbol keeps the coder well formed and narrows its interval.
pub proof fn lemma_c_put_step(c: Coder, id: int, s: int)
    requires
        coder_wf(c),
        0 <= id < c.models.len(),
        0 <= s < c.models[id].counts.len(),
    ensures
        coder_wf(c_put(c, id, s)),
        c_put(c, id, s).models.len() == c.models.len(),
        forall|k: int| 0 <= k < c.models.len() ==> #[trigger] c_put(c, id, s).models[k].counts.len() == c.models[k].counts.len(),
        narrows(c.enc, c_put(c, id, s).enc),
{
    crate::range::lemma_c_put(c, id, s);
    assert(crate::range::model_wf(c.models[id]));
    assert forall|b: Seq<u8>| #[trigger] code_in(b, c_put(c, id, s).enc) implies code_in(b, c.enc) by {
        lemma_put_back(b, c.enc, c.models[id].cdf, s);
    }
}

/// Coding raw bits keeps the coder well formed and narrows its interval.
pub proof fn lemma_c_bits_step(c: Coder, v: u32, bits: u32)
    requires
        coder_wf(c),
        1 <= bits <= 8,
        v < vstd::arithmetic::power2::pow2(bits as nat),
    ensures
        coder_wf(c_bits(c, v, bits)),
        c_bits(c, v, bits).models == c.models,
        narrows(c.enc, c_bits(c, v, bits).enc),
{
    crate::range::lemma_c_bits(c, v, bits);
    assert forall|b: Seq<u8>| #[trigger] code_in(b, c_bits(c, v, bits).enc) implies code_in(b, c.enc) by {
        lemma_bits_back(b, c.enc, v, bits);
    }
}

/// A decoder in step decodes the symbol coded next.
pub proof fn lemma_d_get_sync(d: DCoder, c: Coder, bytes: Seq<u8>, id: int, s: int)
    requires
        coder_wf(c),
        0 <= id < c.models.len(),
        0 <= s < c.models[id].counts.len(),
        csync(d, c, bytes),
        code_in(bytes, c_put(c, id, s).enc),
    ensures
        d_get(d, bytes, id) matches Ok((d2, s2)) && s2 == s && csync(d2, c_put(c, id, s), bytes),
{
    assert(crate::range::model_wf(c.models[id]));
    lemma_get_sync(d.dec, c.enc, bytes, c.models[id].cdf, s);
}

/// A decoder in step decodes the raw bits coded next.
pub proof fn lemma_d_bits_sync(d: DCoder, c: Coder, bytes: Seq<u8>, v: u32, bits: u32)
    requires
        coder_wf(c),
        1 <= bits <= 8,
        v < vstd::arithmetic::power2::pow2(bits as nat),
        csync(d, c, bytes),
        code_in(bytes, c_bits(c, v, bits).enc),
    ensures
        d_bits(d, bytes, bits) matches Ok((d2, v2)) && v2 == v && csync(d2, c_bits(c, v, bits), bytes),
{
    lemma_bits_sync(d.dec, c.enc, bytes, v, bits);
}

// ---------------------------------------------------------------------------
// Replaying a sequence of coding steps

/// One coding step: a symbol under a model, or raw bits.
pub enum CodeOp {
    /// Symbol `s` under model `id`.
    Put(int, int),
    /// Value `v` as `b` raw bits.
    Bits(u32, u32),
}

pub open spec fn c_op(c: Coder, op: CodeOp) -> Coder {
    match op {
        CodeOp::Put(id, s) => c_put(c, id, s),
        CodeOp::Bits(v, b) => c_bits(c, v, b),
    }
}

/// The coder after the steps `ops`, in order.
pub open spec fn c_ops(c: Coder, ops: Seq<CodeOp>) -> Coder
    decreases ops.len(),
{
    if ops.len() == 0 {
        c
    } else {
        c_ops(c_op(c, ops[0]), ops.drop_first())
    }
}

/// Decode as many steps as `ops` holds, each under the model or with the
/// bit count of the step, collecting what they return.
pub open spec fn d_ops(d: DCoder, bytes: Seq<u8>, ops: Seq<CodeOp>) -> Result<(DCoder, Seq<int>)>
    decreases ops.len(),
{
    if ops.len() == 0 {
        Ok((d, Seq::empty()))
    } else {
        let step = match ops[0] {
            CodeOp::Put(id, _) => d_get(d, bytes, id),
            CodeOp::Bits(_, b) => match d_bits(d, bytes, b) {
                Ok((d1, v)) => Ok((d1, v as int)),
                Err(e) => Err(e),
            },
        };
        match step {
            Err(e) => Err(e),
            Ok((d1, x)) => match d_ops(d1, bytes, ops.drop_first()) {
                Err(e) => Err(e),
                Ok((d2, xs)) => Ok((d2, seq![x] + xs)),
            },
        }
    }
}

/// What the steps code.
pub open spec fn op_values(ops: Seq<CodeOp>) -> Seq<int>
    decreases ops.len(),
{
    if ops.len() == 0 {
        Seq::empty()
    } else {
        seq![
            match ops[0] {
                CodeOp::Put(_, s) => s,
                CodeOp::Bits(v, _) => v as int,
            },
        ] + op_values(ops.drop_first())
    }
}

/// Each step fits models whose symbol counts are `sizes`.
pub open spec fn ops_fit(sizes: Seq<int>, ops: Seq<CodeOp>) -> bool {
    forall|i: int|
        0 <= i < ops.len() ==> match #[trigger] ops[i] {
            CodeOp::Put(id, s) => 0 <= id < sizes.len() && 0 <= s < sizes[id],
            CodeOp::Bits(v, b) => 1 <= b <= 8 && v < vstd::arithmetic::power2::pow2(b as nat),
        }
}

/// The symbol counts of a bank of models.
pub open spec fn sizes_of(models: Seq<ModelView>) -> Seq<int> {
    Seq::new(models.len(), |i: int| models[i].counts.len() as int)
}

pub proof fn lemma_ops_ok(c: Coder, ops: Seq<CodeOp>)
    requires
        coder_wf(c),
        ops_fit(sizes_of(c.models), ops),
    ensures
        coder_wf(c_ops(c, ops)),
        sizes_of(c_ops(c, ops).models) == sizes_of(c.models),
        narrows(c.enc, c_ops(c, ops).enc),
    decreases ops.len(),
{
    if ops.len() > 0 {
        let c1 = c_op(c, ops[0]);
        match ops[0] {
            CodeOp::Put(id, s) => {
                lemma_c_put_step(c, id, s);
            },
            CodeOp::Bits(v, b) => {
                lemma_c_bits_step(c, v, b);
            },
        }
        assert(sizes_of(c1.models) =~= sizes_of(c.models));
        assert forall|i: int| 0 <= i < ops.drop_first().len() implies match #[trigger] ops.drop_first()[i] {
            CodeOp::Put(id, s) => 0 <= id < sizes_of(c1.models).len() && 0 <= s < sizes_of(c1.models)[id],
            CodeOp::Bits(v, b) => 1 <= b <= 8 && v < vstd::arithmetic::power2::pow2(b as nat),
        } by {
            assert(ops.drop_first()[i] == ops[i + 1]);
        }
        lemma_ops_ok(c1, ops.drop_first());
        lemma_narrows_trans(c.enc, c1.enc, c_ops(c, ops).enc);
    }
}

pub proof fn lemma_ops_sync(d: DCoder, c: Coder, bytes: Seq<u8>, ops: Seq<CodeOp>)
    requires
        coder_wf(c),
        ops_fit(sizes_of(c.models), ops),
        csync(d, c, bytes),
        code_in(bytes, c_ops(c, ops).enc),
    ensures
        d_ops(d, bytes, ops) matches Ok((d2, xs)) && xs == op_values(ops) && csync(d2, c_ops(c, ops), bytes),
    decreases ops.len(),
{
    if ops.len() > 0 {
        let c1 = c_op(c, ops[0]);
        match ops[0] {
            CodeOp::Put(id, s) => {
                lemma_c_put_step(c, id, s);
            },
            CodeOp::Bits(v, b) => {
                lemma_c_bits_step(c, v, b);
            },
        }
        assert(sizes_of(c1.models) =~= sizes_of(c.models));
        assert forall|i: int| 0 <= i < ops.drop_first().len() implies match #[trigger] ops.drop_first()[i] {
            CodeOp::Put(id, s) => 0 <= id < sizes_of(c1.models).len() && 0 <= s < sizes_of(c1.models)[id],
            CodeOp::Bits(v, b) => 1 <= b <= 8 && v < vstd::arithmetic::power2::pow2(b as nat),
        } by {
            assert(ops.drop_first()[i] == ops[i + 1]);
        }
        lemma_ops_ok(c1, ops.drop_first());
        assert(code_in(bytes, c1.enc));
        let d1 = match ops[0] {
            CodeOp::Put(id, s) => {
                lemma_d_get_sync(d, c, bytes, id, s);
                d_get(d, bytes, id)->Ok_0.0
            },
            CodeOp::Bits(v, b) => {
                lemma_d_bits_sync(d, c, bytes, v, b);
                d_bits(d, bytes, b)->Ok_0.0
            },
        };
        lemma_ops_sync(d1, c1, bytes, ops.drop_first());
    }
}

/// A decoder started on a finished stream replays any sequence of coding
/// steps on fresh copies of the encoder's models: it returns each coded
/// symbol and value in order, and ends with the encoder's models.
pub proof fn lemma_replay(models: Seq<ModelView>, ops: Seq<CodeOp>)
    requires
        crate::range::models_wf(models),
        ops_fit(sizes_of(models), ops),
    ensures
        ({
            let fin = c_ops(Coder { enc: enc_init(), models }, ops);
            let s = enc_finish(fin.enc);
            dec_new(s) matches Ok(d0) && d_ops(DCoder { dec: d0, models }, s, ops) matches Ok((d2, xs)) && xs == op_values(ops)
                && d2.models == fin.models
        }),
{
    let c0 = Coder { enc: enc_init(), models };
    assert(enc_inv(enc_init())) by {
        assert(p256(0) == 1);
        assert(num(Seq::<u8>::empty()) == 0);
    }
    lemma_ops_ok(c0, ops);
    let fin = c_ops(c0, ops);
    let s = enc_finish(fin.enc);
    lemma_finish(fin.enc);
    assert(code_in(s, enc_init()));
    lemma_start(s);
    let d0 = dec_new(s)->Ok_0;
    lemma_ops_sync(DCoder { dec: d0, models }, c0, s, ops);
}

} // verus!
