//! Adaptive frequency models and a carry-propagating range coder.
use vstd::prelude::*;
use crate::types::{Error, Result};

verus! {

/// Lower bound of the coding interval length after renormalisation.
pub const MIN: u32 = 0x0100_0000;

/// Upper bound of the running count total of a model.
pub const TOTAL_LIMIT: u32 = 32768;

// ---------------------------------------------------------------------------
// Sums of count sequences

/// Sum of a sequence of counts.
pub open spec fn sum(c: Seq<u32>) -> int
    decreases c.len(),
{
    if c.len() == 0 {
        0
    } else {
        sum(c.drop_last()) + c.last()
    }
}

/// Sum of the first `i` counts.
pub open spec fn prefix(c: Seq<u32>, i: int) -> int {
    sum(c.take(i))
}

/// Every count is at least one.
pub open spec fn all_positive(c: Seq<u32>) -> bool {
    forall|i: int| 0 <= i < c.len() ==> #[trigger] c[i] >= 1
}

pub proof fn lemma_prefix_step(c: Seq<u32>, i: int)
    requires
        0 <= i < c.len(),
    ensures
        prefix(c, i + 1) == prefix(c, i) + c[i],
{
    assert(c.take(i + 1).drop_last() =~= c.take(i));
}

pub proof fn lemma_prefix_full(c: Seq<u32>)
    ensures
        prefix(c, c.len() as int) == sum(c),
{
    assert(c.take(c.len() as int) =~= c);
}

/// Prefix sums of positive counts grow by at least one per element.
pub proof fn lemma_prefix_grows(c: Seq<u32>, i: int, j: int)
    requires
        all_positive(c),
        0 <= i <= j <= c.len(),
    ensures
        prefix(c, j) >= prefix(c, i) + (j - i),
    decreases j - i,
{
    if i < j {
        lemma_prefix_grows(c, i, j - 1);
        lemma_prefix_step(c, j - 1);
    }
}

pub proof fn lemma_prefix_nonneg(c: Seq<u32>, i: int)
    requires
        0 <= i <= c.len(),
    ensures
        0 <= prefix(c, i) <= sum(c),
    decreases c.len() - i,
{
    if i == c.len() {
        lemma_prefix_full(c);
        lemma_sum_nonneg(c);
    } else {
        lemma_prefix_nonneg(c, i + 1);
        lemma_prefix_step(c, i);
        lemma_sum_nonneg(c.take(i));
    }
}

pub proof fn lemma_sum_nonneg(c: Seq<u32>)
    ensures
        sum(c) >= 0,
    decreases c.len(),
{
    if c.len() > 0 {
        lemma_sum_nonneg(c.drop_last());
    }
}

pub proof fn lemma_sum_at_least_len(c: Seq<u32>)
    requires
        all_positive(c),
    ensures
        sum(c) >= c.len(),
{
    lemma_prefix_grows(c, 0, c.len() as int);
    lemma_prefix_full(c);
    assert(c.take(0) =~= Seq::<u32>::empty());
}

pub proof fn lemma_element_le_sum(c: Seq<u32>, i: int)
    requires
        0 <= i < c.len(),
    ensures
        c[i] <= sum(c),
{
    lemma_prefix_step(c, i);
    lemma_prefix_nonneg(c, i);
    lemma_prefix_nonneg(c, i + 1);
}

pub proof fn lemma_sum_increment(c: Seq<u32>, s: int, v: u32)
    requires
        0 <= s < c.len(),
    ensures
        sum(c.update(s, v)) == sum(c) - c[s] + v,
    decreases c.len(),
{
    if s == c.len() - 1 {
        assert(c.update(s, v).drop_last() =~= c.drop_last());
    } else {
        lemma_sum_increment(c.drop_last(), s, v);
        assert(c.update(s, v).drop_last() =~= c.drop_last().update(s, v));
    }
}

/// Counts halved with rounding up.
pub open spec fn halve(c: Seq<u32>) -> Seq<u32> {
    c.map_values(|x: u32| ((x as int + 1) / 2) as u32)
}

pub proof fn lemma_halve_sum(c: Seq<u32>)
    ensures
        2 * sum(halve(c)) <= sum(c) + c.len(),
        sum(halve(c)) <= sum(c),
        all_positive(c) ==> all_positive(halve(c)),
    decreases c.len(),
{
    if c.len() > 0 {
        lemma_halve_sum(c.drop_last());
        assert(halve(c).drop_last() =~= halve(c.drop_last()));
    }
}

// ---------------------------------------------------------------------------
// Models

/// The state of an adaptive frequency model.
pub struct ModelView {
    /// Cumulative frequencies, scaled to fifteen bits.
    pub cdf: Seq<u32>,
    /// Occurrence counts of each symbol.
    pub counts: Seq<u32>,
    /// Sum of the counts at the last rescale.
    pub total: u32,
    /// Symbols between rescales.
    pub cycle: u32,
    /// Symbols left before the next rescale.
    pub left: u32,
}

/// A valid cumulative frequency table: starts at zero, strictly increases
/// and stays below 2^15.
pub open spec fn cdf_ok(cdf: Seq<u32>) -> bool {
    &&& 1 <= cdf.len() <= 256
    &&& cdf[0] == 0
    &&& forall|i: int, j: int| 0 <= i < j < cdf.len() ==> cdf[i] < cdf[j]
    &&& cdf[cdf.len() - 1] < TOTAL_LIMIT
}

/// Largest cycle length of a model over `n` symbols.
pub open spec fn max_cycle(n: int) -> int {
    (n + 6) * 8
}

/// Cumulative frequencies of `counts` scaled so that `total` maps to 2^15.
pub open spec fn scaled_cdf(counts: Seq<u32>, total: int) -> Seq<u32> {
    Seq::new(counts.len(), |i: int| ((0x8000_0000int / total) * prefix(counts, i) / 65536) as u32)
}

/// Rescale step: fold in the last cycle, halve the counts when the total
/// grows past the limit, and recompute the cumulative frequencies.
pub open spec fn model_update(m: ModelView) -> ModelView {
    let t = m.total + m.cycle;
    let counts = if t > TOTAL_LIMIT { halve(m.counts) } else { m.counts };
    let total = if t > TOTAL_LIMIT { sum(halve(m.counts)) } else { t };
    let cycle = if (5 * m.cycle) / 4 < max_cycle(m.counts.len() as int) {
        (5 * m.cycle) / 4
    } else {
        max_cycle(m.counts.len() as int)
    };
    ModelView {
        cdf: scaled_cdf(counts, total),
        counts,
        total: total as u32,
        cycle: cycle as u32,
        left: cycle as u32,
    }
}

/// Count one occurrence of symbol `s`, rescaling at the end of a cycle.
pub open spec fn model_record(m: ModelView, s: int) -> ModelView {
    let m1 = ModelView {
        counts: m.counts.update(s, (m.counts[s] + 1) as u32),
        left: (m.left - 1) as u32,
        ..m
    };
    if m1.left == 0 {
        model_update(m1)
    } else {
        m1
    }
}

/// A fresh model over `n` symbols: every count is one.
pub open spec fn model_init(n: int) -> ModelView {
    let m0 = ModelView {
        cdf: Seq::new(n as nat, |i: int| 0u32),
        counts: Seq::new(n as nat, |i: int| 1u32),
        total: 0,
        cycle: n as u32,
        left: 0,
    };
    let m1 = model_update(m0);
    ModelView { cycle: ((n + 6) / 2) as u32, left: ((n + 6) / 2) as u32, ..m1 }
}

/// Invariant of a model between coding steps.
pub open spec fn model_wf(m: ModelView) -> bool {
    let n = m.counts.len();
    &&& 1 <= n <= 256
    &&& m.cdf.len() == n
    &&& cdf_ok(m.cdf)
    &&& all_positive(m.counts)
    &&& 1 <= m.left <= m.cycle <= max_cycle(n as int)
    &&& 1 <= m.total <= TOTAL_LIMIT
    &&& sum(m.counts) == m.total + m.cycle - m.left
}

/// What `model_update` needs: the last cycle is complete.
pub open spec fn update_ready(m: ModelView) -> bool {
    let n = m.counts.len();
    &&& 1 <= n <= 256
    &&& all_positive(m.counts)
    &&& m.total <= TOTAL_LIMIT
    &&& 1 <= m.cycle <= max_cycle(n as int)
    &&& sum(m.counts) == m.total + m.cycle
}

pub proof fn lemma_scaled_cdf_ok(counts: Seq<u32>, total: int)
    requires
        1 <= counts.len() <= 256,
        all_positive(counts),
        sum(counts) == total,
        1 <= total <= TOTAL_LIMIT,
    ensures
        cdf_ok(scaled_cdf(counts, total)),
{
    let n = counts.len() as int;
    let scale = 0x8000_0000int / total;
    let cdf = scaled_cdf(counts, total);
    assert(scale >= 65536) by (nonlinear_arith)
        requires scale == 0x8000_0000int / total, 1 <= total <= 32768;
    assert(scale * total <= 0x8000_0000int) by (nonlinear_arith)
        requires scale == 0x8000_0000int / total, 1 <= total;
    assert forall|i: int| 0 <= i < n implies 0 <= scale * prefix(counts, i) < 0x8000_0000int
        && #[trigger] cdf[i] as int == scale * prefix(counts, i) / 65536 by {
        lemma_prefix_nonneg(counts, i);
        lemma_prefix_grows(counts, i, n);
        lemma_prefix_full(counts);
        let p = prefix(counts, i);
        assert(0 <= scale * p < 0x8000_0000int) by (nonlinear_arith)
            requires 0 <= p < total, scale * total <= 0x8000_0000int, scale >= 0;
        assert(0 <= scale * p / 65536 < 32768) by (nonlinear_arith)
            requires 0 <= scale * p < 0x8000_0000int;
    }
    assert(counts.take(0) =~= Seq::<u32>::empty());
    assert(cdf[0] == 0);
    assert forall|i: int, j: int| 0 <= i < j < n implies cdf[i] < cdf[j] by {
        lemma_prefix_grows(counts, i, j);
        lemma_prefix_nonneg(counts, i);
        let pi = prefix(counts, i);
        let pj = prefix(counts, j);
        assert(scale * pi / 65536 < scale * pj / 65536) by (nonlinear_arith)
            requires pj >= pi + 1, scale >= 65536, pi >= 0;
    }
}

pub proof fn lemma_update_wf(m: ModelView)
    requires
        update_ready(m),
    ensures
        model_wf(model_update(m)),
        model_update(m).counts.len() == m.counts.len(),
{
    let n = m.counts.len() as int;
    let t = m.total + m.cycle;
    lemma_sum_at_least_len(m.counts);
    if t > TOTAL_LIMIT {
        lemma_halve_sum(m.counts);
        lemma_sum_at_least_len(halve(m.counts));
        lemma_scaled_cdf_ok(halve(m.counts), sum(halve(m.counts)));
    } else {
        lemma_scaled_cdf_ok(m.counts, t);
    }
}

pub proof fn lemma_record_wf(m: ModelView, s: int)
    requires
        model_wf(m),
        0 <= s < m.counts.len(),
    ensures
        model_wf(model_record(m, s)),
        model_record(m, s).counts.len() == m.counts.len(),
{
    let c1 = m.counts.update(s, (m.counts[s] + 1) as u32);
    lemma_element_le_sum(m.counts, s);
    lemma_sum_increment(m.counts, s, (m.counts[s] + 1) as u32);
    let m1 = ModelView { counts: c1, left: (m.left - 1) as u32, ..m };
    if m1.left == 0 {
        lemma_update_wf(m1);
    }
}

pub proof fn lemma_record_len(m: ModelView, s: int)
    requires
        0 <= s < m.counts.len(),
    ensures
        model_record(m, s).counts.len() == m.counts.len(),
{
}

/// Coding a symbol counts it once. Within a cycle nothing else changes;
/// at the end of a cycle the counts are halved (rounding up) once their
/// sum would pass 2^15, the cumulative frequencies are rescaled so that the
/// sum maps to 2^15, and the next cycle is a quarter longer, up to eight
/// times the symbol count plus 48.
pub proof fn lemma_record_law(m: ModelView, s: int)
    requires
        model_wf(m),
        0 <= s < m.counts.len(),
    ensures
        ({
            let r = model_record(m, s);
            let n = m.counts.len() as int;
            let c = m.counts.update(s, (m.counts[s] + 1) as u32);
            &&& r.counts.len() == n
            &&& m.left > 1 ==> r == (ModelView { counts: c, left: (m.left - 1) as u32, ..m })
            &&& m.left == 1 ==> {
                &&& r.left == r.cycle
                &&& m.cycle <= r.cycle <= 8 * n + 48
                &&& (r.cycle == 8 * n + 48 || (4 * r.cycle <= 5 * m.cycle && 5 * m.cycle < 4 * r.cycle + 4))
                &&& 4 * r.cycle <= 5 * m.cycle
                &&& sum(c) <= 32768 ==> r.counts == c && r.total == sum(c)
                &&& sum(c) > 32768 ==> r.total == sum(r.counts) && forall|i: int|
                    0 <= i < n ==> 2 * #[trigger] r.counts[i] == c[i] || 2 * r.counts[i] == c[i] + 1
                &&& r.cdf.len() == n
                &&& forall|i: int|
                    0 <= i < n ==> 65536 * #[trigger] r.cdf[i] <= (0x8000_0000int / r.total as int) * prefix(r.counts, i) < 65536 * (
                    r.cdf[i] + 1)
            }
        }),
{
    lemma_record_wf(m, s);
    let c = m.counts.update(s, (m.counts[s] + 1) as u32);
    lemma_element_le_sum(m.counts, s);
    lemma_sum_increment(m.counts, s, (m.counts[s] + 1) as u32);
    if m.left == 1 {
        let m1 = ModelView { counts: c, left: 0, ..m };
        assert(sum(c) == m.total + m.cycle);
        let r = model_record(m, s);
        lemma_sum_at_least_len(c);
        if sum(c) > 32768 {
            lemma_halve_sum(c);
            lemma_sum_at_least_len(halve(c));
        }
        assert(r.total >= 1);
        let n = m.counts.len() as int;
        assert forall|i: int| 0 <= i < n implies 65536 * #[trigger] r.cdf[i] <= (0x8000_0000int / r.total as int) * prefix(
            r.counts,
            i,
        ) < 65536 * (r.cdf[i] + 1) by {
            let t = r.total as int;
            let f = 0x8000_0000int / t;
            let pi = prefix(r.counts, i);
            let q = f * pi;
            lemma_prefix_nonneg(r.counts, i);
            lemma_prefix_grows(r.counts, i, n);
            lemma_prefix_full(r.counts);
            assert(pi <= t);
            vstd::arithmetic::div_mod::lemma_fundamental_div_mod(0x8000_0000int, t);
            vstd::arithmetic::div_mod::lemma_div_pos_is_pos(0x8000_0000int, t);
            assert(0 <= f * t <= 0x8000_0000int) by (nonlinear_arith)
                requires 0x8000_0000int == t * f + 0x8000_0000int % t, 0 <= 0x8000_0000int % t, f >= 0, t >= 1;
            assert(0 <= q <= f * t) by (nonlinear_arith)
                requires q == f * pi, 0 <= f, 0 <= pi <= t;
            vstd::arithmetic::div_mod::lemma_fundamental_div_mod(q, 65536);
            assert(r.cdf[i] == (q / 65536) as u32);
        }
    }
}

pub proof fn lemma_init_wf(n: int)
    requires
        1 <= n <= 256,
    ensures
        model_wf(model_init(n)),
        model_init(n).counts.len() == n,
{
    let m0 = ModelView {
        cdf: Seq::new(n as nat, |i: int| 0u32),
        counts: Seq::new(n as nat, |i: int| 1u32),
        total: 0,
        cycle: n as u32,
        left: 0,
    };
    lemma_sum_ones(n);
    lemma_update_wf(m0);
}

/// A fresh model over `n` symbols counts each symbol once, gives each the
/// same share of 2^15 (rounded down), and rescales first after (n + 6) / 2
/// symbols.
pub proof fn lemma_init_law(n: int)
    requires
        1 <= n <= 256,
    ensures
        ({
            let m = model_init(n);
            &&& m.counts.len() == n
            &&& forall|i: int| 0 <= i < n ==> #[trigger] m.counts[i] == 1
            &&& m.total == n
            &&& m.cycle == (n + 6) / 2 && m.left == m.cycle
            &&& m.cdf.len() == n
            &&& forall|i: int| 0 <= i < n ==> 65536 * #[trigger] m.cdf[i] <= (0x8000_0000int / n) * i < 65536 * (m.cdf[i] + 1)
        }),
{
    lemma_init_wf(n);
    let ones = Seq::new(n as nat, |i: int| 1u32);
    lemma_sum_ones(n);
    let m = model_init(n);
    assert forall|i: int| 0 <= i < n implies 65536 * #[trigger] m.cdf[i] <= (0x8000_0000int / n) * i < 65536 * (m.cdf[i]
        + 1) by {
        lemma_sum_ones(i);
        assert(ones.take(i) =~= Seq::new(i as nat, |k: int| 1u32));
        let f = 0x8000_0000int / n;
        let q = f * i;
        vstd::arithmetic::div_mod::lemma_fundamental_div_mod(0x8000_0000int, n);
        assert(0 <= q <= 0x8000_0000int) by (nonlinear_arith)
            requires q == f * i, 0x8000_0000int == n * f + 0x8000_0000int % n, 0 <= 0x8000_0000int % n, f >= 0, 0 <= i < n;
        vstd::arithmetic::div_mod::lemma_fundamental_div_mod(q, 65536);
    }
}

pub proof fn lemma_sum_ones(n: int)
    requires
        0 <= n,
    ensures
        sum(Seq::new(n as nat, |i: int| 1u32)) == n,
    decreases n,
{
    if n > 0 {
        lemma_sum_ones(n - 1);
        assert(Seq::new(n as nat, |i: int| 1u32).drop_last() =~= Seq::new((n - 1) as nat, |i: int| 1u32));
    }
}

/// Decoder lookup table: entry `t` is the largest symbol whose frequency
/// bucket lies below `t`, so that a search for a value in bucket `t` may
/// start at entry `t` and stop before entry `t + 1` plus one.
pub open spec fn lookup_ok(lookup: Seq<usize>, cdf: Seq<u32>, granule: u32) -> bool {
    let n = cdf.len();
    &&& lookup.len() >= 2
    &&& lookup[0] == 0
    &&& forall|t: int| 1 <= t < lookup.len() ==> {
        let r = #[trigger] lookup[t] as int;
        &&& 0 <= r < n
        &&& cdf[r] / granule < t
        &&& (r + 1 == n || cdf[r + 1] / granule >= t)
    }
}

/// An adaptive frequency model over up to 256 symbols.
pub struct Model {
    cdf: Vec<u32>,
    counts: Vec<u32>,
    lookup: Vec<usize>,
    granule: u32,
    total: u32,
    cycle: u32,
    left: u32,
}

/// Lookup table size exponent for a decoding model over `n` symbols.
pub open spec fn lookup_bits(n: int) -> int {
    if n > 128 {
        6
    } else if n > 64 {
        5
    } else if n > 32 {
        4
    } else if n > 16 {
        3
    } else {
        0
    }
}

impl Model {
    pub closed spec fn view(&self) -> ModelView {
        ModelView {
            cdf: self.cdf@,
            counts: self.counts@,
            total: self.total,
            cycle: self.cycle,
            left: self.left,
        }
    }

    /// The decoder lookup table; empty for a model that only encodes.
    pub closed spec fn table(&self) -> Seq<usize> {
        self.lookup@
    }

    /// Width of the frequency buckets that the lookup table indexes.
    pub closed spec fn bucket_width(&self) -> u32 {
        self.granule
    }

    /// Number of symbols of the model.
    pub closed spec fn symbols(&self) -> int {
        self.counts@.len() as int
    }

    pub closed spec fn inv(&self) -> bool {
        &&& model_wf(self.view())
        &&& (self.lookup@.len() == 0 || lookup_ok(self.lookup@, self.cdf@, self.granule))
        &&& self.lookup@.len() != 0 ==> {
            let b = lookup_bits(self.cdf@.len() as int);
            &&& 3 <= b <= 6
            &&& self.lookup@.len() == vstd::arithmetic::power2::pow2(b as nat) + 2
            &&& self.granule as int * vstd::arithmetic::power2::pow2(b as nat) == 32768
        }
    }

    /// A valid model is well formed, and its lookup table, when it has one,
    /// holds for each frequency bucket the largest symbol below it.
    pub proof fn lemma_inv(&self)
        requires
            self.inv(),
        ensures
            model_wf(self.view()),
            self.symbols() == self.view().counts.len(),
            self.table().len() != 0 ==> lookup_ok(self.table(), self.view().cdf, self.bucket_width())
                && self.table().len() == vstd::arithmetic::power2::pow2(lookup_bits(self.symbols()) as nat) + 2
                && self.bucket_width() as int * vstd::arithmetic::power2::pow2(lookup_bits(self.symbols()) as nat) == 32768,
    {
    }

    /// A fresh model over `n` symbols. Decoding models also build a lookup
    /// table that narrows the symbol search.
    pub(crate) fn new(n: usize, decode: bool) -> (m: Self)
        requires
            1 <= n <= 256,
        ensures
            m.inv(),
            m.view() == model_init(n as int),
            m.symbols() == n,
            m.table().len() == if decode && n > 16 { vstd::arithmetic::power2::pow2(lookup_bits(n as int) as nat) + 2 } else { 0 },
            decode && n > 16 ==> lookup_ok(m.table(), m.view().cdf, m.bucket_width()),
            m.bucket_width() as int * vstd::arithmetic::power2::pow2(lookup_bits(n as int) as nat) == 32768,
    {
        let bits: u32 = if n > 128 {
            6
        } else if n > 64 {
            5
        } else if n > 32 {
            4
        } else if n > 16 {
            3
        } else {
            0
        };
        let (lookup_len, granule): (usize, u32) = if bits == 6 {
            (66, 512)
        } else if bits == 5 {
            (34, 1024)
        } else if bits == 4 {
            (18, 2048)
        } else if bits == 3 {
            (10, 4096)
        } else {
            (0, 32768)
        };
        let lookup: Vec<usize> = if decode && bits > 0 {
            vec![0; lookup_len]
        } else {
            Vec::new()
        };
        let mut m = Model {
            cdf: vec![0; n],
            counts: vec![1; n],
            lookup,
            granule,
            total: 0,
            cycle: n as u32,
            left: 0,
        };
        proof {
            vstd::arithmetic::power2::lemma2_to64();
            assert(m.counts@ =~= Seq::new(n as nat, |i: int| 1u32));
            assert(m.cdf@ =~= Seq::new(n as nat, |i: int| 0u32));
            lemma_sum_ones(n as int);
            assert(bits as int == lookup_bits(n as int));
            assert(m.lookup@.len() == if decode && bits > 0 { lookup_len as int } else { 0 });
            if bits > 0 {
                assert(lookup_len as int == vstd::arithmetic::power2::pow2(bits as nat) + 2);
                assert(granule as int * vstd::arithmetic::power2::pow2(bits as nat) == 32768);
            }
        }
        m.update();
        m.cycle = (n as u32 + 6) / 2;
        m.left = m.cycle;
        proof {
            lemma_init_wf(n as int);
        }
        m
    }

    fn update(&mut self)
        requires
            update_ready(old(self).view()),
            old(self).cdf@.len() == old(self).counts@.len(),
            old(self).lookup@.len() != 0 ==> {
                let b = lookup_bits(old(self).cdf@.len() as int);
                &&& 3 <= b <= 6
                &&& old(self).lookup@.len() == vstd::arithmetic::power2::pow2(b as nat) + 2
                &&& old(self).granule as int * vstd::arithmetic::power2::pow2(b as nat) == 32768
            },
        ensures
            final(self).view() == model_update(old(self).view()),
            final(self).inv(),
            final(self).lookup@.len() == old(self).lookup@.len(),
            final(self).granule == old(self).granule,
    {
        let ghost m = self.view();
        let ghost n = self.counts@.len() as int;
        proof {
            lemma_update_wf(m);
            lemma_sum_at_least_len(m.counts);
        }
        self.total = self.total + self.cycle;
        if self.total > TOTAL_LIMIT {
            let ghost old_counts = self.counts@;
            proof {
                lemma_halve_sum(old_counts);
            }
            self.total = 0;
            let mut i: usize = 0;
            while i < self.counts.len()
                invariant
                    0 <= i <= self.counts@.len(),
                    self.counts@.len() == old_counts.len(),
                    n == old_counts.len(),
                    self.cdf@ == old(self).cdf@,
                    self.lookup@ == old(self).lookup@,
                    self.granule == old(self).granule,
                    self.cycle == old(self).cycle,
                    sum(old_counts) <= TOTAL_LIMIT + 2096,
                    forall|j: int| 0 <= j < i ==> #[trigger] self.counts@[j] == halve(old_counts)[j],
                    forall|j: int| i <= j < n ==> #[trigger] self.counts@[j] == old_counts[j],
                    self.total as int == prefix(halve(old_counts), i as int),
                decreases n - i,
            {
                let c = self.counts[i];
                proof {
                    lemma_prefix_step(halve(old_counts), i as int);
                    lemma_prefix_nonneg(halve(old_counts), i as int + 1);
                    lemma_halve_sum(old_counts);
                }
                let h = (c + 1) / 2;
                self.counts.set(i, h);
                self.total = self.total + h;
                i = i + 1;
            }
            proof {
                assert(self.counts@ =~= halve(old_counts));
                lemma_prefix_full(halve(old_counts));
            }
        }
        let ghost counts = self.counts@;
        let ghost total = self.total as int;
        proof {
            lemma_sum_at_least_len(counts);
            if m.total + m.cycle > TOTAL_LIMIT {
                lemma_halve_sum(m.counts);
                lemma_sum_at_least_len(halve(m.counts));
            }
        }
        assert(total <= TOTAL_LIMIT);
        let scale = 0x8000_0000u32 / self.total;
        proof {
            assert(scale as int * total <= 0x8000_0000int) by (nonlinear_arith)
                requires scale == 0x8000_0000int / total, 1 <= total;
        }
        let mut sum_so_far: u32 = 0;
        let mut i: usize = 0;
        while i < self.cdf.len()
            invariant
                0 <= i <= n,
                self.cdf@.len() == n,
                self.counts@ == counts,
                self.lookup@ == old(self).lookup@,
                self.granule == old(self).granule,
                self.cycle == old(self).cycle,
                counts.len() == n,
                self.total as int == total,
                total <= TOTAL_LIMIT,
                scale as int == 0x8000_0000int / total,
                scale as int * total <= 0x8000_0000int,
                1 <= total,
                sum(counts) == total,
                sum_so_far as int == prefix(counts, i as int),
                forall|j: int| 0 <= j < i ==> #[trigger] self.cdf@[j] == scaled_cdf(counts, total)[j],
            decreases n - i,
        {
            proof {
                lemma_prefix_nonneg(counts, i as int);
                lemma_prefix_step(counts, i as int);
                lemma_prefix_nonneg(counts, i as int + 1);
            }
            let p = sum_so_far;
            assert(scale as int * p as int <= 0x8000_0000int) by (nonlinear_arith)
                requires scale as int * total <= 0x8000_0000int, 0 <= p <= total, scale >= 0;
            let v = scale * p / 65536;
            self.cdf.set(i, v);
            sum_so_far = sum_so_far + self.counts[i];
            i = i + 1;
        }
        proof {
            assert(self.cdf@ =~= scaled_cdf(counts, total));
            assert(cdf_ok(self.cdf@));
        }
        if self.lookup.len() != 0 {
            self.fill_lookup();
        }
        let grown = (5 * self.cycle) / 4;
        let limit = (self.counts.len() as u32 + 6) * 8;
        self.cycle = if grown < limit { grown } else { limit };
        self.left = self.cycle;
        proof {
            let u = model_update(m);
            assert(self.counts@ == u.counts);
            assert(self.total == u.total);
            assert(self.cdf@ == u.cdf);
            assert(self.cycle == u.cycle);
            assert(self.view() =~= model_update(m));
        }
    }

    fn fill_lookup(&mut self)
        requires
            cdf_ok(old(self).cdf@),
            old(self).lookup@.len() != 0,
            ({
                let b = lookup_bits(old(self).cdf@.len() as int);
                &&& 3 <= b <= 6
                &&& old(self).lookup@.len() == vstd::arithmetic::power2::pow2(b as nat) + 2
                &&& old(self).granule as int * vstd::arithmetic::power2::pow2(b as nat) == 32768
            }),
        ensures
            final(self).cdf@ == old(self).cdf@,
            final(self).counts@ == old(self).counts@,
            final(self).total == old(self).total,
            final(self).cycle == old(self).cycle,
            final(self).left == old(self).left,
            final(self).granule == old(self).granule,
            final(self).lookup@.len() == old(self).lookup@.len(),
            lookup_ok(final(self).lookup@, final(self).cdf@, final(self).granule),
    {
        let ghost cdf = self.cdf@;
        let n = self.cdf.len();
        let len = self.lookup.len();
        let g = self.granule;
        let ghost b = lookup_bits(n as int);
        let ghost p = vstd::arithmetic::power2::pow2(b as nat);
        proof {
            vstd::arithmetic::power2::lemma2_to64();
            assert(p <= 64) by {
                if b == 6 {
                    assert(p == 64);
                } else if b == 5 {
                    assert(p == 32);
                } else if b == 4 {
                    assert(p == 16);
                } else {
                    assert(p == 8);
                }
            }
            assert(g >= 512) by (nonlinear_arith)
                requires g * p == 32768, p <= 64, p >= 1;
        }
        let mut at: usize = 0;
        let mut i: usize = 0;
        while i < n
            invariant
                0 <= i <= n,
                n == cdf.len(),
                cdf_ok(cdf),
                self.cdf@ == cdf,
                self.counts@ == old(self).counts@,
                self.total == old(self).total,
                self.cycle == old(self).cycle,
                self.left == old(self).left,
                self.granule == g,
                g == old(self).granule,
                self.lookup@.len() == len,
                len == p + 2,
                g as int * p == 32768,
                g >= 1,
                at as int == if i == 0 { 0 } else { cdf[i - 1] / g },
                at < len - 1,
                forall|t: int| 1 <= t <= at ==> {
                    let r = #[trigger] self.lookup@[t] as int;
                    &&& 0 <= r < n
                    &&& cdf[r] / g < t
                    &&& (r + 1 == n || cdf[r + 1] / g >= t)
                },
            decreases n - i,
        {
            let end = (self.cdf[i] / g) as usize;
            proof {
                assert(end < p) by (nonlinear_arith)
                    requires end == cdf[i as int] / g, cdf[i as int] < 32768, g * p == 32768, g >= 1;
                if i > 0 {
                    assert(cdf[i - 1] / g <= cdf[i as int] / g) by (nonlinear_arith)
                        requires cdf[i - 1] < cdf[i as int], g >= 1;
                }
            }
            let ghost at0 = at;
            while at < end
                invariant
                    at0 <= at <= end,
                    end < p,
                    i < n,
                    n == cdf.len(),
                    cdf_ok(cdf),
                    self.cdf@ == cdf,
                    self.counts@ == old(self).counts@,
                    self.total == old(self).total,
                    self.cycle == old(self).cycle,
                    self.left == old(self).left,
                    self.granule == g,
                    g == old(self).granule,
                    self.lookup@.len() == len,
                    len == p + 2,
                    end as int == cdf[i as int] / g,
                    at0 as int == if i == 0 { 0 } else { cdf[i - 1] / g },
                    g >= 1,
                    forall|t: int| 1 <= t <= at ==> {
                        let r = #[trigger] self.lookup@[t] as int;
                        &&& 0 <= r < n
                        &&& cdf[r] / g < t
                        &&& (r + 1 == n || cdf[r + 1] / g >= t)
                    },
                decreases end - at,
            {
                at = at + 1;
                let r = if i > 0 { i - 1 } else { 0 };
                proof {
                    assert(i > 0) by {
                        if i == 0 {
                            assert(cdf[0] == 0);
                        }
                    }
                    let tt = at as int;
                    assert(cdf[r as int] / g < tt);
                    assert(cdf[r + 1] / g >= tt);
                }
                self.lookup.set(at, r);
            }
            i = i + 1;
        }
        self.lookup.set(0, 0);
        while at + 1 < len
            invariant
                1 <= n,
                n == cdf.len(),
                cdf_ok(cdf),
                self.cdf@ == cdf,
                self.counts@ == old(self).counts@,
                self.total == old(self).total,
                self.cycle == old(self).cycle,
                self.left == old(self).left,
                self.granule == g,
                g == old(self).granule,
                self.lookup@.len() == len,
                at < len,
                self.lookup@[0] == 0,
                cdf[n - 1] / g <= at,
                forall|t: int| 1 <= t <= at ==> {
                    let r = #[trigger] self.lookup@[t] as int;
                    &&& 0 <= r < n
                    &&& cdf[r] / g < t
                    &&& (r + 1 == n || cdf[r + 1] / g >= t)
                },
            decreases len - at,
        {
            at = at + 1;
            self.lookup.set(at, n - 1);
        }
    }
}


impl Model {
    /// Count one occurrence of symbol `s`.
    fn record(&mut self, s: usize)
        requires
            old(self).inv(),
            s < old(self).symbols(),
        ensures
            final(self).inv(),
            final(self).view() == model_record(old(self).view(), s as int),
            final(self).symbols() == old(self).symbols(),
            final(self).lookup@.len() == old(self).lookup@.len(),
            final(self).granule == old(self).granule,
    {
        let ghost m = self.view();
        proof {
            lemma_element_le_sum(m.counts, s as int);
            lemma_sum_increment(m.counts, s as int, (m.counts[s as int] + 1) as u32);
            lemma_record_wf(m, s as int);
        }
        let c = self.counts[s];
        self.counts.set(s, c + 1);
        self.left = self.left - 1;
        if self.left == 0 {
            self.update();
        }
        proof {
            assert(self.view() =~= model_record(m, s as int));
        }
    }
}

// ---------------------------------------------------------------------------
// Range encoder

/// 256 to the power `n`.
pub open spec fn p256(n: nat) -> int
    decreases n,
{
    if n == 0 {
        1
    } else {
        256 * p256((n - 1) as nat)
    }
}

/// Big-endian value of a byte string.
pub open spec fn num(b: Seq<u8>) -> int
    decreases b.len(),
{
    if b.len() == 0 {
        0
    } else {
        num(b.drop_last()) * 256 + b.last()
    }
}

/// Add one to a big-endian byte string, propagating the carry.
pub open spec fn carry_seq(b: Seq<u8>) -> Seq<u8>
    decreases b.len(),
{
    if b.len() == 0 {
        b
    } else if b.last() == 255 {
        carry_seq(b.drop_last()).push(0)
    } else {
        b.drop_last().push((b.last() + 1) as u8)
    }
}

/// The state of the range encoder: the bytes emitted so far, the low end
/// of the coding interval below them, and the interval length.
pub struct EncState {
    pub bytes: Seq<u8>,
    pub base: u32,
    pub len: u32,
}

/// Low end of the coding interval, as a number of `bytes.len() + 4` bytes.
pub open spec fn low(e: EncState) -> int {
    num(e.bytes) * 0x1_0000_0000int + e.base
}

/// The coding interval lies within the numbers of its width and is not
/// shorter than the renormalisation bound.
pub open spec fn enc_inv(e: EncState) -> bool {
    &&& MIN <= e.len
    &&& low(e) + e.len <= p256(e.bytes.len()) * 0x1_0000_0000int
}

/// Move the top byte of the interval out to the emitted bytes.
pub open spec fn shift_out(e: EncState) -> EncState {
    EncState {
        bytes: e.bytes.push((e.base / 16777216) as u8),
        base: ((e.base % 16777216) * 256) as u32,
        len: (e.len * 256) as u32,
    }
}

/// Shift out bytes until the interval length reaches `MIN`; at least one.
pub open spec fn renorm_fuel(e: EncState, fuel: nat) -> EncState
    decreases fuel,
{
    let e1 = shift_out(e);
    if e1.len >= MIN || fuel <= 1 {
        e1
    } else {
        renorm_fuel(e1, (fuel - 1) as nat)
    }
}

pub open spec fn renorm(e: EncState) -> EncState {
    renorm_fuel(e, 3)
}

/// Raise the low end by `x`, carrying into the emitted bytes on overflow.
pub open spec fn add_base(e: EncState, x: int) -> EncState {
    if e.base + x > u32::MAX {
        EncState { bytes: carry_seq(e.bytes), base: (e.base + x - 0x1_0000_0000int) as u32, len: e.len }
    } else {
        EncState { bytes: e.bytes, base: (e.base + x) as u32, len: e.len }
    }
}

/// Narrow the interval to the part of symbol `s` under the frequencies `cdf`.
pub open spec fn enc_put(e: EncState, cdf: Seq<u32>, s: int) -> EncState {
    let scale = e.len / 32768;
    let x = cdf[s] * scale;
    let len = if s + 1 == cdf.len() { e.len - x } else { cdf[s + 1] * scale - x };
    let e1 = EncState { len: len as u32, ..add_base(e, x) };
    if e1.len < MIN { renorm(e1) } else { e1 }
}

/// Narrow the interval to the part of `value` among `2^bits` equal parts.
pub open spec fn enc_bits(e: EncState, value: u32, bits: u32) -> EncState {
    let len = e.len as nat / vstd::arithmetic::power2::pow2(bits as nat);
    let e1 = EncState { len: len as u32, ..add_base(e, value * len) };
    if e1.len < MIN { renorm(e1) } else { e1 }
}

/// Close the interval and emit the final bytes, followed by three bytes of
/// decoder lookahead.
pub open spec fn enc_finish(e: EncState) -> Seq<u8> {
    let e1 = if e.len > 2 * MIN {
        EncState { len: MIN / 2, ..add_base(e, MIN as int) }
    } else {
        EncState { len: MIN / 512, ..add_base(e, (MIN / 2) as int) }
    };
    renorm(e1).bytes + seq![0u8, 0u8, 0u8]
}

/// The initial encoder state.
pub open spec fn enc_init() -> EncState {
    EncState { bytes: Seq::empty(), base: 0, len: u32::MAX }
}

pub proof fn lemma_p256_pos(n: nat)
    ensures
        p256(n) >= 1,
    decreases n,
{
    if n > 0 {
        lemma_p256_pos((n - 1) as nat);
    }
}

pub proof fn lemma_num_bound(b: Seq<u8>)
    ensures
        0 <= num(b) < p256(b.len()),
    decreases b.len(),
{
    if b.len() > 0 {
        lemma_num_bound(b.drop_last());
        let n0 = num(b.drop_last());
        let p0 = p256((b.len() - 1) as nat);
        assert(n0 * 256 + b.last() < p0 * 256) by (nonlinear_arith)
            requires 0 <= n0 < p0, 0 <= b.last() < 256;
    }
}

pub proof fn lemma_num_push(b: Seq<u8>, x: u8)
    ensures
        num(b.push(x)) == num(b) * 256 + x,
{
    assert(b.push(x).drop_last() =~= b);
}

/// Carrying adds one, unless every byte is already 255.
pub proof fn lemma_carry(b: Seq<u8>)
    requires
        num(b) + 1 < p256(b.len()),
    ensures
        num(carry_seq(b)) == num(b) + 1,
        carry_seq(b).len() == b.len(),
    decreases b.len(),
{
    if b.len() == 0 {
    } else {
        let p0 = p256((b.len() - 1) as nat);
        let n0 = num(b.drop_last());
        if b.last() == 255 {
            assert(n0 + 1 < p0) by (nonlinear_arith)
                requires n0 * 256 + 255 + 1 < p0 * 256;
            lemma_carry(b.drop_last());
            lemma_num_push(carry_seq(b.drop_last()), 0);
        } else {
            lemma_num_push(b.drop_last(), (b.last() + 1) as u8);
        }
    }
}

/// Shifting out a byte scales the interval by 256.
pub proof fn lemma_shift_out(e: EncState)
    requires
        e.len < MIN,
    ensures
        low(shift_out(e)) == low(e) * 256,
        shift_out(e).len == e.len * 256,
        shift_out(e).bytes.len() == e.bytes.len() + 1,
        shift_out(e).bytes.take(e.bytes.len() as int) == e.bytes,
{
    lemma_num_push(e.bytes, (e.base / 16777216) as u8);
    assert(shift_out(e).bytes.take(e.bytes.len() as int) =~= e.bytes);
    let n = num(e.bytes);
    let b = e.base as int;
    assert(((b % 16777216) * 256) < 0x1_0000_0000int);
    assert((n * 256 + b / 16777216) * 0x1_0000_0000int + (b % 16777216) * 256 == (n * 0x1_0000_0000int + b) * 256) by (nonlinear_arith)
        requires b == (b / 16777216) * 16777216 + b % 16777216;
}

/// Two states describe the same interval, the second with `r` more bytes.
pub open spec fn rescaled(e2: EncState, e1: EncState) -> bool {
    let r = (e2.bytes.len() - e1.bytes.len()) as nat;
    &&& e2.bytes.len() >= e1.bytes.len()
    &&& e2.bytes.take(e1.bytes.len() as int) == e1.bytes
    &&& low(e2) == low(e1) * p256(r)
    &&& e2.len == e1.len * p256(r)
}

pub proof fn lemma_renorm_fuel(e: EncState, fuel: nat)
    requires
        1 <= e.len < MIN,
        e.len * p256(fuel) >= MIN,
        fuel >= 1,
    ensures
        rescaled(renorm_fuel(e, fuel), e),
        renorm_fuel(e, fuel).len >= MIN,
        renorm_fuel(e, fuel).bytes.len() > e.bytes.len(),
    decreases fuel,
{
    let e1 = shift_out(e);
    lemma_shift_out(e);
    if e1.len >= MIN || fuel <= 1 {
        assert(p256(1) == 256) by {
            reveal_with_fuel(p256, 2);
        }
        if fuel <= 1 {
            assert(p256(1) == 256);
        }
        assert((e1.bytes.len() - e.bytes.len()) as nat == 1);
    } else {
        assert(e1.len * p256((fuel - 1) as nat) >= MIN) by {
            assert(p256(fuel) == 256 * p256((fuel - 1) as nat));
            assert(e.len * p256(fuel) == e1.len * p256((fuel - 1) as nat)) by (nonlinear_arith)
                requires p256(fuel) == 256 * p256((fuel - 1) as nat), e1.len == e.len * 256;
        }
        lemma_renorm_fuel(e1, (fuel - 1) as nat);
        let e2 = renorm_fuel(e1, (fuel - 1) as nat);
        let r1 = (e2.bytes.len() - e1.bytes.len()) as nat;
        assert(p256(r1 + 1) == 256 * p256(r1));
        assert(e2.bytes.take(e.bytes.len() as int) =~= e2.bytes.take(e1.bytes.len() as int).take(e.bytes.len() as int));
        assert(low(e2) == low(e) * p256(r1 + 1)) by (nonlinear_arith)
            requires low(e2) == low(e1) * p256(r1), low(e1) == low(e) * 256, p256(r1 + 1) == 256 * p256(r1);
        assert(e2.len == e.len * p256(r1 + 1)) by (nonlinear_arith)
            requires e2.len == e1.len * p256(r1), e1.len == e.len * 256, p256(r1 + 1) == 256 * p256(r1);
        assert((e2.bytes.len() - e.bytes.len()) as nat == r1 + 1);
    }
}

pub proof fn lemma_renorm(e: EncState)
    requires
        1 <= e.len < MIN,
    ensures
        rescaled(renorm(e), e),
        renorm(e).len >= MIN,
        renorm(e).bytes.len() > e.bytes.len(),
{
    assert(p256(3) == 16777216) by {
        reveal_with_fuel(p256, 4);
    }
    lemma_renorm_fuel(e, 3);
}

/// A rescaled interval keeps the encoder invariant.
pub proof fn lemma_rescaled_inv(e2: EncState, e1: EncState)
    requires
        rescaled(e2, e1),
        low(e1) + e1.len <= p256(e1.bytes.len()) * 0x1_0000_0000int,
        e2.len >= MIN,
    ensures
        enc_inv(e2),
{
    let r = (e2.bytes.len() - e1.bytes.len()) as nat;
    lemma_p256_add(e1.bytes.len(), r);
    lemma_p256_pos(r);
    assert(low(e2) + e2.len <= p256(e2.bytes.len()) * 0x1_0000_0000int) by (nonlinear_arith)
        requires
            low(e2) == low(e1) * p256(r),
            e2.len == e1.len * p256(r),
            p256(e2.bytes.len()) == p256(e1.bytes.len()) * p256(r),
            low(e1) + e1.len <= p256(e1.bytes.len()) * 0x1_0000_0000int,
            p256(r) >= 1;
}

pub proof fn lemma_p256_add(a: nat, b: nat)
    ensures
        p256(a + b) == p256(a) * p256(b),
    decreases b,
{
    if b > 0 {
        lemma_p256_add(a, (b - 1) as nat);
        assert(p256(a + b) == 256 * p256((a + b - 1) as nat));
        assert(p256(a) * p256(b) == 256 * (p256(a) * p256((b - 1) as nat))) by (nonlinear_arith)
            requires p256(b) == 256 * p256((b - 1) as nat);
    }
}

/// Raising the low end by less than the interval length keeps the emitted
/// bytes representable and moves the low end exactly.
pub proof fn lemma_add_base(e: EncState, x: int)
    requires
        0 <= x < e.len,
        low(e) + e.len <= p256(e.bytes.len()) * 0x1_0000_0000int,
    ensures
        low(add_base(e, x)) == low(e) + x,
        add_base(e, x).bytes.len() == e.bytes.len(),
        add_base(e, x).len == e.len,
{
    if e.base + x > u32::MAX {
        let n = num(e.bytes);
        let p = p256(e.bytes.len());
        assert(n + 1 < p) by (nonlinear_arith)
            requires
                n * 0x1_0000_0000int + e.base + x < p * 0x1_0000_0000int,
                e.base + x >= 0x1_0000_0000int;
        lemma_carry(e.bytes);
    }
}

/// A symbol narrows the interval to a part of it and keeps the invariant.
pub proof fn lemma_put_part(e: EncState, cdf: Seq<u32>, s: int)
    requires
        enc_inv(e),
        cdf_ok(cdf),
        0 <= s < cdf.len(),
    ensures
        ({
            let scale = e.len / 32768;
            let x = cdf[s] * scale;
            let len = if s + 1 == cdf.len() { e.len - x } else { cdf[s + 1] * scale - x };
            &&& 0 <= x < e.len
            &&& 1 <= len
            &&& x + len <= e.len
            &&& len <= u32::MAX
            &&& s + 1 < cdf.len() ==> cdf[s + 1] * scale <= u32::MAX
        }),
{
    let scale = e.len / 32768;
    let c = cdf[s] as int;
    let last = cdf[cdf.len() - 1] as int;
    assert(scale * 32768 <= e.len) by (nonlinear_arith)
        requires scale == e.len / 32768, e.len >= 0;
    assert(scale >= 512);
    assert(c <= last);
    assert(c * scale < 32768 * scale) by (nonlinear_arith)
        requires c <= last, last < 32768, scale >= 512, c >= 0;
    if s + 1 < cdf.len() {
        let c1 = cdf[s + 1] as int;
        assert(c1 <= last);
        assert(c * scale + scale <= c1 * scale) by (nonlinear_arith)
            requires c + 1 <= c1, scale >= 0;
        assert(c1 * scale < 32768 * scale) by (nonlinear_arith)
            requires c1 <= last, last < 32768, scale >= 512;
    }
}

pub proof fn lemma_enc_put(e: EncState, cdf: Seq<u32>, s: int)
    requires
        enc_inv(e),
        cdf_ok(cdf),
        0 <= s < cdf.len(),
    ensures
        enc_inv(enc_put(e, cdf, s)),
        enc_put(e, cdf, s).bytes.len() >= e.bytes.len(),
{
    lemma_put_part(e, cdf, s);
    let scale = e.len / 32768;
    let x = cdf[s] * scale;
    lemma_add_base(e, x);
    let len = if s + 1 == cdf.len() { e.len - x } else { cdf[s + 1] * scale - x };
    let e1 = EncState { len: len as u32, ..add_base(e, x) };
    if e1.len < MIN {
        lemma_renorm(e1);
        lemma_rescaled_inv(renorm(e1), e1);
    }
}

pub proof fn lemma_bits_part(e: EncState, value: u32, bits: u32)
    requires
        enc_inv(e),
        1 <= bits <= 8,
        value < vstd::arithmetic::power2::pow2(bits as nat),
    ensures
        ({
            let len = e.len as nat / vstd::arithmetic::power2::pow2(bits as nat);
            &&& 1 <= len
            &&& 0 <= value * len < e.len
            &&& value * len + len <= e.len
        }),
{
    let p = vstd::arithmetic::power2::pow2(bits as nat);
    vstd::arithmetic::power2::lemma2_to64();
    vstd::arithmetic::power2::lemma_pow2_pos(bits as nat);
    assert(p <= 256) by {
        if bits < 8 {
            vstd::arithmetic::power2::lemma_pow2_strictly_increases(bits as nat, 8);
        }
    }
    let len = e.len as nat / p;
    assert(len * p <= e.len && len >= 1) by (nonlinear_arith)
        requires len == e.len as nat / p, p >= 1, p <= 256, e.len >= 0x0100_0000;
    assert(value * len + len <= e.len) by (nonlinear_arith)
        requires value + 1 <= p, len * p <= e.len, len >= 0;
}

pub proof fn lemma_enc_bits(e: EncState, value: u32, bits: u32)
    requires
        enc_inv(e),
        1 <= bits <= 8,
        value < vstd::arithmetic::power2::pow2(bits as nat),
    ensures
        enc_inv(enc_bits(e, value, bits)),
        enc_bits(e, value, bits).bytes.len() >= e.bytes.len(),
{
    lemma_bits_part(e, value, bits);
    let len = e.len as nat / vstd::arithmetic::power2::pow2(bits as nat);
    lemma_add_base(e, value * len);
    let e1 = EncState { len: len as u32, ..add_base(e, value * len) };
    if e1.len < MIN {
        lemma_renorm(e1);
        lemma_rescaled_inv(renorm(e1), e1);
    }
}

/// The range encoder.
pub struct Encoder {
    bytes: Vec<u8>,
    base: u32,
    len: u32,
}

impl Encoder {
    pub closed spec fn view(&self) -> EncState {
        EncState { bytes: self.bytes@, base: self.base, len: self.len }
    }

    pub open spec fn inv(&self) -> bool {
        enc_inv(self.view())
    }

    pub proof fn lemma_inv(&self)
        requires
            self.inv(),
        ensures
            enc_inv(self.view()),
    {
    }

    /// An encoder with room reserved for `cap` bytes.
    pub(crate) fn new(cap: usize) -> (e: Self)
        ensures
            e.view() == enc_init(),
            e.inv(),
    {
        let e = Encoder { bytes: Vec::with_capacity(cap), base: 0, len: u32::MAX };
        proof {
            assert(e.bytes@ =~= Seq::<u8>::empty());
            assert(p256(0) == 1);
        }
        e
    }

    /// Propagate a carry into the emitted bytes.
    fn carry(&mut self)
        requires
            num(old(self).bytes@) + 1 < p256(old(self).bytes@.len()),
        ensures
            final(self).bytes@ == carry_seq(old(self).bytes@),
            final(self).base == old(self).base,
            final(self).len == old(self).len,
    {
        let ghost b = self.bytes@;
        let mut i = self.bytes.len();
        proof {
            lemma_carry_suffix(b, i as int);
            assert(b.take(i as int) =~= b);
            assert(b.len() > 0) by {
                if b.len() == 0 {
                    assert(p256(0) == 1);
                }
            }
        }
        loop
            invariant
                0 < i <= b.len(),
                old(self).bytes@ == b,
                self.bytes@.len() == b.len(),
                self.base == old(self).base,
                self.len == old(self).len,
                forall|j: int| 0 <= j < i ==> #[trigger] self.bytes@[j] == b[j],
                forall|j: int| i <= j < b.len() ==> #[trigger] self.bytes@[j] == 0,
                carry_seq(b) == carry_seq(b.take(i as int)) + Seq::new((b.len() - i) as nat, |j: int| 0u8),
                num(b.take(i as int)) + 1 < p256(i as nat),
            decreases i,
        {
            let ghost i0 = i as int;
            i = i - 1;
            let v = self.bytes[i];
            proof {
                let t = b.take(i as int + 1);
                assert(t.drop_last() =~= b.take(i as int));
                assert(t.last() == v);
            }
            if v == 255 {
                proof {
                    let t = b.take(i as int + 1);
                    let p0 = p256(i as nat);
                    let n0 = num(b.take(i as int));
                    assert(n0 + 1 < p0) by (nonlinear_arith)
                        requires n0 * 256 + 255 + 1 < p0 * 256;
                    assert(i > 0) by {
                        if i == 0 {
                            assert(p256(0) == 1);
                            assert(b.take(0) =~= Seq::<u8>::empty());
                        }
                    }
                    assert(carry_seq(t) == carry_seq(b.take(i as int)).push(0));
                    assert(carry_seq(b.take(i as int)).push(0) + Seq::new((b.len() - i - 1) as nat, |j: int| 0u8)
                        =~= carry_seq(b.take(i as int)) + Seq::new((b.len() - i) as nat, |j: int| 0u8));
                }
                self.bytes.set(i, 0);
            } else {
                self.bytes.set(i, v + 1);
                proof {
                    let t = b.take(i as int + 1);
                    assert(carry_seq(b) == carry_seq(b.take(i0)) + Seq::new((b.len() - i0) as nat, |j: int| 0u8));
                    assert(carry_seq(t) == b.take(i as int).push((v + 1) as u8));
                    lemma_carry_len(b.take(i as int + 1));
                    assert(self.bytes@ =~= b.take(i as int).push((v + 1) as u8) + Seq::new((b.len() - i - 1) as nat, |j: int| 0u8));
                    assert(carry_seq(b.take(i0)) == t.drop_last().push((t.last() + 1) as u8));
                    assert(self.bytes@ =~= carry_seq(b));
                    assert(old(self).bytes@ == b);
                    assert(self.bytes@ == carry_seq(old(self).bytes@));
                }
                return;
            }
        }
    }

    fn renorm(&mut self)
        requires
            1 <= old(self).len < MIN,
        ensures
            final(self).view() == renorm(old(self).view()),
    {
        let ghost e0 = self.view();
        let mut fuel: u32 = 3;
        loop
            invariant_except_break
                1 <= fuel <= 3,
                1 <= self.len < MIN,
                renorm(e0) == renorm_fuel(self.view(), fuel as nat),
            ensures
                self.view() == renorm(e0),
            decreases fuel,
        {
            let ghost prev = self.view();
            let hi = (self.base / 16777216) as u8;
            self.bytes.push(hi);
            self.base = (self.base % 16777216) * 256;
            self.len = self.len * 256;
            proof {
                assert(self.view() =~= shift_out(prev));
            }
            if self.len >= MIN || fuel <= 1 {
                break;
            }
            fuel = fuel - 1;
        }
    }

    /// Raise the low end by `x`.
    fn add(&mut self, x: u32)
        requires
            old(self).inv(),
            x < old(self).len,
        ensures
            final(self).view() == add_base(old(self).view(), x as int),
    {
        proof {
            lemma_add_base(self.view(), x as int);
            if self.base + x > u32::MAX {
                let n = num(self.bytes@);
                let p = p256(self.bytes@.len());
                assert(n + 1 < p) by (nonlinear_arith)
                    requires
                        n * 0x1_0000_0000int + self.base + x < p * 0x1_0000_0000int,
                        self.base + x >= 0x1_0000_0000int;
            }
        }
        let before = self.base;
        self.base = self.base.wrapping_add(x);
        if before > self.base {
            self.carry();
        }
    }

    /// Encode symbol `s` under model `m`, then count it.
    pub(crate) fn put(&mut self, m: &mut Model, s: u32)
        requires
            old(self).inv(),
            old(m).inv(),
            s < old(m).symbols(),
        ensures
            final(self).inv(),
            final(m).inv(),
            final(self).view() == enc_put(old(self).view(), old(m).view().cdf, s as int),
            final(m).view() == model_record(old(m).view(), s as int),
            final(m).symbols() == old(m).symbols(),
            final(m).table().len() == old(m).table().len(),
            final(m).bucket_width() == old(m).bucket_width(),
    {
        let s = s as usize;
        let ghost e0 = self.view();
        let ghost cdf = m.cdf@;
        proof {
            lemma_put_part(e0, cdf, s as int);
            lemma_enc_put(e0, cdf, s as int);
        }
        let scale = self.len / 32768;
        let x = m.cdf[s] * scale;
        let len = if s + 1 == m.cdf.len() {
            self.len - x
        } else {
            m.cdf[s + 1] * scale - x
        };
        self.add(x);
        self.len = len;
        if self.len < MIN {
            self.renorm();
        }
        m.record(s);
    }

    /// Encode `value` as `bits` raw bits.
    pub(crate) fn bits(&mut self, value: u32, bits: u32)
        requires
            old(self).inv(),
            1 <= bits <= 8,
            value < vstd::arithmetic::power2::pow2(bits as nat),
        ensures
            final(self).inv(),
            final(self).view() == enc_bits(old(self).view(), value, bits),
    {
        let ghost e0 = self.view();
        proof {
            lemma_bits_part(e0, value, bits);
            lemma_enc_bits(e0, value, bits);
            vstd::bits::lemma_u32_shr_is_div(self.len, bits);
        }
        let len = self.len >> bits;
        self.add(value * len);
        self.len = len;
        if self.len < MIN {
            self.renorm();
        }
    }

    /// Close the interval and return the coded bytes.
    pub(crate) fn finish(self) -> (out: Vec<u8>)
        requires
            self.inv(),
        ensures
            out@ == enc_finish(self.view()),
    {
        let mut e = self;
        let ghost e0 = e.view();
        if e.len > 2 * MIN {
            e.add(MIN);
            e.len = MIN / 2;
        } else {
            e.add(MIN / 2);
            e.len = MIN / 512;
        }
        e.renorm();
        e.bytes.push(0);
        e.bytes.push(0);
        e.bytes.push(0);
        proof {
            let e1 = if e0.len > 2 * MIN {
                EncState { len: MIN / 2, ..add_base(e0, MIN as int) }
            } else {
                EncState { len: MIN / 512, ..add_base(e0, (MIN / 2) as int) }
            };
            assert(e.bytes@ =~= renorm(e1).bytes + seq![0u8, 0u8, 0u8]);
        }
        e.bytes
    }
}

pub proof fn lemma_carry_len(b: Seq<u8>)
    ensures
        carry_seq(b).len() == b.len(),
    decreases b.len(),
{
    if b.len() > 0 {
        lemma_carry_len(b.drop_last());
    }
}

/// Carrying through a run of trailing 255 bytes zeroes them.
pub proof fn lemma_carry_suffix(b: Seq<u8>, i: int)
    requires
        0 <= i <= b.len(),
        forall|j: int| i <= j < b.len() ==> b[j] == 255,
    ensures
        carry_seq(b) == carry_seq(b.take(i)) + Seq::new((b.len() - i) as nat, |j: int| 0u8),
    decreases b.len() - i,
{
    if i == b.len() {
        assert(b.take(i) =~= b);
        assert(carry_seq(b) + Seq::new(0, |j: int| 0u8) =~= carry_seq(b));
    } else {
        lemma_carry_suffix(b.drop_last(), i);
        assert(b.drop_last().take(i) =~= b.take(i));
        assert(carry_seq(b.take(i)) + Seq::new((b.len() - i) as nat, |j: int| 0u8)
            =~= (carry_seq(b.take(i)) + Seq::new((b.len() - 1 - i) as nat, |j: int| 0u8)).push(0));
    }
}


// ---------------------------------------------------------------------------
// Range decoder

/// The state of the range decoder: the read position, the offset of the code
/// value within the interval, and the interval length.
pub struct DecState {
    pub at: int,
    pub value: u32,
    pub len: u32,
}

/// Big-endian value of the first four bytes.
pub open spec fn be32(b: Seq<u8>) -> u32 {
    (b[0] as int * 16777216 + b[1] as int * 65536 + b[2] as int * 256 + b[3] as int) as u32
}

/// Start decoding `bytes`: the first four bytes form the code value.
pub open spec fn dec_new(bytes: Seq<u8>) -> Result<DecState> {
    if bytes.len() < 4 {
        Err(Error::Truncated)
    } else {
        Ok(DecState { at: 4, value: be32(bytes), len: u32::MAX })
    }
}

/// Read bytes until the interval length reaches `MIN`.
pub open spec fn dec_fill(d: DecState, bytes: Seq<u8>, fuel: nat) -> Result<DecState>
    decreases fuel,
{
    if d.len >= MIN || fuel == 0 {
        Ok(d)
    } else if d.at >= bytes.len() {
        Err(Error::Truncated)
    } else {
        dec_fill(
            DecState {
                at: d.at + 1,
                value: ((d.value % 16777216) * 256 + bytes[d.at]) as u32,
                len: (d.len * 256) as u32,
            },
            bytes,
            (fuel - 1) as nat,
        )
    }
}

pub open spec fn dec_renorm(d: DecState, bytes: Seq<u8>) -> Result<DecState> {
    if d.len == 0 {
        Err(Error::InvalidStream)
    } else {
        dec_fill(d, bytes, 3)
    }
}

/// The last symbol at or below index `i` whose cumulative frequency does
/// not exceed `dv`, or zero.
pub open spec fn search_from(cdf: Seq<u32>, dv: int, i: int) -> int
    decreases i,
{
    if i <= 0 {
        0
    } else if cdf[i] <= dv {
        i
    } else {
        search_from(cdf, dv, i - 1)
    }
}

/// The symbol whose frequency range holds `dv`.
pub open spec fn search(cdf: Seq<u32>, dv: int) -> int {
    search_from(cdf, dv, cdf.len() - 1)
}

/// Decode one symbol under the frequencies `cdf`.
pub open spec fn dec_get(d: DecState, bytes: Seq<u8>, cdf: Seq<u32>) -> Result<(DecState, int)> {
    if d.value >= d.len {
        Err(Error::InvalidStream)
    } else if d.len / 32768 == 0 {
        Err(Error::InvalidStream)
    } else {
        let scale = d.len / 32768;
        let dv = d.value / scale;
        let s = search(cdf, dv as int);
        let x = cdf[s] * scale;
        let y = if s + 1 == cdf.len() { d.len as int } else { cdf[s + 1] * scale };
        match dec_renorm(DecState { at: d.at, value: (d.value - x) as u32, len: (y - x) as u32 }, bytes) {
            Ok(d2) => Ok((d2, s)),
            Err(e) => Err(e),
        }
    }
}

/// Decode `bits` raw bits.
pub open spec fn dec_bits(d: DecState, bytes: Seq<u8>, bits: u32) -> Result<(DecState, u32)> {
    let p = vstd::arithmetic::power2::pow2(bits as nat);
    let len = d.len as nat / p;
    if len == 0 {
        Err(Error::InvalidStream)
    } else if d.value as nat / len >= p {
        Err(Error::InvalidStream)
    } else {
        let s = d.value as nat / len;
        match dec_renorm(DecState { at: d.at, value: (d.value - len * s) as u32, len: len as u32 }, bytes) {
            Ok(d2) => Ok((d2, s as u32)),
            Err(e) => Err(e),
        }
    }
}

/// Where reading bytes stops: once the interval is long enough, or at the
/// end of the input.
pub open spec fn fill_stop(d: DecState, bytes: Seq<u8>, fuel: nat) -> DecState
    decreases fuel,
{
    if d.len >= MIN || fuel == 0 || d.at >= bytes.len() {
        d
    } else {
        fill_stop(
            DecState {
                at: d.at + 1,
                value: ((d.value % 16777216) * 256 + bytes[d.at]) as u32,
                len: (d.len * 256) as u32,
            },
            bytes,
            (fuel - 1) as nat,
        )
    }
}

/// The state renormalisation leaves, whether or not it fails.
pub open spec fn renorm_stop(d: DecState, bytes: Seq<u8>) -> DecState {
    if d.len == 0 {
        d
    } else {
        fill_stop(d, bytes, 3)
    }
}

/// The state decoding a symbol leaves, whether or not it fails.
pub open spec fn get_stop(d: DecState, bytes: Seq<u8>, cdf: Seq<u32>) -> DecState {
    if d.value >= d.len || d.len / 32768 == 0 {
        d
    } else {
        let scale = d.len / 32768;
        let s = search(cdf, (d.value / scale) as int);
        let x = cdf[s] * scale;
        let y = if s + 1 == cdf.len() { d.len as int } else { cdf[s + 1] * scale };
        renorm_stop(DecState { at: d.at, value: (d.value - x) as u32, len: (y - x) as u32 }, bytes)
    }
}

/// The state decoding raw bits leaves, whether or not it fails.
pub open spec fn bits_stop(d: DecState, bytes: Seq<u8>, bits: u32) -> DecState {
    let p = vstd::arithmetic::power2::pow2(bits as nat);
    let len = d.len as nat / p;
    if len == 0 || d.value as nat / len >= p {
        DecState { len: len as u32, ..d }
    } else {
        let s = d.value as nat / len;
        renorm_stop(DecState { at: d.at, value: (d.value - len * s) as u32, len: len as u32 }, bytes)
    }
}

/// A decoder state within its input, with a renormalised interval.
pub open spec fn dec_inv(d: DecState, bytes: Seq<u8>) -> bool {
    &&& 0 <= d.at <= bytes.len()
    &&& MIN <= d.len
}

pub proof fn lemma_search(cdf: Seq<u32>, dv: int, s: int)
    requires
        cdf_ok(cdf),
        0 <= s < cdf.len(),
        cdf[s] <= dv,
        s + 1 == cdf.len() || dv < cdf[s + 1],
    ensures
        search(cdf, dv) == s,
{
    lemma_search_from(cdf, dv, s, cdf.len() - 1);
}

pub proof fn lemma_search_range(cdf: Seq<u32>, dv: int)
    requires
        cdf.len() >= 1,
    ensures
        0 <= search(cdf, dv) < cdf.len(),
{
    lemma_search_from_range(cdf, dv, cdf.len() - 1);
}

proof fn lemma_search_from_range(cdf: Seq<u32>, dv: int, i: int)
    requires
        0 <= i < cdf.len(),
    ensures
        0 <= search_from(cdf, dv, i) <= i,
    decreases i,
{
    if i > 0 {
        lemma_search_from_range(cdf, dv, i - 1);
    }
}

proof fn lemma_search_from(cdf: Seq<u32>, dv: int, s: int, i: int)
    requires
        cdf_ok(cdf),
        0 <= s <= i < cdf.len(),
        cdf[s] <= dv,
        s + 1 == cdf.len() || dv < cdf[s + 1],
    ensures
        search_from(cdf, dv, i) == s,
    decreases i,
{
    if i > s {
        assert(cdf[i] >= cdf[s + 1]) by {
            if i > s + 1 {
                assert(cdf[s + 1] < cdf[i]);
            }
        }
        lemma_search_from(cdf, dv, s, i - 1);
    }
}

pub proof fn lemma_dec_fill_ok(d: DecState, bytes: Seq<u8>, fuel: nat)
    requires
        1 <= d.len,
        d.len * p256(fuel) >= MIN,
        0 <= d.at <= bytes.len(),
    ensures
        dec_fill(d, bytes, fuel) matches Ok(d2) ==> dec_inv(d2, bytes) && d2.at >= d.at,
    decreases fuel,
{
    if d.len >= MIN || fuel == 0 {
        if fuel == 0 {
            assert(p256(0) == 1);
        }
    } else if d.at >= bytes.len() {
    } else {
        assert(p256(fuel) == 256 * p256((fuel - 1) as nat));
        assert(d.len * 256 * p256((fuel - 1) as nat) >= MIN) by (nonlinear_arith)
            requires d.len * p256(fuel) >= MIN, p256(fuel) == 256 * p256((fuel - 1) as nat);
        lemma_dec_fill_ok(
            DecState {
                at: d.at + 1,
                value: ((d.value % 16777216) * 256 + bytes[d.at]) as u32,
                len: (d.len * 256) as u32,
            },
            bytes,
            (fuel - 1) as nat,
        );
    }
}

pub proof fn lemma_dec_renorm_ok(d: DecState, bytes: Seq<u8>)
    requires
        0 <= d.at <= bytes.len(),
    ensures
        dec_renorm(d, bytes) matches Ok(d2) ==> dec_inv(d2, bytes) && d2.at >= d.at,
{
    if d.len > 0 {
        assert(p256(3) == 16777216) by {
            reveal_with_fuel(p256, 4);
        }
        lemma_dec_fill_ok(d, bytes, 3);
    }
}

/// The range decoder over a borrowed input.
pub struct Decoder<'a> {
    bytes: &'a [u8],
    at: usize,
    value: u32,
    len: u32,
}

impl<'a> Decoder<'a> {
    pub closed spec fn view(&self) -> DecState {
        DecState { at: self.at as int, value: self.value, len: self.len }
    }

    /// The coded input.
    pub closed spec fn input(&self) -> Seq<u8> {
        self.bytes@
    }

    pub open spec fn inv(&self) -> bool {
        dec_inv(self.view(), self.input())
    }

    /// Start decoding `bytes`.
    pub(crate) fn new(bytes: &'a [u8]) -> (r: Result<Self>)
        ensures
            match dec_new(bytes@) {
                Ok(d) => r matches Ok(dec) && dec.view() == d && dec.input() == bytes@ && dec.inv(),
                Err(e) => r == Err::<Decoder<'a>, Error>(e),
            },
    {
        if bytes.len() < 4 {
            return Err(Error::Truncated);
        }
        let value = bytes[0] as u32 * 16777216 + bytes[1] as u32 * 65536 + bytes[2] as u32 * 256 + bytes[3] as u32;
        Ok(Decoder { bytes, at: 4, value, len: u32::MAX })
    }

    fn renorm(&mut self) -> (r: Result<()>)
        requires
            old(self).at <= old(self).bytes@.len(),
        ensures
            final(self).bytes == old(self).bytes,
            old(self).len == 0 ==> *final(self) == *old(self),
            r is Err ==> final(self).view() == renorm_stop(old(self).view(), old(self).bytes@),
            match dec_renorm(old(self).view(), old(self).bytes@) {
                Ok(d) => r == Ok::<(), Error>(()) && final(self).view() == d && final(self).inv(),
                Err(e) => r == Err::<(), Error>(e),
            },
    {
        let ghost d0 = self.view();
        proof {
            lemma_dec_renorm_ok(d0, self.bytes@);
        }
        if self.len == 0 {
            return Err(Error::InvalidStream);
        }
        let ghost mut fuel: nat = 3;
        proof {
            assert(p256(3) == 16777216) by {
                reveal_with_fuel(p256, 4);
            }
        }
        while self.len < MIN
            invariant
                self.bytes == old(self).bytes,
                d0 == old(self).view(),
                self.at <= self.bytes@.len(),
                1 <= self.len,
                self.len * p256(fuel) >= MIN,
                dec_renorm(d0, self.bytes@) == dec_fill(self.view(), self.bytes@, fuel),
                renorm_stop(d0, self.bytes@) == fill_stop(self.view(), self.bytes@, fuel),
                dec_renorm(d0, self.bytes@) matches Ok(d2) ==> dec_inv(d2, self.bytes@),
            decreases fuel,
        {
            proof {
                if fuel == 0 {
                    assert(p256(0) == 1);
                }
                assert(p256(fuel) == 256 * p256((fuel - 1) as nat));
            }
            if self.at >= self.bytes.len() {
                proof {
                    assert(fuel > 0);
                    assert(dec_fill(self.view(), self.bytes@, fuel) == Err::<DecState, Error>(Error::Truncated));
                }
                return Err(Error::Truncated);
            }
            let b = self.bytes[self.at];
            let ghost old_len = self.len;
            self.value = (self.value % 16777216) * 256 + b as u32;
            self.at = self.at + 1;
            self.len = self.len * 256;
            proof {
                assert(self.len * p256((fuel - 1) as nat) >= MIN) by (nonlinear_arith)
                    requires
                        self.len == old_len * 256,
                        old_len * p256(fuel) >= MIN,
                        p256(fuel) == 256 * p256((fuel - 1) as nat);
                fuel = (fuel - 1) as nat;
            }
        }
        Ok(())
    }

    /// Decode one symbol under model `m`, then count it.
    pub(crate) fn get(&mut self, m: &mut Model) -> (r: Result<u32>)
        requires
            old(self).inv(),
            old(m).inv(),
        ensures
            final(self).input() == old(self).input(),
            final(m).symbols() == old(m).symbols(),
            r is Err ==> *final(m) == *old(m) && final(self).view() == get_stop(old(self).view(), old(self).input(), old(m).view().cdf),
            match dec_get(old(self).view(), old(self).input(), old(m).view().cdf) {
                Ok((d, s)) => {
                    &&& r == Ok::<u32, Error>(s as u32)
                    &&& final(self).view() == d
                    &&& final(self).inv()
                    &&& final(m).inv()
                    &&& final(m).view() == model_record(old(m).view(), s)
                    &&& 0 <= s < old(m).symbols()
                    &&& final(m).table().len() == old(m).table().len()
                    &&& final(m).bucket_width() == old(m).bucket_width()
                },
                Err(e) => r == Err::<u32, Error>(e),
            },
    {
        let ghost cdf = m.cdf@;
        if self.value >= self.len {
            return Err(Error::InvalidStream);
        }
        let scale = self.len / 32768;
        if scale == 0 {
            return Err(Error::InvalidStream);
        }
        let dv = self.value / scale;
        let n = m.cdf.len();
        proof {
            assert(scale >= 512);
            assert(dv < 32832) by (nonlinear_arith)
                requires
                    dv == self.value / scale,
                    self.value < self.len,
                    scale == self.len / 32768,
                    scale >= 512;
        }
        let (mut lo, mut hi): (usize, usize) = if m.lookup.len() == 0 {
            (0, n)
        } else {
            let g = m.granule;
            let ghost b = lookup_bits(n as int);
            let ghost p = vstd::arithmetic::power2::pow2(b as nat);
            proof {
                vstd::arithmetic::power2::lemma2_to64();
                assert(p <= 64 && p >= 8) by {
                    if b == 6 {
                        assert(p == 64);
                    } else if b == 5 {
                        assert(p == 32);
                    } else if b == 4 {
                        assert(p == 16);
                    } else {
                        assert(p == 8);
                    }
                }
                assert(g >= 512) by (nonlinear_arith)
                    requires g * p == 32768, p <= 64;
            }
            let t = (dv / g) as usize;
            proof {
                assert(t <= p) by (nonlinear_arith)
                    requires t == dv / g, dv < 32832, g * p == 32768, g >= 512;
            }
            if t + 1 >= m.lookup.len() {
                return Err(Error::InvalidStream);
            }
            let lo = m.lookup[t];
            let hi = m.lookup[t + 1] + 1;
            proof {
                assert(lo < n && (lo == 0 || cdf[lo as int] < t * g + 0)) by {
                    if t >= 1 {
                        assert(cdf[lo as int] / g < t);
                        assert(cdf[lo as int] < t * g) by (nonlinear_arith)
                            requires cdf[lo as int] / g < t, g >= 1;
                    }
                }
                assert(cdf[lo as int] <= dv) by {
                    if t >= 1 {
                        assert(t * g <= dv) by (nonlinear_arith)
                            requires t == dv / g, g >= 1;
                    }
                }
                let r1 = hi - 1;
                assert(hi == n || cdf[hi as int] > dv) by {
                    if hi < n {
                        assert(cdf[hi as int] / g >= t + 1);
                        assert(cdf[hi as int] >= (t + 1) * g) by (nonlinear_arith)
                            requires cdf[hi as int] / g >= t + 1, g >= 1;
                        assert(dv < (t + 1) * g) by (nonlinear_arith)
                            requires t == dv / g, g >= 1;
                    }
                }
            }
            (lo, hi)
        };
        proof {
            assert(lo < hi) by {
                if hi < n {
                    if lo >= hi {
                        assert(cdf[hi as int] <= cdf[lo as int]);
                    }
                }
            }
        }
        while hi > lo + 1
            invariant
                0 <= lo < hi <= n,
                n == cdf.len(),
                cdf_ok(cdf),
                m.cdf@ == cdf,
                cdf[lo as int] <= dv,
                hi == n || cdf[hi as int] > dv,
            decreases hi - lo,
        {
            let mid = lo + (hi - lo) / 2;
            if m.cdf[mid] > dv {
                hi = mid;
            } else {
                lo = mid;
            }
        }
        let s = lo;
        proof {
            lemma_search(cdf, dv as int, s as int);
            assert(cdf[s as int] * scale <= self.value) by (nonlinear_arith)
                requires cdf[s as int] <= dv, dv == self.value / scale, scale >= 1;
            assert(cdf[cdf.len() - 1] < 32768);
            assert(s + 1 < n ==> cdf[s + 1] < 32768) by {
                if s + 1 < n && s + 1 != n - 1 {
                    assert(cdf[s + 1] < cdf[n - 1]);
                }
            }
            assert(scale * 32768 <= self.len) by (nonlinear_arith)
                requires scale == self.len / 32768;
            if s + 1 < n {
                assert(cdf[s + 1] * scale < 32768 * scale) by (nonlinear_arith)
                    requires cdf[s + 1] < 32768, scale >= 1;
                assert(cdf[s as int] * scale < cdf[s + 1] * scale) by (nonlinear_arith)
                    requires cdf[s as int] < cdf[s + 1], scale >= 1;
            }
        }
        let x = m.cdf[s] * scale;
        let y = if s + 1 == n { self.len } else { m.cdf[s + 1] * scale };
        self.value = self.value - x;
        self.len = y - x;
        let rr = self.renorm();
        match rr {
            Err(e) => {
                return Err(e);
            },
            Ok(()) => {},
        }
        m.record(s);
        Ok(s as u32)
    }

    /// Decode `bits` raw bits.
    pub(crate) fn bits(&mut self, bits: u32) -> (r: Result<u32>)
        requires
            old(self).inv(),
            1 <= bits <= 8,
        ensures
            final(self).input() == old(self).input(),
            r is Err ==> final(self).view() == bits_stop(old(self).view(), old(self).input(), bits),
            match dec_bits(old(self).view(), old(self).input(), bits) {
                Ok((d, v)) => {
                    &&& r == Ok::<u32, Error>(v)
                    &&& final(self).view() == d
                    &&& final(self).inv()
                    &&& v < vstd::arithmetic::power2::pow2(bits as nat)
                },
                Err(e) => r == Err::<u32, Error>(e),
            },
    {
        proof {
            vstd::bits::lemma_u32_shr_is_div(self.len, bits);
            vstd::arithmetic::power2::lemma2_to64();
            vstd::arithmetic::power2::lemma_pow2_pos(bits as nat);
            vstd::bits::lemma_u32_shl_is_mul(1, bits);
            if bits < 8 {
                vstd::arithmetic::power2::lemma_pow2_strictly_increases(bits as nat, 8);
            }
        }
        self.len = self.len >> bits;
        if self.len == 0 {
            return Err(Error::InvalidStream);
        }
        let s = self.value / self.len;
        if s >= 1u32 << bits {
            return Err(Error::InvalidStream);
        }
        proof {
            assert(self.len * s <= self.value) by (nonlinear_arith)
                requires s == self.value / self.len, self.len >= 1;
        }
        self.value = self.value - self.len * s;
        let rr = self.renorm();
        match rr {
            Err(e) => Err(e),
            Ok(()) => Ok(s),
        }
    }
}


// ---------------------------------------------------------------------------
// Coders over banks of models

/// An encoder together with the models it codes symbols under.
pub struct Coder {
    pub enc: EncState,
    pub models: Seq<ModelView>,
}

/// A decoder together with the models it decodes symbols under.
pub struct DCoder {
    pub dec: DecState,
    pub models: Seq<ModelView>,
}

pub open spec fn models_wf(models: Seq<ModelView>) -> bool {
    forall|i: int| 0 <= i < models.len() ==> #[trigger] model_wf(models[i])
}

pub open spec fn coder_wf(c: Coder) -> bool {
    enc_inv(c.enc) && models_wf(c.models)
}

/// Encode symbol `s` under model `id`.
pub open spec fn c_put(c: Coder, id: int, s: int) -> Coder {
    Coder {
        enc: enc_put(c.enc, c.models[id].cdf, s),
        models: c.models.update(id, model_record(c.models[id], s)),
    }
}

/// Encode `v` as `bits` raw bits.
pub open spec fn c_bits(c: Coder, v: u32, bits: u32) -> Coder {
    Coder { enc: enc_bits(c.enc, v, bits), models: c.models }
}

/// Decode a symbol under model `id`.
pub open spec fn d_get(d: DCoder, bytes: Seq<u8>, id: int) -> Result<(DCoder, int)> {
    match dec_get(d.dec, bytes, d.models[id].cdf) {
        Ok((d2, s)) => Ok((DCoder { dec: d2, models: d.models.update(id, model_record(d.models[id], s)) }, s)),
        Err(e) => Err(e),
    }
}

/// Decode `bits` raw bits.
pub open spec fn d_bits(d: DCoder, bytes: Seq<u8>, bits: u32) -> Result<(DCoder, u32)> {
    match dec_bits(d.dec, bytes, bits) {
        Ok((d2, v)) => Ok((DCoder { dec: d2, models: d.models }, v)),
        Err(e) => Err(e),
    }
}

pub proof fn lemma_c_put(c: Coder, id: int, s: int)
    requires
        coder_wf(c),
        0 <= id < c.models.len(),
        0 <= s < c.models[id].counts.len(),
    ensures
        coder_wf(c_put(c, id, s)),
        c_put(c, id, s).models.len() == c.models.len(),
        c_put(c, id, s).models[id].counts.len() == c.models[id].counts.len(),
        forall|k: int| 0 <= k < c.models.len() ==> #[trigger] c_put(c, id, s).models[k].counts.len() == c.models[k].counts.len(),
{
    lemma_enc_put(c.enc, c.models[id].cdf, s);
    lemma_record_wf(c.models[id], s);
    let m2 = c_put(c, id, s).models;
    assert forall|i: int| 0 <= i < m2.len() implies #[trigger] model_wf(m2[i]) by {
        if i != id {
            assert(m2[i] == c.models[i]);
        }
    }
}

pub proof fn lemma_c_bits(c: Coder, v: u32, bits: u32)
    requires
        coder_wf(c),
        1 <= bits <= 8,
        v < vstd::arithmetic::power2::pow2(bits as nat),
    ensures
        coder_wf(c_bits(c, v, bits)),
        c_bits(c, v, bits).models == c.models,
{
    lemma_enc_bits(c.enc, v, bits);
}

/// Views of a bank of models.
pub open spec fn bank_view(b: Seq<Model>) -> Seq<ModelView> {
    Seq::new(b.len(), |i: int| b[i].view())
}

pub open spec fn bank_inv(b: Seq<Model>) -> bool {
    forall|i: int| 0 <= i < b.len() ==> #[trigger] b[i].inv()
}

pub proof fn lemma_bank_wf(b: Seq<Model>)
    requires
        bank_inv(b),
    ensures
        models_wf(bank_view(b)),
        forall|i: int| 0 <= i < b.len() ==> #[trigger] b[i].symbols() == bank_view(b)[i].counts.len(),
{
    assert forall|i: int| 0 <= i < b.len() implies model_wf(#[trigger] bank_view(b)[i]) by {
        b[i].lemma_inv();
    }
    assert forall|i: int| 0 <= i < b.len() implies #[trigger] b[i].symbols() == bank_view(b)[i].counts.len() by {
        b[i].lemma_inv();
    }
}

/// A bank of fresh models over the given symbol counts.
pub(crate) fn new_bank(sizes: &Vec<usize>, decode: bool) -> (b: Vec<Model>)
    requires
        forall|i: int| 0 <= i < sizes@.len() ==> 1 <= #[trigger] sizes@[i] <= 256,
    ensures
        b@.len() == sizes@.len(),
        bank_inv(b@),
        bank_view(b@) == Seq::new(sizes@.len(), |i: int| model_init(sizes@[i] as int)),
{
    let mut b: Vec<Model> = Vec::new();
    let mut i: usize = 0;
    while i < sizes.len()
        invariant
            0 <= i <= sizes@.len(),
            b@.len() == i,
            forall|j: int| 0 <= j < sizes@.len() ==> 1 <= #[trigger] sizes@[j] <= 256,
            bank_inv(b@),
            forall|j: int| 0 <= j < i ==> #[trigger] b@[j].view() == model_init(sizes@[j] as int),
        decreases sizes@.len() - i,
    {
        let m = Model::new(sizes[i], decode);
        b.push(m);
        i = i + 1;
    }
    assert(bank_view(b@) =~= Seq::new(sizes@.len(), |i: int| model_init(sizes@[i] as int)));
    b
}

/// Encode symbol `s` under model `id` of a bank.
pub(crate) fn bank_put(enc: &mut Encoder, bank: &mut Vec<Model>, id: usize, s: u32)
    requires
        old(enc).inv(),
        bank_inv(old(bank)@),
        id < old(bank)@.len(),
        s < bank_view(old(bank)@)[id as int].counts.len(),
    ensures
        final(enc).inv(),
        bank_inv(final(bank)@),
        final(bank)@.len() == old(bank)@.len(),
        (Coder { enc: final(enc).view(), models: bank_view(final(bank)@) })
            == c_put((Coder { enc: old(enc).view(), models: bank_view(old(bank)@) }), id as int, s as int),
{
    proof {
        lemma_bank_wf(bank@);
    }
    let ghost b0 = bank@;
    enc.put(&mut bank[id], s);
    proof {
        assert(bank_inv(bank@)) by {
            assert forall|i: int| 0 <= i < bank@.len() implies #[trigger] bank@[i].inv() by {
                if i != id {
                    assert(bank@[i] == b0[i]);
                }
            }
        }
        assert(bank_view(bank@) =~= bank_view(b0).update(id as int, model_record(bank_view(b0)[id as int], s as int)));
    }
}

/// Decode a symbol under model `id` of a bank.
pub(crate) fn bank_get(dec: &mut Decoder, bank: &mut Vec<Model>, id: usize) -> (r: Result<u32>)
    requires
        old(dec).inv(),
        bank_inv(old(bank)@),
        id < old(bank)@.len(),
    ensures
        final(dec).input() == old(dec).input(),
        final(bank)@.len() == old(bank)@.len(),
        match d_get((DCoder { dec: old(dec).view(), models: bank_view(old(bank)@) }), old(dec).input(), id as int) {
            Ok((d, s)) => {
                &&& r == Ok::<u32, Error>(s as u32)
                &&& d == (DCoder { dec: final(dec).view(), models: bank_view(final(bank)@) })
                &&& final(dec).inv()
                &&& bank_inv(final(bank)@)
                &&& 0 <= s < bank_view(old(bank)@)[id as int].counts.len()
            },
            Err(e) => r == Err::<u32, Error>(e),
        },
{
    proof {
        lemma_bank_wf(bank@);
    }
    let ghost b0 = bank@;
    let r = dec.get(&mut bank[id]);
    proof {
        if r.is_ok() {
            assert(bank_inv(bank@)) by {
                assert forall|i: int| 0 <= i < bank@.len() implies #[trigger] bank@[i].inv() by {
                    if i != id {
                        assert(bank@[i] == b0[i]);
                    }
                }
            }
            let s = r.unwrap();
            assert(bank_view(bank@) =~= bank_view(b0).update(id as int, model_record(bank_view(b0)[id as int], s as int)));
        }
    }
    r
}

} // verus!
