//! The selector dictionary of a colour plane: the 256 selector words that
//! occur most often, ties broken towards the larger word, in increasing
//! order.
use vstd::prelude::*;
use vstd::multiset::Multiset;

verus! {

broadcast use vstd::seq_lib::group_to_multiset_ensures;

pub open spec fn strictly_sorted(s: Seq<u32>) -> bool {
    forall|i: int, j: int| 0 <= i < j < s.len() ==> s[i] < s[j]
}

/// Number of occurrences of `v` in `p`.
pub open spec fn freq(p: Seq<u32>, v: u32) -> nat {
    p.to_multiset().count(v)
}

/// Selector `w` ranks above `v`: it is more frequent, or as frequent and larger.
pub open spec fn outranks(p: Seq<u32>, w: u32, v: u32) -> bool {
    freq(p, w) > freq(p, v) || (freq(p, w) == freq(p, v) && w > v)
}

/// The distinct selectors of `p` that rank above `v`.
pub open spec fn above(p: Seq<u32>, v: u32) -> Set<u32> {
    p.to_set().filter(|w: u32| outranks(p, w, v))
}

/// The distinct selectors that fewer than 256 others rank above.
pub open spec fn top_set(p: Seq<u32>) -> Set<u32> {
    p.to_set().filter(|v: u32| above(p, v).len() < 256)
}

/// The dictionary of the selectors `p`: its top-ranked words in increasing
/// order.
pub open spec fn dictionary(p: Seq<u32>) -> Seq<u32> {
    choose|t: Seq<u32>| strictly_sorted(t) && t.to_set() == top_set(p)
}

// ---------------------------------------------------------------------------
// Ranking

/// A lowest-ranked element of a finite nonempty set.
proof fn lemma_bottom(p: Seq<u32>, s: Set<u32>) -> (b: u32)
    requires
        s.finite(),
        s.len() > 0,
    ensures
        s.contains(b),
        forall|w: u32| s.contains(w) && w != b ==> outranks(p, w, b),
    decreases s.len(),
{
    let x = s.choose();
    let r = s.remove(x);
    if r.len() == 0 {
        assert forall|w: u32| s.contains(w) implies w == x by {
            if w != x {
                assert(r.contains(w));
            }
        }
        x
    } else {
        let b1 = lemma_bottom(p, r);
        if outranks(p, x, b1) {
            b1
        } else {
            x
        }
    }
}

/// A highest-ranked element of a finite nonempty set.
proof fn lemma_top(p: Seq<u32>, s: Set<u32>) -> (m: u32)
    requires
        s.finite(),
        s.len() > 0,
    ensures
        s.contains(m),
        forall|w: u32| s.contains(w) ==> !outranks(p, w, m),
    decreases s.len(),
{
    let x = s.choose();
    let r = s.remove(x);
    if r.len() == 0 {
        assert forall|w: u32| s.contains(w) implies w == x by {
            if w != x {
                assert(r.contains(w));
            }
        }
        x
    } else {
        let m1 = lemma_top(p, r);
        if outranks(p, x, m1) {
            x
        } else {
            m1
        }
    }
}

/// The largest element of a finite nonempty set.
proof fn lemma_max(s: Set<u32>) -> (m: u32)
    requires
        s.finite(),
        s.len() > 0,
    ensures
        s.contains(m),
        forall|w: u32| s.contains(w) ==> w <= m,
    decreases s.len(),
{
    let x = s.choose();
    let r = s.remove(x);
    if r.len() == 0 {
        assert forall|w: u32| s.contains(w) implies w == x by {
            if w != x {
                assert(r.contains(w));
            }
        }
        x
    } else {
        let m1 = lemma_max(r);
        if x > m1 {
            x
        } else {
            m1
        }
    }
}

/// A finite set of words in increasing order.
proof fn lemma_sorted_of(s: Set<u32>) -> (t: Seq<u32>)
    requires
        s.finite(),
    ensures
        strictly_sorted(t),
        t.to_set() == s,
        t.len() == s.len(),
    decreases s.len(),
{
    if s.len() == 0 {
        let t = Seq::<u32>::empty();
        assert(t.to_set() =~= s) by {
            assert forall|w: u32| !s.contains(w) by {
                if s.contains(w) {
                    assert(s.remove(w).len() < s.len());
                }
            }
        }
        t
    } else {
        let m = lemma_max(s);
        let r = s.remove(m);
        let t1 = lemma_sorted_of(r);
        let t = t1.push(m);
        assert forall|i: int| 0 <= i < t1.len() implies t1[i] < m by {
            assert(t1.to_set().contains(t1[i]));
        }
        assert(t.to_set() =~= s) by {
            assert forall|w: u32| t.to_set().contains(w) <==> s.contains(w) by {
                assert(t[t1.len() as int] == m);
                if s.contains(w) && w != m {
                    assert(t1.to_set().contains(w));
                    let i = choose|i: int| 0 <= i < t1.len() && t1[i] == w;
                    assert(t[i] == w);
                }
                if t.to_set().contains(w) {
                    let i = choose|i: int| 0 <= i < t.len() && t[i] == w;
                    if i < t1.len() {
                        assert(t1.to_set().contains(t1[i]));
                    }
                }
            }
        }
        t
    }
}

/// A strictly sorted sequence has as many elements as its set.
proof fn lemma_sorted_len(t: Seq<u32>)
    requires
        strictly_sorted(t),
    ensures
        t.no_duplicates(),
        t.len() == t.to_set().len(),
{
    assert(t.no_duplicates()) by {
        assert forall|i: int, j: int| 0 <= i < t.len() && 0 <= j < t.len() && i != j implies t[i] != t[j] by {
            if i < j {
                assert(t[i] < t[j]);
            } else {
                assert(t[j] < t[i]);
            }
        }
    }
    t.unique_seq_to_set();
}

/// Two strictly sorted sequences with the same elements are equal.
proof fn lemma_sorted_unique(a: Seq<u32>, b: Seq<u32>)
    requires
        strictly_sorted(a),
        strictly_sorted(b),
        a.to_set() == b.to_set(),
    ensures
        a == b,
    decreases a.len(),
{
    if a.len() == 0 {
        if b.len() > 0 {
            assert(b.to_set().contains(b[0]));
        }
        assert(a =~= b);
    } else {
        assert(b.len() > 0) by {
            assert(a.to_set().contains(a[0]));
        }
        assert(b.to_set().contains(a[0]));
        assert(a.to_set().contains(b[0]));
        let i = choose|i: int| 0 <= i < b.len() && b[i] == a[0];
        let j = choose|j: int| 0 <= j < a.len() && a[j] == b[0];
        if i > 0 {
            assert(b[0] < b[i]);
            assert(a[0] <= a[j]) by {
                if j > 0 {
                    assert(a[0] < a[j]);
                }
            }
        }
        assert(a[0] == b[0]);
        let a1 = a.drop_first();
        let b1 = b.drop_first();
        assert(a1.to_set() =~= b1.to_set()) by {
            assert forall|w: u32| a1.to_set().contains(w) implies b1.to_set().contains(w) by {
                let k = choose|k: int| 0 <= k < a1.len() && a1[k] == w;
                assert(a[k + 1] == w);
                assert(a[0] < a[k + 1]);
                assert(b.to_set().contains(w));
                let h = choose|h: int| 0 <= h < b.len() && b[h] == w;
                assert(h != 0);
                assert(b1[h - 1] == w);
            }
            assert forall|w: u32| b1.to_set().contains(w) implies a1.to_set().contains(w) by {
                let k = choose|k: int| 0 <= k < b1.len() && b1[k] == w;
                assert(b[k + 1] == w);
                assert(b[0] < b[k + 1]);
                assert(a.to_set().contains(w));
                let h = choose|h: int| 0 <= h < a.len() && a[h] == w;
                assert(h != 0);
                assert(a1[h - 1] == w);
            }
        }
        lemma_sorted_unique(a1, b1);
        assert(a =~= seq![a[0]] + a1);
        assert(b =~= seq![b[0]] + b1);
    }
}

/// The top set of a nonempty sequence of selectors holds between one and
/// 256 words.
proof fn lemma_top_set_len(p: Seq<u32>)
    requires
        p.len() >= 1,
    ensures
        top_set(p).finite(),
        1 <= top_set(p).len() <= 256,
{
    let d = p.to_set();
    let t = top_set(p);
    assert(d.contains(p[0]));
    assert(d.len() > 0) by {
        if d.len() == 0 {
            assert(d.remove(p[0]).len() < d.len());
        }
    }
    let m = lemma_top(p, d);
    assert(above(p, m) =~= Set::<u32>::empty());
    assert(t.contains(m));
    assert(t.len() > 0) by {
        if t.len() == 0 {
            assert(t.remove(m).len() < t.len());
        }
    }
    if t.len() > 256 {
        let b = lemma_bottom(p, t);
        assert(t.remove(b).subset_of(above(p, b)));
        vstd::set_lib::lemma_len_subset(t.remove(b), above(p, b));
        assert(false);
    }
}

/// The dictionary of a nonempty sequence of selectors: its top-ranked
/// words, in increasing order, at least one and at most 256.
pub proof fn lemma_dictionary(p: Seq<u32>)
    requires
        p.len() >= 1,
    ensures
        strictly_sorted(dictionary(p)),
        dictionary(p).to_set() == top_set(p),
        1 <= dictionary(p).len() <= 256,
{
    lemma_top_set_len(p);
    let t = lemma_sorted_of(top_set(p));
    assert(strictly_sorted(t) && t.to_set() == top_set(p));
    let dt = dictionary(p);
    lemma_sorted_len(dt);
}


// ---------------------------------------------------------------------------
// Computing the dictionary

/// Pairs of a count and a word, ordered by count, then by word.
pub open spec fn pair_le(a: (usize, u32), b: (usize, u32)) -> bool {
    a.0 < b.0 || (a.0 == b.0 && a.1 <= b.1)
}

/// The words of a sequence of pairs.
pub open spec fn words(q: Seq<(usize, u32)>) -> Seq<u32> {
    Seq::new(q.len(), |i: int| q[i].1)
}

/// `sort_unstable` of std on words: the same words in increasing order.
#[verifier::external_body]
fn sort_words(v: &mut Vec<u32>)
    ensures
        final(v)@.len() == old(v)@.len(),
        final(v)@.to_multiset() == old(v)@.to_multiset(),
        forall|i: int, j: int| 0 <= i <= j < final(v)@.len() ==> final(v)@[i] <= final(v)@[j],
{
    v.sort_unstable();
}

/// `sort_unstable` of std on pairs, which std orders lexicographically: the
/// same pairs in increasing order.
#[verifier::external_body]
fn sort_pairs(v: &mut Vec<(usize, u32)>)
    ensures
        final(v)@.len() == old(v)@.len(),
        final(v)@.to_multiset() == old(v)@.to_multiset(),
        forall|i: int, j: int| 0 <= i <= j < final(v)@.len() ==> pair_le(final(v)@[i], final(v)@[j]),
{
    v.sort_unstable();
}

/// Occurrences of `v` among the first `i` words.
spec fn prefix_count(s: Seq<u32>, v: u32, i: int) -> nat {
    s.take(i).to_multiset().count(v)
}

/// In a sorted sequence, a maximal run of `v` holds all its occurrences.
proof fn lemma_run_prefix(s: Seq<u32>, v: u32, at: int, end: int, i: int)
    requires
        forall|a: int, b: int| 0 <= a <= b < s.len() ==> s[a] <= s[b],
        0 <= at < end <= s.len(),
        forall|k: int| at <= k < end ==> s[k] == v,
        at > 0 ==> s[at - 1] != v,
        end < s.len() ==> s[end] != v,
        0 <= i <= s.len(),
    ensures
        prefix_count(s, v, i) == if i <= at { 0 } else if i <= end { i - at } else { end - at },
    decreases i,
{
    broadcast use vstd::multiset::group_multiset_axioms;
    if i == 0 {
        assert(s.take(0) =~= Seq::<u32>::empty());
        assert(s.take(0).to_multiset() =~= Multiset::<u32>::empty());
    } else {
        lemma_run_prefix(s, v, at, end, i - 1);
        assert(s.take(i) =~= s.take(i - 1).push(s[i - 1]));
        assert(s.take(i).to_multiset() =~= s.take(i - 1).to_multiset().insert(s[i - 1]));
        assert(s[at] == v);
        assert(s[end - 1] == v);
        if i - 1 < at {
            assert(s[i - 1] <= s[at - 1]);
            assert(s[at - 1] <= s[at]);
            assert(s[i - 1] != v);
        } else if i - 1 >= end {
            assert(s[end - 1] <= s[end] <= s[i - 1]);
            assert(s[i - 1] != v);
        } else {
            assert(s[i - 1] == v);
        }
    }
}

/// Counts, words and ranks of the groups of equal selectors.
proof fn lemma_ranked(p: Seq<u32>, g: Seq<(usize, u32)>, q: Seq<(usize, u32)>)
    requires
        forall|i: int| 0 <= i < g.len() ==> g[i].0 == freq(p, g[i].1) && p.contains(#[trigger] g[i].1),
        forall|i: int, j: int| 0 <= i < j < g.len() ==> g[i].1 < g[j].1,
        forall|w: u32| p.contains(w) ==> exists|i: int| 0 <= i < g.len() && g[i].1 == w,
        q.len() == g.len(),
        q.to_multiset() == g.to_multiset(),
        forall|i: int, j: int| 0 <= i <= j < q.len() ==> pair_le(q[i], q[j]),
    ensures
        ({
            let d = q.len() as int;
            let start = if d > 256 { d - 256 } else { 0 };
            &&& words(q).subrange(start, d).no_duplicates()
            &&& words(q).subrange(start, d).to_set() == top_set(p)
        }),
{
    let d = q.len() as int;
    // The pairs of q are the groups.
    assert forall|i: int| 0 <= i < d implies q[i].0 == freq(p, q[i].1) && p.contains(#[trigger] q[i].1) by {
        assert(q.contains(q[i]));
        assert(g.to_multiset().count(q[i]) > 0);
        let h = choose|h: int| 0 <= h < g.len() && g[h] == q[i];
        assert(g[h].1 == q[i].1);
    }
    assert forall|h: int| 0 <= h < g.len() implies q.contains(#[trigger] g[h]) by {
        assert(g.contains(g[h]));
        assert(q.to_multiset().count(g[h]) > 0);
    }
    // No pair occurs twice.
    assert(g.no_duplicates()) by {
        assert forall|i: int, j: int| 0 <= i < g.len() && 0 <= j < g.len() && i != j implies g[i] != g[j] by {
            if i < j {
                assert(g[i].1 < g[j].1);
            } else {
                assert(g[j].1 < g[i].1);
            }
        }
    }
    g.lemma_multiset_has_no_duplicates();
    q.lemma_multiset_has_no_duplicates_conv();
    // Later pairs rank strictly higher.
    assert forall|i: int, j: int| 0 <= i < j < d implies #[trigger] outranks(p, q[j].1, q[i].1) && q[i].1 != q[j].1 by {
        assert(pair_le(q[i], q[j]));
        assert(q[i] != q[j]);
        assert(q[i].0 == freq(p, q[i].1) && p.contains(q[i].1));
        assert(q[j].0 == freq(p, q[j].1) && p.contains(q[j].1));
    }
    let ws = words(q);
    assert(ws.no_duplicates()) by {
        assert forall|i: int, j: int| 0 <= i < d && 0 <= j < d && i != j implies ws[i] != ws[j] by {
            if i < j {
                assert(q[i].1 != q[j].1);
            } else {
                assert(q[j].1 != q[i].1);
            }
        }
    }
    // Every selector is the word of some pair.
    assert forall|w: u32| p.contains(w) implies exists|j: int| 0 <= j < d && #[trigger] ws[j] == w by {
        let h = choose|h: int| 0 <= h < g.len() && g[h].1 == w;
        assert(q.contains(g[h]));
        let j = choose|j: int| 0 <= j < d && q[j] == g[h];
        assert(ws[j] == w);
    }
    // The words above the word of pair i are those of the later pairs.
    assert forall|i: int| 0 <= i < d implies #[trigger] above(p, ws[i]).len() == d - 1 - i by {
        let v = ws[i];
        let later = ws.subrange(i + 1, d);
        assert(above(p, v) =~= later.to_set()) by {
            assert forall|w: u32| above(p, v).contains(w) implies later.to_set().contains(w) by {
                assert(p.to_set().contains(w));
                assert(p.contains(w));
                let j = choose|j: int| 0 <= j < d && #[trigger] ws[j] == w;
                if j < i {
                    assert(outranks(p, q[i].1, q[j].1));
                } else if j == i {
                } else {
                    assert(later[j - i - 1] == w);
                }
            }
            assert forall|w: u32| later.to_set().contains(w) implies above(p, v).contains(w) by {
                let k = choose|k: int| 0 <= k < later.len() && later[k] == w;
                assert(ws[i + 1 + k] == w);
                assert(outranks(p, q[i + 1 + k].1, q[i].1));
                assert(p.contains(w));
                assert(p.to_set().contains(w));
            }
        }
        assert(later.no_duplicates()) by {
            assert forall|a: int, b: int| 0 <= a < later.len() && 0 <= b < later.len() && a != b implies later[a] != later[b] by {
                assert(ws[i + 1 + a] != ws[i + 1 + b]);
            }
        }
        later.unique_seq_to_set();
    }
    let start = if d > 256 { d - 256 } else { 0 };
    let top = ws.subrange(start, d);
    assert(top.no_duplicates()) by {
        assert forall|a: int, b: int| 0 <= a < top.len() && 0 <= b < top.len() && a != b implies top[a] != top[b] by {
            assert(ws[start + a] != ws[start + b]);
        }
    }
    assert(top.to_set() =~= top_set(p)) by {
        assert forall|w: u32| top.to_set().contains(w) implies top_set(p).contains(w) by {
            let k = choose|k: int| 0 <= k < top.len() && top[k] == w;
            assert(ws[start + k] == w);
            assert(above(p, ws[start + k]).len() == d - 1 - (start + k));
            assert(p.contains(q[start + k].1));
            assert(p.to_set().contains(w));
        }
        assert forall|w: u32| top_set(p).contains(w) implies top.to_set().contains(w) by {
            assert(p.to_set().contains(w));
            assert(p.contains(w));
            let j = choose|j: int| 0 <= j < d && #[trigger] ws[j] == w;
            assert(above(p, ws[j]).len() == d - 1 - j);
            assert(top[j - start] == w);
        }
    }
}

/// The dictionary of the selectors `values`: count the occurrences of each
/// word on a sorted copy, rank the words by count and word, and keep the
/// last 256 in increasing order.
pub fn top_words(values: Vec<u32>) -> (top: Vec<u32>)
    requires
        values@.len() >= 1,
    ensures
        top@ == dictionary(values@),
{
    let ghost p = values@;
    let mut values = values;
    sort_words(&mut values);
    let ghost vs = values@;
    proof {
        assert forall|v: u32| #[trigger] p.contains(v) <==> vs.contains(v) by {
            assert(p.contains(v) <==> p.to_multiset().count(v) > 0);
            assert(vs.contains(v) <==> vs.to_multiset().count(v) > 0);
        }
    }
    let n = values.len();
    let mut counts: Vec<(usize, u32)> = Vec::new();
    let ghost mut owner: Seq<int> = Seq::empty();
    let mut at: usize = 0;
    while at < n
        invariant
            n == vs.len(),
            values@ == vs,
            vs.to_multiset() == p.to_multiset(),
            forall|a: int, b: int| 0 <= a <= b < vs.len() ==> vs[a] <= vs[b],
            0 <= at <= n,
            owner.len() == at,
            forall|k: int| 0 <= k < at ==> 0 <= #[trigger] owner[k] < counts@.len() && counts@[owner[k]].1 == vs[k],
            forall|i: int| 0 <= i < counts@.len() ==> counts@[i].0 == freq(p, counts@[i].1) && p.contains(#[trigger] counts@[i].1),
            forall|i: int, j: int| 0 <= i < j < counts@.len() ==> counts@[i].1 < counts@[j].1,
            at > 0 ==> forall|i: int| 0 <= i < counts@.len() ==> #[trigger] counts@[i].1 <= vs[at - 1],
            at == 0 ==> counts@.len() == 0,
            0 < at < n ==> vs[at - 1] < vs[at as int],
            forall|v: u32| #[trigger] p.contains(v) <==> vs.contains(v),
        decreases n - at,
    {
        let value = values[at];
        let mut end = at + 1;
        while end < n && values[end] == value
            invariant
                at < end <= n,
                n == vs.len(),
                values@ == vs,
                value == vs[at as int],
                forall|k: int| at <= k < end ==> vs[k] == value,
            decreases n - end,
        {
            end = end + 1;
        }
        proof {
            if at > 0 {
                assert(vs[at - 1] < vs[at as int]);
            }
            lemma_run_prefix(vs, value, at as int, end as int, n as int);
            assert(vs.take(n as int) =~= vs);
            assert(freq(p, value) == end - at);
            assert(vs.contains(value));
            if end < n {
                assert(vs[end - 1] <= vs[end as int]);
            }
        }
        let ghost g0 = counts@;
        counts.push((end - at, value));
        proof {
            let gi = g0.len() as int;
            owner = owner + Seq::new((end - at) as nat, |k: int| gi);
            assert forall|k: int| 0 <= k < end implies 0 <= #[trigger] owner[k] < counts@.len() && counts@[owner[k]].1 == vs[k] by {
                if k < at {
                    assert(counts@[owner[k]] == g0[owner[k]]);
                }
            }
            assert forall|i: int| 0 <= i < counts@.len() implies #[trigger] counts@[i].1 <= vs[end - 1] by {
                if i < gi {
                    assert(g0[i].1 <= vs[at - 1]);
                    assert(vs[at - 1] <= vs[end - 1]);
                }
            }
        }
        at = end;
    }
    let ghost g = counts@;
    proof {
        assert forall|w: u32| p.contains(w) implies exists|i: int| 0 <= i < g.len() && g[i].1 == w by {
            assert(vs.contains(w));
            let k = choose|k: int| 0 <= k < vs.len() && vs[k] == w;
            assert(g[owner[k]].1 == w);
        }
    }
    sort_pairs(&mut counts);
    let ghost q = counts@;
    proof {
        lemma_ranked(p, g, q);
    }
    let d = counts.len();
    let start = if d > 256 { d - 256 } else { 0 };
    let mut top: Vec<u32> = Vec::new();
    let mut i = start;
    while i < d
        invariant
            start <= i <= d,
            d == q.len(),
            counts@ == q,
            top@ == words(q).subrange(start as int, i as int),
        decreases d - i,
    {
        top.push(counts[i].1);
        i = i + 1;
        proof {
            assert(top@ =~= words(q).subrange(start as int, i as int));
        }
    }
    let ghost chosen = top@;
    sort_words(&mut top);
    proof {
        chosen.lemma_multiset_has_no_duplicates();
        top@.lemma_multiset_has_no_duplicates_conv();
        assert(strictly_sorted(top@)) by {
            assert forall|a: int, b: int| 0 <= a < b < top@.len() implies top@[a] < top@[b] by {
                assert(top@[a] != top@[b]);
            }
        }
        assert(top@.to_set() =~= chosen.to_set()) by {
            assert forall|w: u32| top@.to_set().contains(w) <==> chosen.to_set().contains(w) by {
                assert(top@.contains(w) <==> top@.to_multiset().count(w) > 0);
                assert(chosen.contains(w) <==> chosen.to_multiset().count(w) > 0);
            }
        }
        lemma_dictionary(p);
        lemma_sorted_unique(top@, dictionary(p));
    }
    top
}

} // verus!
