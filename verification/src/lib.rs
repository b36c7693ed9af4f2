//! Measures how tightly a set of short texts clusters around a designated
//! center text, without embeddings: a character-frequency vocabulary ranks
//! every character seen in the corpus, each text becomes the set of
//! vocabulary indices of its characters, and the distance between two texts
//! is the size of the symmetric difference of those sets.  The sorted
//! distance collection feeds dispersion statistics (mode, mean, variance,
//! coefficient of variation, kept as exact rationals) and a Jenks
//! natural-breaks search for the partition whose worst bin is tightest.
use vstd::prelude::*;

pub mod jenks;
pub mod text_processing;
pub mod utilities;
pub mod vectorization;

use crate::jenks::get_jenks_classification;
use crate::jenks::optimal_breaks;
use crate::text_processing::blanked_bytes;
use crate::text_processing::PLACEHOLDER;
use crate::text_processing::Processing;
use crate::text_processing::utf8_of;
use crate::utilities::Bin;
use crate::utilities::Classification;
use crate::utilities::classification_wf;
use crate::utilities::counts_match;
use crate::utilities::create_unique_val_mapping;
use crate::utilities::UniqueVal;
use crate::utilities::run_count;
use crate::utilities::seq_max;
use crate::utilities::seq_min;
use crate::utilities::sum_counts_from;
use crate::vectorization::Vectorization;
use crate::vectorization::dt_ok;

verus! {

/// Upper bound on the number of data points the exact-rational statistics
/// accept; keeps every intermediate product inside `u128`.
pub const MAX_POINTS: usize = 0x1000;

/// Upper bound on a single distance value accepted by the statistics;
/// keeps every intermediate product inside `u128`.
pub const MAX_DISTANCE: u64 = 0xffff;

/// How many times `x` occurs in `s`.
pub open spec fn occurrences<A>(s: Seq<A>, x: A) -> nat
    decreases s.len(),
{
    if s.len() == 0 {
        0
    } else {
        occurrences(s.drop_last(), x) + if s.last() == x {
            1nat
        } else {
            0nat
        }
    }
}

/// An element occurs at least once exactly when the sequence contains it.
pub proof fn lemma_occurrences_contains<A>(s: Seq<A>, x: A)
    ensures
        occurrences(s, x) > 0 <==> s.contains(x),
    decreases s.len(),
{
    if s.len() > 0 {
        lemma_occurrences_contains(s.drop_last(), x);
        if s.contains(x) {
            let i = choose|i: int| 0 <= i < s.len() && s[i] == x;
            if i < s.len() - 1 {
                assert(s.drop_last()[i] == x);
            }
        }
        if s.drop_last().contains(x) {
            let i = choose|i: int| 0 <= i < s.len() - 1 && s.drop_last()[i] == x;
            assert(s[i] == x);
        }
    }
}

/// Appending one element adds one occurrence of it and none of anything
/// else.
pub proof fn lemma_occurrences_push<A>(s: Seq<A>, x: A, c: A)
    ensures
        occurrences(s.push(x), c) == occurrences(s, c) + if c == x {
            1nat
        } else {
            0nat
        },
{
    assert(s.push(x).drop_last() =~= s);
    assert(s.push(x).last() == x);
}

/// No value occurs more often than the sequence is long.
pub proof fn lemma_occurrences_le_len<A>(s: Seq<A>, x: A)
    ensures
        occurrences(s, x) <= s.len(),
    decreases s.len(),
{
    if s.len() > 0 {
        lemma_occurrences_le_len(s.drop_last(), x);
    }
}

/// Sum of the values in `s`.
pub open spec fn seq_sum(s: Seq<u64>) -> int
    decreases s.len(),
{
    if s.len() == 0 {
        0
    } else {
        seq_sum(s.drop_last()) + s.last()
    }
}

/// Sum of the squared deviations `(n * s[i] - t)^2`.  With `n` the length
/// of `s` and `t` its sum this is `n^2` times the within-collection sum of
/// squared deviations from the mean, so the population variance of `s` is
/// `sum_sq_dev(s, n, t) / n^3`.
pub open spec fn sum_sq_dev(s: Seq<u64>, n: int, t: int) -> int
    decreases s.len(),
{
    if s.len() == 0 {
        0
    } else {
        sum_sq_dev(s.drop_last(), n, t) + (n * s.last() - t) * (n * s.last() - t)
    }
}

/// The statistics and the classifier work on distance collections whose
/// length and values are small enough that all exact arithmetic fits in
/// `u128`; these are machine limits, far beyond the intended input sizes.
pub open spec fn bounded_data(s: Seq<u64>) -> bool {
    s.len() <= MAX_POINTS && forall|i: int| 0 <= i < s.len() ==> s[i] <= MAX_DISTANCE
}

/// An exact non-negative rational, kept unreduced.
#[derive(Clone, Copy, Debug, PartialEq, Eq, Structural)]
pub struct Ratio {
    pub num: u128,
    pub den: u128,
}

/// Counts how often `x` occurs in `v`.
fn count_occurrences(v: &Vec<u64>, x: u64) -> (c: usize)
    ensures
        c == occurrences(v@, x),
{
    let mut c: usize = 0;
    let mut i: usize = 0;
    while i < v.len()
        invariant
            0 <= i <= v@.len(),
            c == occurrences(v@.subrange(0, i as int), x),
            c <= i,
        decreases v@.len() - i,
    {
        assert(v@.subrange(0, i + 1).drop_last() =~= v@.subrange(0, i as int));
        assert(v@.subrange(0, i + 1).last() == v@[i as int]);
        if v[i] == x {
            c = c + 1;
        }
        i = i + 1;
    }
    assert(v@.subrange(0, v@.len() as int) =~= v@);
    c
}

/// The most frequent value of `v` with its occurrence count, or `None` when
/// `v` is empty.  When several values are tied for the highest count, the
/// one whose first occurrence comes earliest is returned.
pub fn mode(v: &Vec<u64>) -> (r: Option<(u64, i32)>)
    requires
        v@.len() <= 0x7fffffff,
    ensures
        r is None <==> v@.len() == 0,
        r matches Some((m, c)) ==> v@.contains(m) && c == occurrences(v@, m) && forall|x: u64|
            occurrences(v@, x) <= c,
{
    if v.len() == 0 {
        return None;
    }
    let mut best_val: u64 = v[0];
    let mut best_cnt: usize = count_occurrences(v, best_val);
    proof {
        assert(v@.contains(v@[0]));
        lemma_occurrences_contains(v@, v@[0]);
    }
    let mut i: usize = 1;
    while i < v.len()
        invariant
            1 <= i <= v@.len(),
            v@.len() <= 0x7fffffff,
            v@.contains(best_val),
            best_cnt == occurrences(v@, best_val),
            best_cnt >= 1,
            forall|j: int| 0 <= j < i ==> occurrences(v@, v@[j]) <= best_cnt,
        decreases v@.len() - i,
    {
        let c = count_occurrences(v, v[i]);
        if c > best_cnt {
            best_cnt = c;
            best_val = v[i];
            proof {
                assert(v@.contains(v@[i as int]));
            }
        }
        i = i + 1;
    }
    proof {
        assert forall|x: u64| occurrences(v@, x) <= best_cnt by {
            lemma_occurrences_contains(v@, x);
            if occurrences(v@, x) > 0 {
                let j = choose|j: int| 0 <= j < v@.len() && v@[j] == x;
                assert(occurrences(v@, v@[j]) <= best_cnt);
            }
        }
        lemma_occurrences_le_len(v@, best_val);
    }
    Some((best_val, best_cnt as i32))
}

/// Sums `v`; the bound on the data keeps the sum small.
pub(crate) fn sum_vec(v: &Vec<u64>) -> (s: u128)
    requires
        bounded_data(v@),
    ensures
        s == seq_sum(v@),
        s <= 0xfffffff,
{
    let mut s: u128 = 0;
    let mut i: usize = 0;
    while i < v.len()
        invariant
            0 <= i <= v@.len(),
            bounded_data(v@),
            s == seq_sum(v@.subrange(0, i as int)),
            s <= i * (MAX_DISTANCE as int),
        decreases v@.len() - i,
    {
        assert(v@.subrange(0, i + 1).drop_last() =~= v@.subrange(0, i as int));
        s = s + (v[i] as u128);
        i = i + 1;
    }
    assert(v@.subrange(0, v@.len() as int) =~= v@);
    s
}

/// Numerator of the variance of `v` scaled by `n^3`: the sum of the squared
/// deviations `(n * v[i] - t)^2`, with `t` the sum of `v`.
pub(crate) fn sum_sq_dev_vec(v: &Vec<u64>, t: u128) -> (s: u128)
    requires
        bounded_data(v@),
        t == seq_sum(v@),
    ensures
        s == sum_sq_dev(v@, v@.len() as int, t as int),
        s <= 0x1000 * 0x100000000000000,
{
    let n: u128 = v.len() as u128;
    let mut s: u128 = 0;
    let mut i: usize = 0;
    proof {
        assert(t <= 0xfffffff) by {
            lemma_seq_sum_bound(v@);
        }
    }
    while i < v.len()
        invariant
            0 <= i <= v@.len(),
            bounded_data(v@),
            n == v@.len(),
            t == seq_sum(v@),
            t <= 0xfffffff,
            s == sum_sq_dev(v@.subrange(0, i as int), n as int, t as int),
            s <= i * 0x100000000000000,
        decreases v@.len() - i,
    {
        assert(v@.subrange(0, i + 1).drop_last() =~= v@.subrange(0, i as int));
        assert(v@.subrange(0, i + 1).last() == v@[i as int]);
        let x: u128 = v[i] as u128;
        assert(n * x <= 0xffff000) by (nonlinear_arith)
            requires
                0 <= n <= 0x1000,
                0 <= x <= 0xffff,
        ;
        let nx: u128 = n * x;
        let d: u128 = if nx >= t {
            nx - t
        } else {
            t - nx
        };
        assert(d * d == (n * x - t) * (n * x - t) && d * d <= 0x100000000000000) by (nonlinear_arith)
            requires
                d <= 0xfffffff,
                nx == n * x,
                d == if nx >= t { nx - t } else { t - nx },
        ;
        s = s + d * d;
        i = i + 1;
    }
    assert(v@.subrange(0, v@.len() as int) =~= v@);
    s
}

/// The sum of a bounded collection is at most `len * MAX_DISTANCE`.
proof fn lemma_seq_sum_bound(s: Seq<u64>)
    requires
        forall|i: int| 0 <= i < s.len() ==> s[i] <= MAX_DISTANCE,
    ensures
        0 <= seq_sum(s) <= s.len() * (MAX_DISTANCE as int),
    decreases s.len(),
{
    if s.len() > 0 {
        lemma_seq_sum_bound(s.drop_last());
    }
}

/// Arithmetic mean of `v` as the exact rational `sum / len`; absent when
/// `v` is empty.
pub fn mean(v: &Vec<u64>) -> (r: Option<Ratio>)
    requires
        bounded_data(v@),
    ensures
        r is None <==> v@.len() == 0,
        r matches Some(q) ==> q.num == seq_sum(v@) && q.den == v@.len() && 0 < q.den,
{
    if v.len() == 0 {
        return None;
    }
    let s = sum_vec(v);
    Some(Ratio { num: s, den: v.len() as u128 })
}

/// Population variance of `v` (divide by the count, not the count minus
/// one) as the exact rational `sum_sq_dev / len^3`; absent when `v` is
/// empty.  The standard deviation is its square root.
pub fn variance(v: &Vec<u64>) -> (r: Option<Ratio>)
    requires
        bounded_data(v@),
    ensures
        r is None <==> v@.len() == 0,
        r matches Some(q) ==> q.num == sum_sq_dev(v@, v@.len() as int, seq_sum(v@)) && q.den
            == v@.len() * v@.len() * v@.len() && 0 < q.den,
{
    if v.len() == 0 {
        return None;
    }
    let t = sum_vec(v);
    let s = sum_sq_dev_vec(v, t);
    let n: u128 = v.len() as u128;
    assert(n * n <= 0x1000000 && 0 < n * n * n <= 0x1000000000) by (nonlinear_arith)
        requires
            0 < n <= 0x1000,
    ;
    Some(Ratio { num: s, den: n * n * n })
}

/// Squared coefficient of variation, `variance / mean^2`, as the exact
/// rational `sum_sq_dev / (len * sum^2)`; absent when `v` is empty or its
/// mean is zero.
pub(crate) fn discrete_coefficient(v: &Vec<u64>) -> (r: Option<Ratio>)
    requires
        bounded_data(v@),
    ensures
        r is None <==> (v@.len() == 0 || seq_sum(v@) == 0),
        r matches Some(q) ==> q.num == sum_sq_dev(v@, v@.len() as int, seq_sum(v@)) && q.den
            == v@.len() * seq_sum(v@) * seq_sum(v@) && 0 < q.den,
{
    if v.len() == 0 {
        return None;
    }
    let t = sum_vec(v);
    if t == 0 {
        return None;
    }
    let s = sum_sq_dev_vec(v, t);
    let n: u128 = v.len() as u128;
    assert(n <= 0x1000);
    assert(n * t <= 0x1000 * 0xfffffff && 0 < n * t * t <= 0x1000 * 0xfffffff * 0xfffffff)
        by (nonlinear_arith)
        requires
            0 < n <= 0x1000,
            0 < t <= 0xfffffff,
    ;
    Some(Ratio { num: s, den: n * t * t })
}


/// Sum of the counts of the bins before index `j`.
pub open spec fn counts_before(c: Seq<Bin>, j: int) -> int
    decreases j,
{
    if j <= 0 {
        0
    } else {
        counts_before(c, j - 1) + c[j - 1].count
    }
}

proof fn lemma_sum_counts_nonneg(c: Seq<Bin>, j: int)
    ensures
        sum_counts_from(c, j) >= 0,
    decreases c.len() - j,
{
    if 0 <= j < c.len() {
        lemma_sum_counts_nonneg(c, j + 1);
    }
}

/// The counts split at any bin boundary.
proof fn lemma_counts_before_split(c: Seq<Bin>, j: int)
    requires
        0 <= j <= c.len(),
    ensures
        counts_before(c, j) + sum_counts_from(c, j) == sum_counts_from(c, 0),
    decreases j,
{
    if j > 0 {
        lemma_counts_before_split(c, j - 1);
    }
}

/// Ordering of non-negative fractions by cross-multiplication is
/// transitive.
proof fn lemma_frac_le_trans(a: int, b: int, c: int, d: int, e: int, f: int)
    by (nonlinear_arith)
    requires
        b > 0,
        d > 0,
        f > 0,
        a * d <= c * b,
        c * f <= e * d,
    ensures
        a * f <= e * b,
{
}

/// Measures short texts' clustering around a designated center text:
/// distances, dispersion statistics, and the best Jenks partition.
pub struct CFDTCP {
    v: Vectorization,
    p: Processing,
}

impl CFDTCP {
    /// The comparison texts.
    pub closed spec fn texts(self) -> Seq<Seq<char>> {
        self.v.texts()
    }

    /// The recorded center text (after filtering).
    pub closed spec fn center(self) -> Seq<char> {
        self.v.center()
    }

    /// All characters the engine works over.
    pub closed spec fn corpus(self) -> Seq<char> {
        self.v.corpus()
    }

    /// The distance collection computed by the last request.
    pub closed spec fn distances(self) -> Seq<u64> {
        self.v.distances()
    }

    /// Whether a stop-word automaton is installed.
    pub closed spec fn filter_active(self) -> bool {
        self.p.has_automaton()
    }

    /// The stop-word spans the installed filter reports over a haystack.
    pub closed spec fn filter_spans(self, hay: Seq<u8>) -> Seq<(usize, usize)> {
        self.p.spans_for(hay)
    }

    /// A fresh analyzer with no texts and a passthrough filter.
    pub fn new() -> (r: Self)
        ensures
            r.texts().len() == 0,
            r.center().len() == 0,
            !r.filter_active(),
    {
        CFDTCP { v: Vectorization::new(), p: Processing::new() }
    }

    /// A fresh analyzer using the given stop-word filter.
    pub fn new_with_processing(p: Processing) -> (r: Self)
        ensures
            r.texts().len() == 0,
            r.center().len() == 0,
            r.filter_active() == p.has_automaton(),
    {
        CFDTCP { v: Vectorization::new(), p }
    }

    /// Records the center text, stop-word filtered: every byte inside a
    /// span the filter reports is overwritten with the placeholder and
    /// every other byte is kept unchanged in place; without a filter, with
    /// no reported span, or when the blanked bytes no longer form valid
    /// text, the center is recorded unchanged.
    pub fn centor(&mut self, c: String)
        ensures
            final(self).texts() == old(self).texts(),
            final(self).filter_active() == old(self).filter_active(),
            forall|hay: Seq<u8>| final(self).filter_spans(hay) == old(self).filter_spans(hay),
            utf8_of(final(self).center()).len() == utf8_of(c@).len(),
            !old(self).filter_active() ==> final(self).center() == c@,
            old(self).filter_active() ==> ({
                let hay = utf8_of(c@);
                let blanked = blanked_bytes(hay, old(self).filter_spans(hay));
                if vstd::utf8::valid_utf8(blanked) {
                    utf8_of(final(self).center()) == blanked
                } else {
                    final(self).center() == c@
                }
            }),
            old(self).filter_active() && old(self).filter_spans(utf8_of(c@)).len() == 0
                ==> final(self).center() == c@,
    {
        let filtered = self.p.parse(c);
        self.v.centor(filtered);
    }

    /// Records the ordered comparison texts.
    pub fn list(&mut self, list: Vec<String>)
        ensures
            final(self).texts() == list@.map_values(|s: String| s@),
            final(self).center() == old(self).center(),
            final(self).filter_active() == old(self).filter_active(),
    {
        self.v.list(list);
    }

    /// Recomputes and returns the ascending distance collection.  The
    /// corpus and text-count bounds are machine limits of the exact
    /// arithmetic downstream.
    pub fn get_dt(&mut self) -> (r: Vec<u64>)
        requires
            old(self).corpus().len() <= 0xffff,
            old(self).texts().len() <= 0x1000,
        ensures
            final(self).texts() == old(self).texts(),
            final(self).center() == old(self).center(),
            dt_ok(final(self).distances(), old(self).texts(), old(self).center()),
            r@ == final(self).distances(),
            bounded_data(r@),
    {
        self.v.get_dt()
    }

    /// Mode of the distance collection: the most frequent distance and
    /// its count, or `None` when there are no texts.
    pub fn mode(&mut self) -> (r: Option<(u64, i32)>)
        requires
            old(self).corpus().len() <= 0xffff,
            old(self).texts().len() <= 0x1000,
        ensures
            final(self).texts() == old(self).texts(),
            final(self).center() == old(self).center(),
            dt_ok(final(self).distances(), old(self).texts(), old(self).center()),
            r is None <==> old(self).texts().len() == 0,
            r matches Some((m, c)) ==> final(self).distances().contains(m) && c == occurrences(
                final(self).distances(),
                m,
            ) && forall|x: u64| occurrences(final(self).distances(), x) <= c,
    {
        let data = self.v.get_dt();
        mode(&data)
    }

    /// Squared coefficient of variation of the distance collection, as an
    /// exact rational; absent when there are no texts or the mean is
    /// zero.
    pub fn distribution(&mut self) -> (r: Option<Ratio>)
        requires
            old(self).corpus().len() <= 0xffff,
            old(self).texts().len() <= 0x1000,
        ensures
            final(self).texts() == old(self).texts(),
            final(self).center() == old(self).center(),
            dt_ok(final(self).distances(), old(self).texts(), old(self).center()),
            r is None <==> (old(self).texts().len() == 0 || seq_sum(final(self).distances())
                == 0),
            r matches Some(q) ==> {
                let dt = final(self).distances();
                q.num == sum_sq_dev(dt, dt.len() as int, seq_sum(dt)) && q.den == dt.len()
                    * seq_sum(dt) * seq_sum(dt) && 0 < q.den
            },
    {
        let data = self.v.get_dt();
        discrete_coefficient(&data)
    }

    /// The largest per-bin population variance across a classification of
    /// `dt`, as an exact rational; empty bins are skipped and yield no
    /// contribution.
    fn one_jenks_max_variance(dt: &Vec<u64>, res: &Classification) -> (r: Ratio)
        requires
            bounded_data(dt@),
            sum_counts_from(res@, 0) == dt@.len(),
        ensures
            0 < r.den,
            r.num <= 0x1000 * 0x100000000000000,
            r.den <= 0x1000000000,
            forall|j: int|
                0 <= j < res@.len() && (#[trigger] res@[j]).count > 0 ==> ({
                    let lo = counts_before(res@, j);
                    let n = res@[j].count as int;
                    let sl = dt@.subrange(lo, lo + n);
                    sum_sq_dev(sl, n, seq_sum(sl)) * r.den <= r.num * (n * n * n)
                }),
            (r.num == 0 && r.den == 1) || exists|j: int|
                0 <= j < res@.len() && (#[trigger] res@[j]).count > 0 && ({
                    let lo = counts_before(res@, j);
                    let n = res@[j].count as int;
                    let sl = dt@.subrange(lo, lo + n);
                    r.num == sum_sq_dev(sl, n, seq_sum(sl)) && r.den == n * n * n
                }),
    {
        let mut r = Ratio { num: 0, den: 1 };
        let mut start: usize = 0;
        let mut j: usize = 0;
        while j < res.len()
            invariant
                bounded_data(dt@),
                sum_counts_from(res@, 0) == dt@.len(),
                0 <= j <= res@.len(),
                start == counts_before(res@, j as int),
                0 <= start <= dt@.len(),
                0 < r.den,
                r.num <= 0x1000 * 0x100000000000000,
                r.den <= 0x1000000000,
                forall|t: int|
                    0 <= t < j && (#[trigger] res@[t]).count > 0 ==> ({
                        let lo = counts_before(res@, t);
                        let n = res@[t].count as int;
                        let sl = dt@.subrange(lo, lo + n);
                        sum_sq_dev(sl, n, seq_sum(sl)) * r.den <= r.num * (n * n * n)
                    }),
                (r.num == 0 && r.den == 1) || exists|t: int|
                    0 <= t < j && (#[trigger] res@[t]).count > 0 && ({
                        let lo = counts_before(res@, t);
                        let n = res@[t].count as int;
                        let sl = dt@.subrange(lo, lo + n);
                        r.num == sum_sq_dev(sl, n, seq_sum(sl)) && r.den == n * n * n
                    }),
            decreases res@.len() - j,
        {
            proof {
                lemma_counts_before_split(res@, j + 1);
                lemma_sum_counts_nonneg(res@, j + 1);
            }
            let cnt = res[j].count;
            let cnt_us = cnt as usize;
            if cnt_us > 0 {
                let slice = crate::jenks::copy_range(dt, start, start + cnt_us);
                proof {
                    assert(bounded_data(slice@));
                }
                let t = sum_vec(&slice);
                let num = sum_sq_dev_vec(&slice, t);
                let n128: u128 = cnt as u128;
                assert(n128 * n128 <= 0x1000000 && 0 < n128 * n128 * n128 <= 0x1000000000)
                    by (nonlinear_arith)
                    requires
                        0 < n128 <= 0x1000,
                ;
                let den = n128 * n128 * n128;
                let ghost old_r = r;
                assert(num * r.den <= 0x1000 * 0x100000000000000 * 0x1000000000 && r.num * den
                    <= 0x1000 * 0x100000000000000 * 0x1000000000) by (nonlinear_arith)
                    requires
                        num <= 0x1000 * 0x100000000000000,
                        r.num <= 0x1000 * 0x100000000000000,
                        0 < r.den <= 0x1000000000,
                        0 < den <= 0x1000000000,
                ;
                if num * r.den > r.num * den {
                    r = Ratio { num, den };
                    proof {
                        assert forall|t2: int|
                            0 <= t2 < j + 1 && (#[trigger] res@[t2]).count > 0 implies ({
                                let lo = counts_before(res@, t2);
                                let n = res@[t2].count as int;
                                let sl = dt@.subrange(lo, lo + n);
                                sum_sq_dev(sl, n, seq_sum(sl)) * r.den <= r.num * (n * n * n)
                            }) by {
                            if t2 < j {
                                let lo = counts_before(res@, t2);
                                let n = res@[t2].count as int;
                                let sl = dt@.subrange(lo, lo + n);
                                assert(n * n * n > 0) by (nonlinear_arith)
                                    requires
                                        n > 0,
                                ;
                                lemma_frac_le_trans(
                                    sum_sq_dev(sl, n, seq_sum(sl)),
                                    n * n * n,
                                    old_r.num as int,
                                    old_r.den as int,
                                    r.num as int,
                                    r.den as int,
                                );
                            }
                        }
                    }
                } else {
                    proof {
                        assert forall|t2: int|
                            0 <= t2 < j + 1 && (#[trigger] res@[t2]).count > 0 implies ({
                                let lo = counts_before(res@, t2);
                                let n = res@[t2].count as int;
                                let sl = dt@.subrange(lo, lo + n);
                                sum_sq_dev(sl, n, seq_sum(sl)) * r.den <= r.num * (n * n * n)
                            }) by {
                        }
                    }
                }
                start = start + cnt_us;
            } else {
                proof {
                    assert(counts_before(res@, j + 1) == counts_before(res@, j as int));
                }
            }
            j = j + 1;
        }
        r
    }

    /// Searches candidate bin counts from 1 up to `num_bins` (clamped to
    /// the number of distinct distances) and returns the count whose
    /// classification has the smallest maximum per-bin variance, ties
    /// going to the smaller count, together with that classification.
    /// `None` when there are no texts or no candidate was requested.
    #[verifier::rlimit(80)]
    pub fn jenks_classify(&mut self, num_bins: usize) -> (r: Option<(usize, Classification)>)
        requires
            old(self).corpus().len() <= 0xffff,
            old(self).texts().len() <= 0x1000,
        ensures
            final(self).texts() == old(self).texts(),
            final(self).center() == old(self).center(),
            dt_ok(final(self).distances(), old(self).texts(), old(self).center()),
            r is None <==> (old(self).texts().len() == 0 || num_bins == 0),
            r matches Some((n, c)) ==> {
                &&& 1 <= n <= num_bins
                &&& n <= run_count(final(self).distances())
                &&& run_count(final(self).distances()) == 1 ==> n == 1
                &&& c@.len() == n
                &&& classification_wf(c@)
                &&& c@[0].bin_start == seq_min(final(self).distances())
                &&& c@[c@.len() - 1].bin_end == seq_max(final(self).distances())
                &&& counts_match(c@, final(self).distances())
                &&& sum_counts_from(c@, 0) == final(self).distances().len()
                &&& forall|i: int| 0 <= i < c@.len() ==> (#[trigger] c@[i].count) >= 1
                &&& exists|mp: Seq<UniqueVal>, bs: Seq<int>|
                    optimal_breaks(final(self).distances(), c@, mp, bs)
            },
    {
        let data = self.v.get_dt();
        if data.len() == 0 || num_bins == 0 {
            return None;
        }
        let mut map: Vec<UniqueVal> = Vec::new();
        create_unique_val_mapping(&mut map, &data);
        let u = map.len();
        proof {
            crate::jenks::lemma_run_first_ge_index(map@, u - 1);
            assert(u <= data@.len());
        }
        let kmax = if num_bins < u {
            num_bins
        } else {
            u
        };
        let mut best = match get_jenks_classification(1, &data) {
            Ok(c) => c,
            Err(_) => {
                proof {
                    assert(false);
                }
                return None;
            },
        };
        let mut best_var = Self::one_jenks_max_variance(&data, &best);
        let mut best_n: usize = 1;
        let mut k: usize = 2;
        while k <= kmax
            invariant
                2 <= k <= kmax + 1,
                1 <= kmax <= u <= 0x1000,
                u == run_count(data@),
                kmax <= num_bins,
                bounded_data(data@),
                forall|p: int, q: int| 0 <= p <= q < data@.len() ==> data@[p] <= data@[q],
                data@.len() > 0,
                1 <= best_n < k,
                best_n <= kmax,
                best@.len() == best_n,
                classification_wf(best@),
                best@[0].bin_start == seq_min(data@),
                best@[best@.len() - 1].bin_end == seq_max(data@),
                counts_match(best@, data@),
                sum_counts_from(best@, 0) == data@.len(),
                forall|i: int| 0 <= i < best@.len() ==> (#[trigger] best@[i].count) >= 1,
                exists|mp: Seq<UniqueVal>, bs: Seq<int>| optimal_breaks(data@, best@, mp, bs),
                0 < best_var.den <= 0x1000000000,
                best_var.num <= 0x1000 * 0x100000000000000,
            decreases kmax + 1 - k,
        {
            let class = match get_jenks_classification(k, &data) {
                Ok(c) => c,
                Err(_) => {
                    proof {
                        assert(false);
                    }
                    return None;
                },
            };
            let var = Self::one_jenks_max_variance(&data, &class);
            assert(var.num * best_var.den <= 0x1000 * 0x100000000000000 * 0x1000000000
                && best_var.num * var.den <= 0x1000 * 0x100000000000000 * 0x1000000000)
                by (nonlinear_arith)
                requires
                    var.num <= 0x1000 * 0x100000000000000,
                    best_var.num <= 0x1000 * 0x100000000000000,
                    0 < var.den <= 0x1000000000,
                    0 < best_var.den <= 0x1000000000,
            ;
            if var.num * best_var.den < best_var.num * var.den {
                best_var = var;
                best_n = k;
                best = class;
            }
            k = k + 1;
        }
        Some((best_n, best))
    }


    /// Present for interface compatibility; the engine rebuilds all state
    /// on every request, so there is nothing to clear.
    pub fn clear(&mut self)
        ensures
            *final(self) == *old(self),
    {
    }
}

} // verus!
