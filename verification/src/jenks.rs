//! Jenks natural-breaks classifier: compresses sorted data into
//! unique-value runs, searches for break points over the compressed
//! sequence by dynamic programming on a fixed-point within-bin cost, and
//! expands the chosen breaks back into a counted classification.
use vstd::prelude::*;

use crate::bounded_data;
use crate::sum_sq_dev;
use crate::sum_sq_dev_vec;
use crate::sum_vec;
use crate::seq_sum;
use crate::utilities::Bin;
use crate::utilities::Classification;
use crate::utilities::UniqueVal;
use crate::utilities::breaks_to_classification;
use crate::utilities::classification_wf;
use crate::utilities::counts_match;
use crate::utilities::create_unique_val_mapping;
use crate::utilities::in_bin;
use crate::utilities::lemma_count_in_pos;
use crate::utilities::lemma_min_max_bounds;
use crate::utilities::run_count;
use crate::utilities::seq_max;
use crate::utilities::seq_min;
use crate::utilities::sum_counts_from;
use crate::utilities::unique_runs_ok;
use crate::utilities::unique_to_normal_breaks;

verus! {

/// Why a classification request was rejected.
#[derive(Clone, Copy, Debug, PartialEq, Eq, Structural)]
pub enum JenksError {
    /// The data collection is empty.
    EmptyInput,
    /// The requested bin count is below 1 or exceeds the number of
    /// distinct values, so no partition into that many non-empty bins
    /// exists.
    OutOfRangeBin,
}

/// Fixed-point scale applied to every within-bin cost.
pub const COST_SCALE: u128 = 0x10000000000;

/// Upper bound on a single scaled within-bin cost.
pub const COST_MAX: u128 = 0x1000000000000000000000000000;

/// The within-bin cost of a data slice: its sum of squared deviations from
/// the slice mean, scaled by `COST_SCALE` and rounded down.  The dynamic
/// program minimizes the total of these costs over the bins.
pub open spec fn scaled_cost(s: Seq<u64>) -> int {
    sum_sq_dev(s, s.len() as int, seq_sum(s)) * COST_SCALE / (s.len() * s.len()) as int
}

/// Scaled within-bin cost of the single bin covering unique runs
/// `a..=b`.
pub open spec fn seg_cost(data: Seq<u64>, m: Seq<UniqueVal>, a: int, b: int) -> int {
    scaled_cost(data.subrange(m[a].first as int, m[b].last + 1))
}

/// Total scaled cost of partitioning runs `0..=j`, each interior break
/// being the run index where the next bin starts, ascending.
pub open spec fn breaks_cost(data: Seq<u64>, m: Seq<UniqueVal>, bs: Seq<int>, j: int) -> int
    decreases bs.len(),
{
    if bs.len() == 0 {
        seg_cost(data, m, 0, j)
    } else {
        breaks_cost(data, m, bs.drop_last(), bs.last() - 1) + seg_cost(data, m, bs.last(), j)
    }
}

/// Ascending interior break points partitioning `u` runs into
/// `bs.len() + 1` contiguous non-empty bins.
pub open spec fn valid_breaks(bs: Seq<int>, u: int) -> bool {
    &&& forall|t: int| 0 <= t < bs.len() ==> 1 <= #[trigger] bs[t] <= u - 1
    &&& forall|t: int| 0 <= t < bs.len() - 1 ==> #[trigger] bs[t] < bs[t + 1]
}

/// Minimal total cost of covering runs `0..=j` with exactly `k` bins, by
/// the classic one-more-bin recurrence.
spec fn opt_cost(data: Seq<u64>, m: Seq<UniqueVal>, k: int, j: int) -> int
    decreases k, j + 1,
{
    if k <= 1 || j < k - 1 {
        seg_cost(data, m, 0, j)
    } else {
        opt_from(data, m, k, k - 1, j)
    }
}

/// Minimum over the choices of the last bin's start `s` in `[i, j]` of
/// covering runs `0..=s-1` with `k - 1` bins plus the last bin `s..=j`.
spec fn opt_from(data: Seq<u64>, m: Seq<UniqueVal>, k: int, i: int, j: int) -> int
    decreases k, j - i,
        when k >= 2 && 1 <= i <= j
{
    let c = opt_cost(data, m, k - 1, i - 1) + seg_cost(data, m, i, j);
    if i >= j {
        c
    } else {
        let rest = opt_from(data, m, k, i + 1, j);
        if c <= rest {
            c
        } else {
            rest
        }
    }
}

/// Cost of the segments fixed so far during back-pointer reconstruction:
/// `br` holds the bin starts in descending order, the first covering up to
/// `hi`.
spec fn rev_cost(data: Seq<u64>, m: Seq<UniqueVal>, br: Seq<int>, hi: int) -> int
    decreases br.len(),
{
    if br.len() == 0 {
        0
    } else {
        seg_cost(data, m, br[0], hi) + rev_cost(data, m, br.drop_first(), br[0] - 1)
    }
}

/// The recurrence minimum never exceeds the cost through any admissible
/// last-bin start.
proof fn lemma_opt_from_le(data: Seq<u64>, m: Seq<UniqueVal>, k: int, i: int, j: int, s: int)
    requires
        k >= 2,
        1 <= i <= s <= j,
    ensures
        opt_from(data, m, k, i, j) <= opt_cost(data, m, k - 1, s - 1) + seg_cost(data, m, s, j),
    decreases s - i,
{
    if i < s {
        lemma_opt_from_le(data, m, k, i + 1, j, s);
    }
}

/// The recurrence minimum is attained at some admissible last-bin start.
proof fn lemma_opt_from_attained(data: Seq<u64>, m: Seq<UniqueVal>, k: int, i: int, j: int)
    requires
        k >= 2,
        1 <= i <= j,
    ensures
        exists|s: int|
            i <= s <= j && opt_from(data, m, k, i, j) == opt_cost(data, m, k - 1, s - 1)
                + seg_cost(data, m, s, j),
    decreases j - i,
{
    let c = opt_cost(data, m, k - 1, i - 1) + seg_cost(data, m, i, j);
    if i >= j {
        assert(opt_from(data, m, k, i, j) == c);
    } else {
        lemma_opt_from_attained(data, m, k, i + 1, j);
        if c <= opt_from(data, m, k, i + 1, j) {
            assert(opt_from(data, m, k, i, j) == c);
        } else {
            let s = choose|s: int|
                i + 1 <= s <= j && opt_from(data, m, k, i + 1, j) == opt_cost(data, m, k - 1, s - 1)
                    + seg_cost(data, m, s, j);
            assert(opt_from(data, m, k, i, j) == opt_cost(data, m, k - 1, s - 1) + seg_cost(
                data,
                m,
                s,
                j,
            ));
        }
    }
}

/// In an ascending break sequence starting at 1 or above, the break at
/// index `t` is at least `t + 1`.
proof fn lemma_breaks_ge_index(bs: Seq<int>, t: int)
    requires
        forall|q: int| 0 <= q < bs.len() ==> 1 <= #[trigger] bs[q],
        forall|q: int| 0 <= q < bs.len() - 1 ==> #[trigger] bs[q] < bs[q + 1],
        0 <= t < bs.len(),
    ensures
        bs[t] >= t + 1,
    decreases t,
{
    if t > 0 {
        lemma_breaks_ge_index(bs, t - 1);
    }
}

/// The recurrence minimum is a lower bound on the cost of every
/// partition.
#[verifier::rlimit(60)]
proof fn lemma_opt_le_breaks(data: Seq<u64>, m: Seq<UniqueVal>, bs: Seq<int>, j: int)
    requires
        forall|t: int| 0 <= t < bs.len() ==> 1 <= #[trigger] bs[t] <= j,
        forall|t: int| 0 <= t < bs.len() - 1 ==> #[trigger] bs[t] < bs[t + 1],
    ensures
        opt_cost(data, m, bs.len() as int + 1, j) <= breaks_cost(data, m, bs, j),
    decreases bs.len(),
{
    if bs.len() == 0 {
    } else {
        let s = bs.last();
        let front = bs.drop_last();
        lemma_breaks_ge_index(bs, bs.len() - 1);
        assert(forall|q: int| 0 <= q < front.len() ==> front[q] == bs[q]);
        assert forall|q: int| 0 <= q < front.len() implies 1 <= #[trigger] front[q] <= s - 1 by {
            assert(front[q] == bs[q]);
            assert(bs[q] < bs[q + 1]);
            lemma_increasing_le_last(bs, q + 1);
        }
        lemma_opt_le_breaks(data, m, front, s - 1);
        lemma_opt_from_le(data, m, bs.len() as int + 1, bs.len() as int, j, s);
    }
}

/// In an ascending sequence every element is at most the last.
proof fn lemma_increasing_le_last(bs: Seq<int>, q: int)
    requires
        forall|t: int| 0 <= t < bs.len() - 1 ==> #[trigger] bs[t] < bs[t + 1],
        0 <= q < bs.len(),
    ensures
        bs[q] <= bs[bs.len() - 1],
    decreases bs.len() - q,
{
    if q < bs.len() - 1 {
        lemma_increasing_le_last(bs, q + 1);
    }
}

/// Appending one more (smaller) bin start to the reconstruction's
/// descending list adds exactly that bin's segment cost.
proof fn lemma_rev_cost_push(data: Seq<u64>, m: Seq<UniqueVal>, br: Seq<int>, b: int, hi: int)
    ensures
        rev_cost(data, m, br.push(b), hi) == rev_cost(data, m, br, hi) + seg_cost(
            data,
            m,
            b,
            if br.len() > 0 {
                br[br.len() - 1] - 1
            } else {
                hi
            },
        ),
    decreases br.len(),
{
    if br.len() == 0 {
        assert(br.push(b)[0] == b);
        assert(br.push(b).drop_first() =~= Seq::<int>::empty());
        assert(rev_cost(data, m, br.push(b).drop_first(), b - 1) == 0);
        assert(rev_cost(data, m, br, hi) == 0);
    } else {
        assert(br.push(b)[0] == br[0]);
        assert(br.push(b).drop_first() =~= br.drop_first().push(b));
        lemma_rev_cost_push(data, m, br.drop_first(), b, br[0] - 1);
        if br.len() > 1 {
            assert(br.drop_first()[br.len() - 2] == br[br.len() - 1]);
        } else {
            assert(br.drop_first().len() == 0);
        }
        assert(rev_cost(data, m, br.push(b), hi) == seg_cost(data, m, br[0], hi) + rev_cost(
            data,
            m,
            br.push(b).drop_first(),
            br[0] - 1,
        ));
        assert(rev_cost(data, m, br, hi) == seg_cost(data, m, br[0], hi) + rev_cost(
            data,
            m,
            br.drop_first(),
            br[0] - 1,
        ));
    }
}

/// The ascending break list read off a descending reconstruction list has
/// the fixed segments' cost plus the head segment's.
proof fn lemma_asc_cost(data: Seq<u64>, m: Seq<UniqueVal>, br: Seq<int>, asc: Seq<int>, hi: int)
    requires
        asc.len() == br.len(),
        forall|q: int| 0 <= q < asc.len() ==> #[trigger] asc[q] == br[br.len() - 1 - q],
    ensures
        breaks_cost(data, m, asc, hi) == rev_cost(data, m, br, hi) + seg_cost(
            data,
            m,
            0,
            if br.len() > 0 {
                br[br.len() - 1] - 1
            } else {
                hi
            },
        ),
    decreases br.len(),
{
    if br.len() > 0 {
        assert(asc.last() == br[0]);
        let front = asc.drop_last();
        let rest = br.drop_first();
        assert(front.len() == rest.len());
        assert forall|q: int| 0 <= q < front.len() implies #[trigger] front[q] == rest[rest.len()
            - 1 - q] by {
            assert(front[q] == asc[q]);
            assert(rest[rest.len() - 1 - q] == br[br.len() - 1 - q]);
        }
        lemma_asc_cost(data, m, rest, front, br[0] - 1);
        if br.len() > 1 {
            assert(rest[rest.len() - 1] == br[br.len() - 1]);
        }
    }
}

/// Copies `data[lo..hi]` into a fresh vector.
pub(crate) fn copy_range(data: &Vec<u64>, lo: usize, hi: usize) -> (r: Vec<u64>)
    requires
        lo <= hi <= data@.len(),
    ensures
        r@ == data@.subrange(lo as int, hi as int),
{
    let mut r: Vec<u64> = Vec::new();
    let mut i: usize = lo;
    while i < hi
        invariant
            lo <= i <= hi <= data@.len(),
            r@ == data@.subrange(lo as int, i as int),
        decreases hi - i,
    {
        r.push(data[i]);
        proof {
            assert(data@.subrange(lo as int, i + 1) =~= data@.subrange(lo as int, i as int).push(
                data@[i as int],
            ));
        }
        i = i + 1;
    }
    r
}

/// Scaled within-bin cost of `data[lo..hi]`.
fn bin_cost(data: &Vec<u64>, lo: usize, hi: usize) -> (c: u128)
    requires
        bounded_data(data@),
        lo < hi <= data@.len(),
    ensures
        c == scaled_cost(data@.subrange(lo as int, hi as int)),
        c <= COST_MAX,
{
    let slice = copy_range(data, lo, hi);
    let t = sum_vec(&slice);
    let vn = sum_sq_dev_vec(&slice, t);
    let n: u128 = slice.len() as u128;
    assert(n * n >= 1 && n * n <= 0x1000000) by (nonlinear_arith)
        requires
            1 <= n <= 0x1000,
    ;
    let c = (vn * COST_SCALE) / (n * n);
    proof {
        assert(c <= vn * COST_SCALE);
        assert(vn * COST_SCALE <= 0x1000 * 0x100000000000000 * COST_SCALE);
    }
    c
}

/// End (exclusive, in original indices) of the prefix made of the first
/// `b` unique-value runs.
fn run_prefix_end(map: &Vec<UniqueVal>, vals_len: usize, b: usize) -> (e: usize)
    requires
        0 < b <= map@.len(),
        forall|i: int| 0 <= i < map@.len() ==> (#[trigger] map@[i].first) <= map@[i].last
            < vals_len,
        forall|i: int| 0 <= i < map@.len() - 1 ==> (#[trigger] map@[i].last) + 1 == map@[i
            + 1].first,
        map@.len() > 0 ==> map@[map@.len() - 1].last == vals_len - 1,
    ensures
        e == if b == map@.len() {
            vals_len as int
        } else {
            map@[b as int].first as int
        },
        map@[b - 1].last + 1 == e,
{
    if b == map.len() {
        vals_len
    } else {
        map[b].first
    }
}

/// The classification's interior boundaries sit at the unique-value runs
/// `bs`, and no other partition of the runs into as many contiguous
/// non-empty bins has a smaller total scaled within-bin cost.
pub open spec fn optimal_breaks(data: Seq<u64>, c: Seq<Bin>, mp: Seq<UniqueVal>, bs: Seq<int>) -> bool {
    &&& unique_runs_ok(mp, data)
    &&& bs.len() + 1 == c.len()
    &&& valid_breaks(bs, mp.len() as int)
    &&& forall|t: int| 0 <= t < bs.len() ==> (#[trigger] c[t].bin_end) == mp[bs[t]].val
    &&& forall|bs2: Seq<int>|
        bs2.len() == bs.len() && valid_breaks(bs2, mp.len() as int) ==> breaks_cost(
            data,
            mp,
            bs,
            mp.len() - 1,
        ) <= #[trigger] breaks_cost(data, mp, bs2, mp.len() - 1)
}

/// Packages the reconstruction's results: the ascending break list read
/// off the back-pointer walk is a minimal-cost partition witness for the
/// returned classification.
#[verifier::rlimit(60)]
proof fn lemma_optimal_witness(
    data: Seq<u64>,
    m: Seq<UniqueVal>,
    u: int,
    k: int,
    breaks_rev: Seq<usize>,
    brev_int: Seq<int>,
    u_breaks: Seq<usize>,
    break_vals: Seq<u64>,
    c: Seq<Bin>,
    jj: int,
    fixed: int,
)
    requires
        u == m.len(),
        0 < k <= u,
        brev_int.len() == breaks_rev.len(),
        breaks_rev.len() == k - 1,
        forall|q: int| 0 <= q < brev_int.len() ==> (#[trigger] brev_int[q]) == breaks_rev[
            q
        ] as int,
        forall|q: int| 0 <= q < breaks_rev.len() ==> 1 <= (#[trigger] breaks_rev[q]) < u,
        forall|q: int| 0 <= q < breaks_rev.len() - 1 ==> (#[trigger] breaks_rev[q]) > breaks_rev[
            q + 1
        ],
        breaks_rev.len() > 0 ==> jj + 1 == breaks_rev[breaks_rev.len() - 1],
        breaks_rev.len() == 0 ==> jj == u - 1,
        fixed == rev_cost(data, m, brev_int, u - 1),
        seg_cost(data, m, 0, jj) + fixed == opt_cost(data, m, k, u - 1),
        u_breaks.len() == breaks_rev.len(),
        forall|q: int| 0 <= q < u_breaks.len() ==> (#[trigger] u_breaks[q]) == breaks_rev[
            breaks_rev.len() - 1 - q
        ],
        break_vals.len() == u_breaks.len(),
        forall|q: int| 0 <= q < u_breaks.len() ==> (#[trigger] break_vals[q]) == m[u_breaks[
            q
        ] as int].val,
        unique_runs_ok(m, data),
        c.len() == k,
        forall|t: int| 0 <= t < break_vals.len() ==> (#[trigger] c[t].bin_end) == break_vals[t],
    ensures
        exists|mp: Seq<UniqueVal>, bs: Seq<int>| optimal_breaks(data, c, mp, bs),
{
    let bs_int = u_breaks.map_values(|x: usize| x as int);
    assert(bs_int.len() == brev_int.len());
    assert forall|q: int| 0 <= q < bs_int.len() implies (#[trigger] bs_int[q]) == brev_int[
        brev_int.len() - 1 - q
    ] by {
        assert(bs_int[q] == u_breaks[q] as int);
        assert(u_breaks[q] == breaks_rev[breaks_rev.len() - 1 - q]);
    }
    lemma_asc_cost(data, m, brev_int, bs_int, u - 1);
    if brev_int.len() > 0 {
        assert(brev_int[brev_int.len() - 1] == jj + 1);
    }
    assert(breaks_cost(data, m, bs_int, u - 1) == rev_cost(data, m, brev_int, u - 1) + seg_cost(
        data,
        m,
        0,
        jj,
    ));
    assert(breaks_cost(data, m, bs_int, u - 1) == opt_cost(data, m, k, u - 1));
    assert forall|t: int| 0 <= t < bs_int.len() - 1 implies (#[trigger] bs_int[t]) < bs_int[
        t + 1
    ] by {
        assert(u_breaks[t] == breaks_rev[breaks_rev.len() - 1 - t]);
        assert(u_breaks[t + 1] == breaks_rev[breaks_rev.len() - 2 - t]);
        assert(breaks_rev[breaks_rev.len() - 2 - t] > breaks_rev[breaks_rev.len() - 1 - t]);
    }
    assert(valid_breaks(bs_int, u));
    assert forall|bs2: Seq<int>|
        bs2.len() == bs_int.len() && valid_breaks(bs2, u) implies breaks_cost(
        data,
        m,
        bs_int,
        u - 1,
    ) <= #[trigger] breaks_cost(data, m, bs2, u - 1) by {
        lemma_opt_le_breaks(data, m, bs2, u - 1);
    }
    assert forall|t: int| 0 <= t < bs_int.len() implies (#[trigger] c[t].bin_end) == m[bs_int[
        t
    ]].val by {
        assert(c[t].bin_end == break_vals[t]);
        assert(break_vals[t] == m[u_breaks[t] as int].val);
    }
    assert(optimal_breaks(data, c, m, bs_int));
}

/// Partitions the sorted collection `data` into `num_bins` bins at
/// unique-value boundaries, choosing the break points that minimize the
/// total scaled within-bin cost, and returns the counted classification.
/// Rejects an empty collection and a bin count below 1 or above the number
/// of distinct values.
#[verifier::rlimit(100)]
pub fn get_jenks_classification(num_bins: usize, data: &Vec<u64>) -> (r: Result<
    Classification,
    JenksError,
>)
    requires
        bounded_data(data@),
        forall|p: int, q: int| 0 <= p <= q < data@.len() ==> data@[p] <= data@[q],
    ensures
        r is Ok <==> (data@.len() > 0 && 1 <= num_bins <= run_count(data@)),
        r matches Err(e) ==> (e is EmptyInput <==> data@.len() == 0),
        r matches Ok(c) ==> {
            &&& c@.len() == num_bins
            &&& classification_wf(c@)
            &&& c@[0].bin_start == seq_min(data@)
            &&& c@[c@.len() - 1].bin_end == seq_max(data@)
            &&& counts_match(c@, data@)
            &&& sum_counts_from(c@, 0) == data@.len()
            &&& forall|i: int| 0 <= i < c@.len() ==> (#[trigger] c@[i].count) >= 1
            &&& exists|mp: Seq<UniqueVal>, bs: Seq<int>| optimal_breaks(data@, c@, mp, bs)
        },
{
    if data.len() == 0 {
        return Err(JenksError::EmptyInput);
    }
    let mut map: Vec<UniqueVal> = Vec::new();
    create_unique_val_mapping(&mut map, data);
    let u = map.len();
    if num_bins < 1 || num_bins > u {
        return Err(JenksError::OutOfRangeBin);
    }
    proof {
        lemma_run_first_ge_index(map@, u - 1);
        assert(u <= data@.len());
    }

    // Row of the dynamic program for one bin: cost of covering the first
    // `j + 1` runs with a single bin.
    let mut prev: Vec<u128> = Vec::new();
    let mut j: usize = 0;
    while j < u
        invariant
            0 <= j <= u,
            u == map@.len(),
            bounded_data(data@),
            data@.len() > 0,
            unique_runs_ok(map@, data@),
            prev@.len() == j,
            forall|t: int| 0 <= t < j ==> (#[trigger] prev@[t]) <= COST_MAX,
            forall|t: int| 0 <= t < j ==> (#[trigger] prev@[t]) == opt_cost(data@, map@, 1, t),
        decreases u - j,
    {
        let e = run_prefix_end(&map, data.len(), j + 1);
        let c = bin_cost(data, 0, e);
        proof {
            assert(map@[0].first == 0);
            assert(c == seg_cost(data@, map@, 0, j as int));
            assert(opt_cost(data@, map@, 1, j as int) == seg_cost(data@, map@, 0, j as int));
        }
        prev.push(c);
        j = j + 1;
    }

    // Rows for two bins and more; `back[m - 2][j]` records the run index
    // where the last bin starts in the best split found for `m` bins over
    // the first `j + 1` runs.
    let mut backs: Vec<Vec<usize>> = Vec::new();
    let mut m: usize = 2;
    while m <= num_bins
        invariant
            2 <= m <= num_bins + 1,
            num_bins <= u <= 0x1000,
            u == map@.len(),
            bounded_data(data@),
            data@.len() > 0,
            unique_runs_ok(map@, data@),
            prev@.len() == u,
            forall|t: int| 0 <= t < u ==> (#[trigger] prev@[t]) <= (m - 1) * COST_MAX,
            forall|t: int| m - 2 <= t < u ==> (#[trigger] prev@[t]) == opt_cost(
                data@,
                map@,
                m - 1,
                t,
            ),
            backs@.len() == m - 2,
            forall|t: int| 0 <= t < m - 2 ==> (#[trigger] backs@[t]).len() == u,
            forall|t: int, q: int|
                0 <= t < m - 2 && t + 1 <= q < u ==> t + 1 <= (#[trigger] backs@[t][q]) <= q,
            forall|t: int, q: int|
                0 <= t < m - 2 && t + 1 <= q < u ==> opt_cost(
                    data@,
                    map@,
                    t + 1,
                    (#[trigger] backs@[t][q]) as int - 1,
                ) + seg_cost(data@, map@, backs@[t][q] as int, q) == opt_cost(
                    data@,
                    map@,
                    t + 2,
                    q,
                ),
        decreases num_bins + 1 - m,
    {
        let mut cur: Vec<u128> = Vec::new();
        let mut row: Vec<usize> = Vec::new();
        let mut j: usize = 0;
        while j < u
            invariant
                0 <= j <= u,
                2 <= m <= u <= 0x1000,
                u == map@.len(),
                bounded_data(data@),
                data@.len() > 0,
                unique_runs_ok(map@, data@),
                prev@.len() == u,
                forall|t: int| 0 <= t < u ==> (#[trigger] prev@[t]) <= (m - 1) * COST_MAX,
                forall|t: int| m - 2 <= t < u ==> (#[trigger] prev@[t]) == opt_cost(
                    data@,
                    map@,
                    m - 1,
                    t,
                ),
                cur@.len() == j,
                row@.len() == j,
                forall|t: int| 0 <= t < j ==> (#[trigger] cur@[t]) <= m * COST_MAX,
                forall|t: int| m - 1 <= t < j ==> (#[trigger] cur@[t]) == opt_cost(
                    data@,
                    map@,
                    m as int,
                    t,
                ),
                forall|q: int| m - 1 <= q < j ==> m - 1 <= (#[trigger] row@[q]) <= q,
                forall|q: int| m - 1 <= q < j ==> opt_cost(
                    data@,
                    map@,
                    m - 1,
                    (#[trigger] row@[q]) as int - 1,
                ) + seg_cost(data@, map@, row@[q] as int, q) == opt_cost(data@, map@, m as int, q),
            decreases u - j,
        {
            if j < m - 1 {
                // Too few runs for `m` non-empty bins; never read back.
                cur.push(0);
                row.push(j);
            } else {
                let e = run_prefix_end(&map, data.len(), j + 1);
                proof {
                    lemma_run_indices_increase(map@, m - 1, j as int);
                }
                let mut best_i: usize = m - 1;
                let first_cost = bin_cost(data, map[m - 1].first, e);
                proof {
                    assert(first_cost == seg_cost(data@, map@, m - 1, j as int));
                }
                let mut best_c: u128 = prev[m - 2] + first_cost;
                let mut i: usize = m;
                while i <= j
                    invariant
                        m <= i <= j + 1,
                        m - 1 <= best_i <= j,
                        2 <= m <= u <= 0x1000,
                        j < u == map@.len(),
                        bounded_data(data@),
                        data@.len() > 0,
                        unique_runs_ok(map@, data@),
                        prev@.len() == u,
                        forall|t: int| 0 <= t < u ==> (#[trigger] prev@[t]) <= (m - 1)
                            * COST_MAX,
                        forall|t: int| m - 2 <= t < u ==> (#[trigger] prev@[t]) == opt_cost(
                            data@,
                            map@,
                            m - 1,
                            t,
                        ),
                        e == if j + 1 == u {
                            data@.len() as int
                        } else {
                            map@[j + 1].first as int
                        },
                        map@[j as int].last + 1 == e,
                        best_c <= m * COST_MAX,
                        forall|s: int| m - 1 <= s < i ==> best_c <= opt_cost(
                            data@,
                            map@,
                            m - 1,
                            s - 1,
                        ) + #[trigger] seg_cost(data@, map@, s, j as int),
                        best_c == opt_cost(data@, map@, m - 1, best_i as int - 1) + seg_cost(
                            data@,
                            map@,
                            best_i as int,
                            j as int,
                        ),
                    decreases j + 1 - i,
                {
                    proof {
                        lemma_run_indices_increase(map@, i as int, j as int);
                    }
                    let step_cost = bin_cost(data, map[i].first, e);
                    proof {
                        assert(step_cost == seg_cost(data@, map@, i as int, j as int));
                    }
                    let cand = prev[i - 1] + step_cost;
                    if cand < best_c {
                        best_c = cand;
                        best_i = i;
                    }
                    i = i + 1;
                }
                proof {
                    lemma_opt_from_attained(data@, map@, m as int, m - 1, j as int);
                    let s0 = choose|s: int|
                        m - 1 <= s <= j && opt_from(data@, map@, m as int, m - 1, j as int)
                            == opt_cost(data@, map@, m - 1, s - 1) + seg_cost(
                            data@,
                            map@,
                            s,
                            j as int,
                        );
                    assert(best_c <= opt_cost(data@, map@, m - 1, s0 - 1) + seg_cost(
                        data@,
                        map@,
                        s0,
                        j as int,
                    ));
                    lemma_opt_from_le(data@, map@, m as int, m - 1, j as int, best_i as int);
                    assert(best_c == opt_from(data@, map@, m as int, m - 1, j as int));
                    assert(opt_cost(data@, map@, m as int, j as int) == best_c);
                }
                cur.push(best_c);
                row.push(best_i);
            }
            j = j + 1;
        }
        prev = cur;
        backs.push(row);
        m = m + 1;
    }

    // Walk the recorded splits backwards to recover the run indices where
    // bins start, then turn them into interior break values.
    let mut breaks_rev: Vec<usize> = Vec::new();
    let mut jj: usize = u - 1;
    let mut mm: usize = num_bins;
    let ghost mut fixed: int = 0;
    let ghost mut brev_int: Seq<int> = Seq::empty();
    while mm >= 2
        invariant
            1 <= mm <= num_bins,
            mm - 1 <= jj < u,
            u == map@.len(),
            backs@.len() == num_bins - 1 >= mm - 1,
            forall|t: int| 0 <= t < num_bins - 1 ==> (#[trigger] backs@[t]).len() == u,
            forall|t: int, q: int|
                0 <= t < num_bins - 1 && t + 1 <= q < u ==> t + 1 <= (#[trigger] backs@[t][q])
                    <= q,
            forall|t: int, q: int|
                0 <= t < num_bins - 1 && t + 1 <= q < u ==> opt_cost(
                    data@,
                    map@,
                    t + 1,
                    (#[trigger] backs@[t][q]) as int - 1,
                ) + seg_cost(data@, map@, backs@[t][q] as int, q) == opt_cost(
                    data@,
                    map@,
                    t + 2,
                    q,
                ),
            breaks_rev@.len() == num_bins - mm,
            forall|t: int| 0 <= t < breaks_rev@.len() ==> 1 <= (#[trigger] breaks_rev@[t]) < u,
            forall|t: int| 0 <= t < breaks_rev@.len() - 1 ==> (#[trigger] breaks_rev@[t])
                > breaks_rev@[t + 1],
            breaks_rev@.len() > 0 ==> jj + 1 == breaks_rev@[breaks_rev@.len() - 1],
            breaks_rev@.len() == 0 ==> jj == u - 1,
            brev_int.len() == breaks_rev@.len(),
            forall|q: int| 0 <= q < brev_int.len() ==> (#[trigger] brev_int[q]) == breaks_rev@[
                q
            ] as int,
            fixed == rev_cost(data@, map@, brev_int, u - 1),
            opt_cost(data@, map@, mm as int, jj as int) + fixed == opt_cost(
                data@,
                map@,
                num_bins as int,
                u - 1,
            ),
        decreases mm,
    {
        let b = backs[mm - 2][jj];
        proof {
            assert(opt_cost(data@, map@, mm - 1, b as int - 1) + seg_cost(
                data@,
                map@,
                b as int,
                jj as int,
            ) == opt_cost(data@, map@, mm as int, jj as int));
            lemma_rev_cost_push(data@, map@, brev_int, b as int, u - 1);
            if brev_int.len() > 0 {
                assert(brev_int[brev_int.len() - 1] == jj + 1);
            }
            fixed = fixed + seg_cost(data@, map@, b as int, jj as int);
            brev_int = brev_int.push(b as int);
        }
        breaks_rev.push(b);
        jj = b - 1;
        mm = mm - 1;
    }
    proof {
        assert(opt_cost(data@, map@, 1, jj as int) == seg_cost(data@, map@, 0, jj as int));
        assert(seg_cost(data@, map@, 0, jj as int) + fixed == opt_cost(
            data@,
            map@,
            num_bins as int,
            u - 1,
        ));
    }

    let mut u_breaks: Vec<usize> = Vec::new();
    let mut t: usize = breaks_rev.len();
    while t > 0
        invariant
            0 <= t <= breaks_rev@.len(),
            u == map@.len(),
            forall|q: int| 0 <= q < breaks_rev@.len() ==> 1 <= (#[trigger] breaks_rev@[q]) < u,
            forall|q: int| 0 <= q < breaks_rev@.len() - 1 ==> (#[trigger] breaks_rev@[q])
                > breaks_rev@[q + 1],
            u_breaks@.len() == breaks_rev@.len() - t,
            forall|q: int| 0 <= q < u_breaks@.len() ==> (#[trigger] u_breaks@[q])
                == breaks_rev@[breaks_rev@.len() - 1 - q],
        decreases t,
    {
        u_breaks.push(breaks_rev[t - 1]);
        t = t - 1;
    }

    let mut normal_breaks: Vec<usize> = Vec::new();
    unique_to_normal_breaks(&u_breaks, &map, &mut normal_breaks);

    let mut break_vals: Vec<u64> = Vec::new();
    let mut t: usize = 0;
    while t < normal_breaks.len()
        invariant
            0 <= t <= normal_breaks@.len(),
            u == map@.len(),
            unique_runs_ok(map@, data@),
            forall|q: int| 0 <= q < u_breaks@.len() ==> 1 <= (#[trigger] u_breaks@[q]) < u,
            normal_breaks@.len() == u_breaks@.len(),
            forall|q: int| 0 <= q < u_breaks@.len() ==> (#[trigger] normal_breaks@[q])
                == map@[u_breaks@[q] as int].first,
            break_vals@.len() == t,
            forall|q: int| 0 <= q < t ==> (#[trigger] break_vals@[q]) == map@[u_breaks@[
                q] as int].val,
        decreases normal_breaks@.len() - t,
    {
        let idx = normal_breaks[t];
        proof {
            let b = u_breaks@[t as int] as int;
            assert(map@[b].first <= map@[b].last < data@.len());
            assert(data@[map@[b].first as int] == map@[b].val);
        }
        break_vals.push(data[idx]);
        t = t + 1;
    }

    proof {
        lemma_min_max_bounds(data@);
        // In sorted data the minimum is the first element and the maximum
        // the last, which are the first and last runs' values.
        assert(seq_min(data@) == map@[0].val) by {
            let j = choose|j: int| 0 <= j < data@.len() && data@[j] == seq_min(data@);
            assert(data@[0] <= data@[j]);
            assert(data@[map@[0].first as int] == map@[0].val);
        }
        assert(seq_max(data@) == map@[u - 1].val) by {
            let j = choose|j: int| 0 <= j < data@.len() && data@[j] == seq_max(data@);
            assert(data@[j] <= data@[data@.len() - 1]);
            assert(data@[map@[u - 1].last as int] == map@[u - 1].val);
        }
        assert forall|q: int| 0 <= q < break_vals@.len() implies seq_min(data@)
            <= #[trigger] break_vals@[q] <= seq_max(data@) by {
            let b = u_breaks@[q] as int;
            assert(data@[map@[b].first as int] == map@[b].val);
        }
        assert forall|p: int, q: int| 0 <= p < q < break_vals@.len()
            implies #[trigger] break_vals@[p] < #[trigger] break_vals@[q] by {
            lemma_strictly_increasing(u_breaks@, p, q);
            lemma_run_vals_increase(map@, u_breaks@[p] as int, u_breaks@[q] as int);
        }
        assert forall|q: int| 0 <= q < break_vals@.len() implies seq_min(data@)
            < #[trigger] break_vals@[q] by {
            lemma_run_vals_increase(map@, 0, u_breaks@[q] as int);
        }
    }

    let class = breaks_to_classification(&break_vals, data);

    proof {
        assert(class@.len() == num_bins);
        assert forall|i: int| 0 <= i < class@.len() implies (#[trigger] class@[i].count) >= 1
            by {
            let lo = class@[i].bin_start;
            let hi = class@[i].bin_end;
            let last = i == class@.len() - 1;
            if i == 0 {
                assert(lo == seq_min(data@));
                assert(data@.contains(lo));
            } else {
                let b = u_breaks@[i - 1] as int;
                assert(class@[i - 1].bin_end == break_vals@[i - 1]);
                assert(lo == map@[b].val);
                assert(data@[map@[b].first as int] == map@[b].val);
                assert(data@.contains(lo));
            }
            assert(lo <= hi);
            if i < class@.len() - 1 {
                assert(hi == break_vals@[i]);
                assert(lo < hi);
            }
            assert(in_bin(lo, lo, hi, last));
            lemma_count_in_pos(data@, lo, lo, hi, last);
        }
    }
    proof {
        lemma_optimal_witness(
            data@,
            map@,
            u as int,
            num_bins as int,
            breaks_rev@,
            brev_int,
            u_breaks@,
            break_vals@,
            class@,
            jj as int,
            fixed,
        );
    }
    Ok(class)
}

/// Each run starts no earlier than its index: runs are non-empty and
/// consecutive.
pub(crate) proof fn lemma_run_first_ge_index(m: Seq<UniqueVal>, i: int)
    requires
        forall|t: int| 0 <= t < m.len() ==> (#[trigger] m[t].first) <= m[t].last,
        forall|t: int| 0 <= t < m.len() - 1 ==> (#[trigger] m[t].last) + 1 == m[t + 1].first,
        0 <= i < m.len(),
    ensures
        m[i].first >= i,
    decreases i,
{
    if i > 0 {
        lemma_run_first_ge_index(m, i - 1);
    }
}

/// Run boundaries are monotone in the run index.
proof fn lemma_run_indices_increase(m: Seq<UniqueVal>, i: int, j: int)
    requires
        forall|t: int| 0 <= t < m.len() ==> (#[trigger] m[t].first) <= m[t].last,
        forall|t: int| 0 <= t < m.len() - 1 ==> (#[trigger] m[t].last) + 1 == m[t + 1].first,
        0 <= i <= j < m.len(),
    ensures
        m[i].first <= m[j].first,
        m[i].last <= m[j].last,
    decreases j - i,
{
    if i < j {
        lemma_run_indices_increase(m, i + 1, j);
    }
}

/// In a sequence whose adjacent elements strictly increase, any earlier
/// element is strictly below any later one.
proof fn lemma_strictly_increasing(s: Seq<usize>, p: int, q: int)
    requires
        forall|t: int| 0 <= t < s.len() - 1 ==> (#[trigger] s[t]) < s[t + 1],
        0 <= p < q < s.len(),
    ensures
        s[p] < s[q],
    decreases q - p,
{
    if p + 1 < q {
        lemma_strictly_increasing(s, p + 1, q);
    }
}

/// Values of unique runs strictly increase with the run index.
proof fn lemma_run_vals_increase(m: Seq<UniqueVal>, i: int, j: int)
    requires
        forall|t: int| 0 <= t < m.len() - 1 ==> (#[trigger] m[t].val) < m[t + 1].val,
        0 <= i < j < m.len(),
    ensures
        m[i].val < m[j].val,
    decreases j - i,
{
    if i + 1 < j {
        lemma_run_vals_increase(m, i + 1, j);
    }
}

} // verus!
