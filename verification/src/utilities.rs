//! Classification primitives: bins, classifications, unique-value run
//! compression, and the translation of break values into a counted
//! classification.
use vstd::prelude::*;

verus! {

/// A run of identical consecutive values in sorted data: the value and the
/// indices of its first and last occurrences.
#[derive(Clone, Copy, Debug, PartialEq, Eq, Structural)]
pub struct UniqueVal {
    pub val: u64,
    pub first: usize,
    pub last: usize,
}

/// A single bin: the half-open interval `[bin_start, bin_end)` plus the
/// number of points inside it.  The last bin of a classification closes on
/// `bin_end` inclusive, so that the dataset maximum is captured.
#[derive(Clone, Copy, Debug, PartialEq, Eq, Structural)]
pub struct Bin {
    pub bin_start: u64,
    pub bin_end: u64,
    pub count: u64,
}

/// A full classification: an ordered sequence of bins covering the data
/// range with no gaps or overlaps.
pub type Classification = Vec<Bin>;

/// Whether `x` falls in the bin `[lo, hi)`, closed at `hi` when `last`.
pub open spec fn in_bin(x: u64, lo: u64, hi: u64, last: bool) -> bool {
    lo <= x && (x < hi || (last && x == hi))
}

/// Number of elements of `s` that fall in the bin.
pub open spec fn count_in(s: Seq<u64>, lo: u64, hi: u64, last: bool) -> nat
    decreases s.len(),
{
    if s.len() == 0 {
        0
    } else {
        count_in(s.drop_last(), lo, hi, last) + if in_bin(s.last(), lo, hi, last) {
            1nat
        } else {
            0nat
        }
    }
}

/// Minimum of a non-empty sequence.
pub open spec fn seq_min(s: Seq<u64>) -> u64
    recommends
        s.len() > 0,
    decreases s.len(),
{
    if s.len() <= 1 {
        s[0]
    } else if s.last() < seq_min(s.drop_last()) {
        s.last()
    } else {
        seq_min(s.drop_last())
    }
}

/// Maximum of a non-empty sequence.
pub open spec fn seq_max(s: Seq<u64>) -> u64
    recommends
        s.len() > 0,
    decreases s.len(),
{
    if s.len() <= 1 {
        s[0]
    } else if s.last() > seq_max(s.drop_last()) {
        s.last()
    } else {
        seq_max(s.drop_last())
    }
}

/// Every element lies between the minimum and the maximum.
pub proof fn lemma_min_max_bounds(s: Seq<u64>)
    requires
        s.len() > 0,
    ensures
        forall|j: int| 0 <= j < s.len() ==> seq_min(s) <= #[trigger] s[j] <= seq_max(s),
        s.contains(seq_min(s)),
        s.contains(seq_max(s)),
    decreases s.len(),
{
    if s.len() > 1 {
        lemma_min_max_bounds(s.drop_last());
        assert(forall|j: int| 0 <= j < s.len() - 1 ==> s.drop_last()[j] == s[j]);
        if s.drop_last().contains(seq_min(s.drop_last())) {
            let i = choose|i: int|
                0 <= i < s.len() - 1 && s.drop_last()[i] == seq_min(s.drop_last());
            assert(s[i] == seq_min(s.drop_last()));
        }
        if s.drop_last().contains(seq_max(s.drop_last())) {
            let i = choose|i: int|
                0 <= i < s.len() - 1 && s.drop_last()[i] == seq_max(s.drop_last());
            assert(s[i] == seq_max(s.drop_last()));
        }
    }
}

/// The bins are ordered intervals and each one starts where the previous
/// one ends.
pub open spec fn classification_wf(c: Seq<Bin>) -> bool {
    &&& c.len() > 0
    &&& forall|i: int| 0 <= i < c.len() ==> c[i].bin_start <= c[i].bin_end
    &&& forall|i: int| 0 <= i < c.len() - 1 ==> (#[trigger] c[i].bin_end) == c[i + 1].bin_start
}

/// Every bin's count is the number of data points falling in it.
pub open spec fn counts_match(c: Seq<Bin>, data: Seq<u64>) -> bool {
    forall|i: int| 0 <= i < c.len() ==> (#[trigger] c[i].count) == count_in(
        data,
        c[i].bin_start,
        c[i].bin_end,
        i == c.len() - 1,
    )
}

/// Sum of the counts of the bins from index `i` on.
pub open spec fn sum_counts_from(c: Seq<Bin>, i: int) -> int
    decreases c.len() - i,
{
    if i < 0 || i >= c.len() {
        0
    } else {
        c[i].count + sum_counts_from(c, i + 1)
    }
}

/// Number of bins from index `i` on that contain `x`.
spec fn bins_containing(c: Seq<Bin>, x: u64, i: int) -> int
    decreases c.len() - i,
{
    if i < 0 || i >= c.len() {
        0
    } else {
        (if in_bin(x, c[i].bin_start, c[i].bin_end, i == c.len() - 1) {
            1int
        } else {
            0int
        }) + bins_containing(c, x, i + 1)
    }
}

/// Total count of data points over the bins from index `i` on.
spec fn total_count(c: Seq<Bin>, data: Seq<u64>, i: int) -> int
    decreases c.len() - i,
{
    if i < 0 || i >= c.len() {
        0
    } else {
        count_in(data, c[i].bin_start, c[i].bin_end, i == c.len() - 1) + total_count(
            c,
            data,
            i + 1,
        )
    }
}

proof fn lemma_total_empty(c: Seq<Bin>, i: int)
    ensures
        total_count(c, Seq::<u64>::empty(), i) == 0,
    decreases c.len() - i,
{
    if 0 <= i < c.len() {
        lemma_total_empty(c, i + 1);
    }
}

proof fn lemma_total_push(c: Seq<Bin>, data: Seq<u64>, x: u64, i: int)
    ensures
        total_count(c, data.push(x), i) == total_count(c, data, i) + bins_containing(c, x, i),
    decreases c.len() - i,
{
    if 0 <= i < c.len() {
        lemma_total_push(c, data, x, i + 1);
        assert(data.push(x).drop_last() =~= data);
    }
}

/// When `x` lies strictly below bin `i`'s start, no bin from `i` on
/// contains it.
proof fn lemma_bins_none(c: Seq<Bin>, x: u64, i: int)
    requires
        classification_wf(c),
        0 <= i < c.len(),
        x < c[i].bin_start,
    ensures
        bins_containing(c, x, i) == 0,
    decreases c.len() - i,
{
    if i < c.len() - 1 {
        assert(c[i].bin_start <= c[i].bin_end);
        assert(c[i].bin_end == c[i + 1].bin_start);
        lemma_bins_none(c, x, i + 1);
    } else {
        assert(bins_containing(c, x, i + 1) == 0);
    }
}

/// When `x` lies between bin `i`'s start and the last bin's end, exactly
/// one bin from `i` on contains it.
proof fn lemma_bins_one(c: Seq<Bin>, x: u64, i: int)
    requires
        classification_wf(c),
        0 <= i < c.len(),
        c[i].bin_start <= x,
        x <= c[c.len() - 1].bin_end,
    ensures
        bins_containing(c, x, i) == 1,
    decreases c.len() - i,
{
    if i == c.len() - 1 {
        assert(bins_containing(c, x, i + 1) == 0);
    } else if x < c[i].bin_end {
        assert(c[i].bin_end == c[i + 1].bin_start);
        lemma_bins_none(c, x, i + 1);
    } else {
        assert(c[i].bin_end == c[i + 1].bin_start);
        lemma_bins_one(c, x, i + 1);
    }
}

proof fn lemma_total_full(c: Seq<Bin>, data: Seq<u64>)
    requires
        classification_wf(c),
        forall|j: int| 0 <= j < data.len() ==> c[0].bin_start <= #[trigger] data[j] <= c[c.len()
            - 1].bin_end,
    ensures
        total_count(c, data, 0) == data.len(),
    decreases data.len(),
{
    if data.len() == 0 {
        assert(data =~= Seq::<u64>::empty());
        lemma_total_empty(c, 0);
    } else {
        let pre = data.drop_last();
        let x = data.last();
        assert(data =~= pre.push(x));
        lemma_total_full(c, pre);
        lemma_total_push(c, pre, x, 0);
        lemma_bins_one(c, x, 0);
        assert(total_count(c, pre.push(x), 0) == total_count(c, data, 0));
    }
}

proof fn lemma_sum_is_total(c: Seq<Bin>, data: Seq<u64>, i: int)
    requires
        counts_match(c, data),
    ensures
        sum_counts_from(c, i) == total_count(c, data, i),
    decreases c.len() - i,
{
    if 0 <= i < c.len() {
        lemma_sum_is_total(c, data, i + 1);
    }
}

/// Sum invariant: a well-formed classification whose counts match the data
/// and whose bins cover every data point accounts for each point exactly
/// once.
pub proof fn lemma_classification_sum(c: Seq<Bin>, data: Seq<u64>)
    requires
        classification_wf(c),
        counts_match(c, data),
        forall|j: int| 0 <= j < data.len() ==> c[0].bin_start <= #[trigger] data[j] <= c[c.len()
            - 1].bin_end,
    ensures
        sum_counts_from(c, 0) == data.len(),
{
    lemma_sum_is_total(c, data, 0);
    lemma_total_full(c, data);
}

/// Counts how many elements of `data` fall in the bin.
fn count_bin(data: &Vec<u64>, lo: u64, hi: u64, last: bool) -> (c: usize)
    ensures
        c == count_in(data@, lo, hi, last),
{
    let mut c: usize = 0;
    let mut i: usize = 0;
    while i < data.len()
        invariant
            0 <= i <= data@.len(),
            c == count_in(data@.subrange(0, i as int), lo, hi, last),
            c <= i,
        decreases data@.len() - i,
    {
        assert(data@.subrange(0, i + 1).drop_last() =~= data@.subrange(0, i as int));
        assert(data@.subrange(0, i + 1).last() == data@[i as int]);
        if data[i] >= lo && (data[i] < hi || (last && data[i] == hi)) {
            c = c + 1;
        }
        i = i + 1;
    }
    assert(data@.subrange(0, data@.len() as int) =~= data@);
    c
}

/// Builds the classification determined by the given ascending interior
/// break values over `data`: `breaks.len() + 1` bins spanning the data
/// range, each bin counting the points it contains, the last bin closed on
/// the dataset maximum.  The counts always sum to the data length.
pub fn breaks_to_classification(breaks: &Vec<u64>, data: &Vec<u64>) -> (r: Classification)
    requires
        data@.len() > 0,
        forall|i: int, j: int| 0 <= i <= j < breaks@.len() ==> breaks@[i] <= breaks@[j],
        forall|i: int| 0 <= i < breaks@.len() ==> seq_min(data@) <= #[trigger] breaks@[i]
            <= seq_max(data@),
    ensures
        r@.len() == breaks@.len() + 1,
        classification_wf(r@),
        r@[0].bin_start == seq_min(data@),
        r@[r@.len() - 1].bin_end == seq_max(data@),
        forall|i: int| 0 <= i < breaks@.len() ==> (#[trigger] r@[i].bin_end) == breaks@[i],
        counts_match(r@, data@),
        sum_counts_from(r@, 0) == data@.len(),
{
    let mut mn: u64 = data[0];
    let mut mx: u64 = data[0];
    let mut i: usize = 1;
    while i < data.len()
        invariant
            1 <= i <= data@.len(),
            mn == seq_min(data@.subrange(0, i as int)),
            mx == seq_max(data@.subrange(0, i as int)),
        decreases data@.len() - i,
    {
        assert(data@.subrange(0, i + 1).drop_last() =~= data@.subrange(0, i as int));
        assert(data@.subrange(0, i + 1).last() == data@[i as int]);
        if data[i] < mn {
            mn = data[i];
        }
        if data[i] > mx {
            mx = data[i];
        }
        i = i + 1;
    }
    assert(data@.subrange(0, data@.len() as int) =~= data@);

    let mut bounds: Vec<u64> = Vec::new();
    bounds.push(mn);
    let mut b: usize = 0;
    while b < breaks.len()
        invariant
            0 <= b <= breaks@.len(),
            bounds@.len() == b + 1,
            bounds@[0] == mn,
            forall|j: int| 0 <= j < b ==> bounds@[j + 1] == #[trigger] breaks@[j],
        decreases breaks@.len() - b,
    {
        bounds.push(breaks[b]);
        b = b + 1;
    }
    bounds.push(mx);

    proof {
        lemma_min_max_bounds(data@);
        assert(forall|j: int| 1 <= j <= breaks@.len() ==> bounds@[j] == #[trigger] breaks@[j
            - 1]);
        assert forall|p: int, q: int| 0 <= p <= q < bounds@.len() implies #[trigger] bounds@[p]
            <= #[trigger] bounds@[q] by {
            if p == 0 {
                assert(bounds@[p] == seq_min(data@));
                if 0 < q < bounds@.len() - 1 {
                    assert(bounds@[q] == breaks@[q - 1]);
                }
            } else if q == bounds@.len() - 1 {
                assert(bounds@[q] == seq_max(data@));
                if p < q {
                    assert(bounds@[p] == breaks@[p - 1]);
                }
            } else if p < q {
                assert(bounds@[p] == breaks@[p - 1] && bounds@[q] == breaks@[q - 1]);
            }
        }
    }

    let mut results: Classification = Vec::new();
    let nb: usize = bounds.len() - 1;
    let mut k: usize = 0;
    while k < nb
        invariant
            0 <= k <= nb,
            nb + 1 == bounds@.len(),
            results@.len() == k,
            forall|j: int| 0 <= j < k ==> (#[trigger] results@[j].bin_start) == bounds@[j],
            forall|j: int| 0 <= j < k ==> (#[trigger] results@[j].bin_end) == bounds@[j + 1],
            forall|j: int| 0 <= j < k ==> (#[trigger] results@[j].count) == count_in(
                data@,
                bounds@[j],
                bounds@[j + 1],
                j == nb - 1,
            ),
        decreases nb - k,
    {
        let lo = bounds[k];
        let hi = bounds[k + 1];
        let last = k == nb - 1;
        let c = count_bin(data, lo, hi, last);
        proof {
            lemma_count_in_le_len(data@, lo, hi, last);
        }
        results.push(Bin { bin_start: lo, bin_end: hi, count: c as u64 });
        k = k + 1;
    }
    proof {
        assert(classification_wf(results@));
        assert(counts_match(results@, data@));
        lemma_classification_sum(results@, data@);
    }
    results
}

/// A bin never counts more points than the data holds.
pub proof fn lemma_count_in_le_len(s: Seq<u64>, lo: u64, hi: u64, last: bool)
    ensures
        count_in(s, lo, hi, last) <= s.len(),
    decreases s.len(),
{
    if s.len() > 0 {
        lemma_count_in_le_len(s.drop_last(), lo, hi, last);
    }
}

/// In a well-formed classification, once `x` has passed every earlier
/// bin's end, it can only fall in the last bin.
proof fn lemma_classify_fallback(c: Seq<Bin>, val: u64, i: int)
    requires
        classification_wf(c),
        0 <= i < c.len(),
        c[i].bin_start <= val,
        forall|j: int| 0 <= j < c.len() ==> !(c[j].bin_start <= val && val < c[j].bin_end),
    ensures
        c[c.len() - 1].bin_start <= val,
    decreases c.len() - i,
{
    if i < c.len() - 1 {
        lemma_classify_fallback(c, val, i + 1);
    }
}

/// Index of the bin of `class` containing `val`, or `None` when `val`
/// lies outside the classification's range.  The half-open rule applies to
/// every bin except the last, which is closed on both ends.
pub fn classify_val(val: u64, class: &Classification) -> (r: Option<usize>)
    requires
        classification_wf(class@),
    ensures
        r is None <==> (val < class@[0].bin_start || val > class@[class@.len() - 1].bin_end),
        r matches Some(i) ==> i < class@.len() && in_bin(
            val,
            class@[i as int].bin_start,
            class@[i as int].bin_end,
            i == class@.len() - 1,
        ),
{
    if val < class[0].bin_start || val > class[class.len() - 1].bin_end {
        return None;
    }
    let mut i: usize = 0;
    while i < class.len()
        invariant
            0 <= i <= class@.len(),
            classification_wf(class@),
            class@[0].bin_start <= val <= class@[class@.len() - 1].bin_end,
            forall|j: int| 0 <= j < i ==> !(class@[j].bin_start <= val && val
                < class@[j].bin_end),
        decreases class@.len() - i,
    {
        if class[i].bin_start <= val && val < class[i].bin_end {
            return Some(i);
        }
        i = i + 1;
    }
    proof {
        lemma_classify_fallback(class@, val, 0);
    }
    Some(class.len() - 1)
}

/// The runs of `m` tile the sorted sequence `vals`: consecutive,
/// non-overlapping, strictly increasing in value, and jointly covering
/// every index.
pub open spec fn unique_runs_ok(m: Seq<UniqueVal>, vals: Seq<u64>) -> bool {
    &&& (m.len() == 0 <==> vals.len() == 0)
    &&& (m.len() > 0 ==> m[0].first == 0 && m[m.len() - 1].last == vals.len() - 1)
    &&& forall|i: int| 0 <= i < m.len() ==> (#[trigger] m[i].first) <= m[i].last < vals.len()
    &&& forall|i: int| 0 <= i < m.len() - 1 ==> (#[trigger] m[i].last) + 1 == m[i + 1].first
    &&& forall|i: int, j: int|
        #![trigger m[i].val, vals[j]]
        0 <= i < m.len() && m[i].first <= j <= m[i].last ==> vals[j] == m[i].val
    &&& forall|i: int| 0 <= i < m.len() - 1 ==> (#[trigger] m[i].val) < m[i + 1].val
}

/// Replaces `unique_val_map` with one `UniqueVal` record per run of
/// identical consecutive values in the sorted data `vals`.
pub fn create_unique_val_mapping(unique_val_map: &mut Vec<UniqueVal>, vals: &Vec<u64>)
    requires
        forall|i: int, j: int| 0 <= i <= j < vals@.len() ==> vals@[i] <= vals@[j],
    ensures
        unique_runs_ok(final(unique_val_map)@, vals@),
        final(unique_val_map)@.len() == run_count(vals@),
{
    unique_val_map.clear();
    let mut i: usize = 0;
    while i < vals.len()
        invariant
            0 <= i <= vals@.len(),
            forall|p: int, q: int| 0 <= p <= q < vals@.len() ==> vals@[p] <= vals@[q],
            unique_runs_ok(unique_val_map@, vals@.subrange(0, i as int)),
            unique_val_map@.len() == run_count(vals@.subrange(0, i as int)),
            unique_val_map@.len() > 0 ==> unique_val_map@[unique_val_map@.len() - 1].last + 1
                == i,
            i < vals@.len() && unique_val_map@.len() > 0
                ==> unique_val_map@[unique_val_map@.len() - 1].val < vals@[i as int],
        decreases vals@.len() - i,
    {
        let v = vals[i];
        proof {
            assert(vals@.subrange(0, i + 1).drop_last() =~= vals@.subrange(0, i as int));
            assert(vals@.subrange(0, i + 1).last() == vals@[i as int]);
        }
        let mut j: usize = i + 1;
        while j < vals.len() && vals[j] == v
            invariant
                i < j <= vals@.len(),
                v == vals@[i as int],
                forall|p: int, q: int| 0 <= p <= q < vals@.len() ==> vals@[p] <= vals@[q],
                forall|k: int| i <= k < j ==> vals@[k] == v,
                run_count(vals@.subrange(0, j as int)) == run_count(
                    vals@.subrange(0, i as int),
                ) + 1,
            decreases vals@.len() - j,
        {
            proof {
                assert(vals@.subrange(0, j + 1).drop_last() =~= vals@.subrange(0, j as int));
                assert(vals@.subrange(0, j + 1).last() == vals@[j as int]);
                assert(vals@.subrange(0, j + 1)[j - 1] == vals@[j - 1]);
            }
            j = j + 1;
        }
        unique_val_map.push(UniqueVal { val: v, first: i, last: j - 1 });
        i = j;
    }
    assert(vals@.subrange(0, vals@.len() as int) =~= vals@);
}

/// Translates break indices over the unique-value runs into break indices
/// over the original sorted sequence, taking each run's first occurrence.
pub fn unique_to_normal_breaks(
    u_val_breaks: &Vec<usize>,
    u_val_map: &Vec<UniqueVal>,
    normal_breaks: &mut Vec<usize>,
)
    requires
        forall|i: int| 0 <= i < u_val_breaks@.len() ==> (#[trigger] u_val_breaks@[i])
            < u_val_map@.len(),
    ensures
        final(normal_breaks)@.len() == u_val_breaks@.len(),
        forall|i: int| 0 <= i < u_val_breaks@.len() ==> (#[trigger] final(normal_breaks)@[i])
            == u_val_map@[u_val_breaks@[i] as int].first,
{
    normal_breaks.clear();
    let mut i: usize = 0;
    while i < u_val_breaks.len()
        invariant
            0 <= i <= u_val_breaks@.len(),
            forall|k: int| 0 <= k < u_val_breaks@.len() ==> (#[trigger] u_val_breaks@[k])
                < u_val_map@.len(),
            normal_breaks@.len() == i,
            forall|k: int| 0 <= k < i ==> (#[trigger] normal_breaks@[k])
                == u_val_map@[u_val_breaks@[k] as int].first,
        decreases u_val_breaks@.len() - i,
    {
        normal_breaks.push(u_val_map[u_val_breaks[i]].first);
        i = i + 1;
    }
}


/// Number of runs of identical consecutive values in `s`.
pub open spec fn run_count(s: Seq<u64>) -> nat
    decreases s.len(),
{
    if s.len() == 0 {
        0
    } else if s.len() == 1 {
        1
    } else {
        run_count(s.drop_last()) + if s.last() == s[s.len() - 2] {
            0nat
        } else {
            1nat
        }
    }
}

/// A bin containing some data point counts at least one point.
pub proof fn lemma_count_in_pos(s: Seq<u64>, x: u64, lo: u64, hi: u64, last: bool)
    requires
        s.contains(x),
        in_bin(x, lo, hi, last),
    ensures
        count_in(s, lo, hi, last) >= 1,
    decreases s.len(),
{
    if s.len() > 0 {
        if s.last() == x {
        } else {
            let i = choose|i: int| 0 <= i < s.len() && s[i] == x;
            assert(s.drop_last()[i] == x);
            assert(s.drop_last().contains(x));
            lemma_count_in_pos(s.drop_last(), x, lo, hi, last);
        }
    }
}

} // verus!
