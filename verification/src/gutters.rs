//! Gutter detection in a 1D projection profile: smoothing, an adaptive
//! percentile threshold, maximal runs of gutter-like values, and selection
//! of the best runs.

use vstd::prelude::*;
use vstd::relations::{sorted_by, total_ordering};
use vstd::slice::slice_to_vec;

verus! {

/// Width of the moving-average window that smooths a profile.
pub const SMOOTHING_WINDOW: usize = 7;

/// A percentile in `[0, 1]`, in millionths: `per_million == 100_000` is the
/// 10th percentile. Values above one million act as one million.
#[derive(Debug, Clone, Copy, PartialEq, Eq)]
pub struct Percentile {
    /// The percentile, in parts per million.
    pub per_million: u32,
}

/// Represents a detected gutter in a projection profile.
#[derive(Debug, Clone, Copy, PartialEq, Eq)]
pub struct Gutter {
    /// Starting index of the gutter (inclusive).
    pub start: usize,
    /// Ending index of the gutter (exclusive).
    pub end: usize,
}

impl Gutter {
    /// Returns the center position of the gutter.
    ///
    /// This is `(start + end) / 2`, computed without overflow.
    pub fn center(&self) -> (res: usize)
        ensures
            res == (self.start + self.end) / 2,
    {
        if self.start <= self.end {
            self.start + (self.end - self.start) / 2
        } else {
            self.end + (self.start - self.end) / 2
        }
    }
}

/// Configuration for gutter detection.
#[derive(Debug, Clone, Copy)]
pub struct GutterConfig {
    /// Expected number of gutters.
    pub expected_count: Option<usize>,
    /// Whether to look for light gutters (hills) instead of dark gutters (valleys).
    pub light_gutters: bool,
    /// Minimum width of a gutter.
    pub min_width: usize,
    /// Percentile to use for adaptive thresholding.
    pub percentile: Percentile,
}

// ---------------------------------------------------------------------
// Smoothing
// ---------------------------------------------------------------------

/// Sum of a sequence of `u64` values.
pub open spec fn sum_u64(s: Seq<u64>) -> int
    decreases s.len(),
{
    if s.len() == 0 {
        0
    } else {
        sum_u64(s.drop_last()) + s.last() as int
    }
}

/// First index of the window around `i`: `max(i - half, 0)`.
pub open spec fn window_start(i: int, half: int) -> int {
    if i >= half {
        i - half
    } else {
        0
    }
}

/// One past the last index of the window around `i`: `min(i + half + 1, n)`.
pub open spec fn window_end(i: int, half: int, n: int) -> int {
    if n - i > half {
        i + half + 1
    } else {
        n
    }
}

/// Sum of the values in the window of half-width `half` around `i`.
pub open spec fn window_sum(data: Seq<u64>, half: int, i: int) -> int {
    sum_u64(data.subrange(window_start(i, half), window_end(i, half, data.len() as int)))
}

/// Every window sum of `data` fits in a `u64`.
pub open spec fn window_sums_fit(data: Seq<u64>, window: int) -> bool {
    forall|i: int| 0 <= i < data.len() ==> #[trigger] window_sum(data, window / 2, i) <= u64::MAX
}

/// The moving average of `data` over windows of `window` values, truncated
/// at both ends, with integer division.
pub open spec fn smoothed(data: Seq<u64>, window: int) -> Seq<u64> {
    Seq::new(
        data.len(),
        |i: int|
            (window_sum(data, window / 2, i) / (window_end(i, window / 2, data.len() as int)
                - window_start(i, window / 2))) as u64,
    )
}

pub proof fn lemma_sum_u64_bound(s: Seq<u64>)
    ensures
        0 <= sum_u64(s) <= s.len() * u64::MAX,
    decreases s.len(),
{
    if s.len() > 0 {
        lemma_sum_u64_bound(s.drop_last());
    }
}

proof fn lemma_sum_u64_push(s: Seq<u64>, i: int, j: int)
    requires
        0 <= i <= j < s.len(),
    ensures
        sum_u64(s.subrange(i, j + 1)) == sum_u64(s.subrange(i, j)) + s[j],
{
    assert(s.subrange(i, j + 1).drop_last() =~= s.subrange(i, j));
}

/// Sum of `data[start..end]`; each partial sum fits because the whole does.
fn sum_range(data: &[u64], start: usize, end: usize) -> (res: u64)
    requires
        start <= end <= data@.len(),
        sum_u64(data@.subrange(start as int, end as int)) <= u64::MAX,
    ensures
        res == sum_u64(data@.subrange(start as int, end as int)),
{
    let mut acc: u64 = 0;
    let mut j = start;
    while j < end
        invariant
            start <= j <= end <= data@.len(),
            acc == sum_u64(data@.subrange(start as int, j as int)),
            sum_u64(data@.subrange(start as int, end as int)) <= u64::MAX,
        decreases end - j,
    {
        proof {
            lemma_sum_u64_push(data@, start as int, j as int);
            lemma_sum_prefix_le(data@, start as int, j as int + 1, end as int);
        }
        acc = acc + data[j];
        j = j + 1;
    }
    acc
}

proof fn lemma_sum_prefix_le(s: Seq<u64>, i: int, j: int, k: int)
    requires
        0 <= i <= j <= k <= s.len(),
    ensures
        sum_u64(s.subrange(i, j)) <= sum_u64(s.subrange(i, k)),
    decreases k - j,
{
    if j < k {
        lemma_sum_u64_push(s, i, k - 1);
        lemma_sum_prefix_le(s, i, j, k - 1);
    }
}

/// The moving average of `data` over windows of `window` values.
pub(crate) fn smooth_profile(data: &[u64], window: usize) -> (res: Vec<u64>)
    requires
        window_sums_fit(data@, window as int),
    ensures
        res@ == smoothed(data@, window as int),
{
    let n = data.len();
    let half = window / 2;
    let mut out: Vec<u64> = Vec::new();
    let mut i: usize = 0;
    while i < n
        invariant
            n == data@.len(),
            half == window / 2,
            i <= n,
            window_sums_fit(data@, window as int),
            out@.len() == i,
            forall|k: int| 0 <= k < i ==> #[trigger] out@[k] == smoothed(data@, window as int)[k],
        decreases n - i,
    {
        let start = if i >= half {
            i - half
        } else {
            0
        };
        let end = if n - i > half {
            i + half + 1
        } else {
            n
        };
        assert(window_sum(data@, half as int, i as int) <= u64::MAX);
        let sum = sum_range(data, start, end);
        out.push(sum / ((end - start) as u64));
        i = i + 1;
    }
    assert(out@ =~= smoothed(data@, window as int));
    out
}

// ---------------------------------------------------------------------
// Percentile threshold
// ---------------------------------------------------------------------

/// The order `<=` on `u64`.
pub open spec fn u64_le() -> spec_fn(u64, u64) -> bool {
    |a: u64, b: u64| a <= b
}

/// Index into the sorted data of `n` values that the percentile picks:
/// `floor((n - 1) * p)`, at most `n - 1`.
pub open spec fn percentile_rank(n: int, p: Percentile) -> int {
    let r = (n - 1) * p.per_million / 1_000_000;
    if r < n - 1 {
        r
    } else {
        n - 1
    }
}

/// The value at the percentile's rank in the sorted data; zero for no data.
pub open spec fn percentile_value(data: Seq<u64>, p: Percentile) -> u64 {
    if data.len() == 0 {
        0
    } else {
        data.sort_by(u64_le())[percentile_rank(data.len() as int, p)]
    }
}

/// The percentile of non-empty data is one of its values.
pub proof fn lemma_percentile_is_a_value(data: Seq<u64>, p: Percentile)
    requires
        data.len() > 0,
    ensures
        data.contains(percentile_value(data, p)),
{
    broadcast use vstd::seq_lib::group_to_multiset_ensures;

    lemma_u64_le_total();
    data.lemma_sort_by_ensures(u64_le());
    let sorted = data.sort_by(u64_le());
    let k = percentile_rank(data.len() as int, p);
    assert(sorted.len() == sorted.to_multiset().len());
    assert(0 <= k < sorted.len()) by (nonlinear_arith)
        requires
            k == percentile_rank(data.len() as int, p),
            data.len() > 0,
            sorted.len() == data.len(),
    ;
    assert(sorted.contains(sorted[k]));
}

/// Calls `slice::sort_unstable`, which sorts the values in ascending order
/// and keeps them (their multiset) unchanged.
#[verifier::external_body]
fn sort_values(v: &mut Vec<u64>)
    ensures
        sorted_by(final(v)@, u64_le()),
        final(v)@.to_multiset() == old(v)@.to_multiset(),
{
    v.sort_unstable()
}

proof fn lemma_u64_le_total()
    ensures
        total_ordering(u64_le()),
{
}

/// The threshold at percentile `p` of `data`.
pub(crate) fn calculate_percentile(data: &[u64], p: Percentile) -> (res: u64)
    ensures
        res == percentile_value(data@, p),
{
    if data.len() == 0 {
        return 0;
    }
    let n = data.len();
    let mut sorted = slice_to_vec(data);
    sort_values(&mut sorted);
    proof {
        broadcast use vstd::seq_lib::group_to_multiset_ensures;

        lemma_u64_le_total();
        data@.lemma_sort_by_ensures(u64_le());
        vstd::seq_lib::lemma_sorted_unique(sorted@, data@.sort_by(u64_le()), u64_le());
        assert(sorted@.len() == sorted@.to_multiset().len());
    }
    let m1 = (n - 1) as u128;
    let ppm = p.per_million as u128;
    assert(m1 * ppm <= 0xffff_ffff_ffff_ffffu128 * 0xffff_ffffu128) by (nonlinear_arith)
        requires
            m1 <= 0xffff_ffff_ffff_ffffu128,
            ppm <= 0xffff_ffffu128,
    ;
    let scaled: u128 = (m1 * ppm) / 1_000_000;
    let idx: usize = if scaled < m1 {
        scaled as usize
    } else {
        n - 1
    };
    sorted[idx]
}

// ---------------------------------------------------------------------
// Candidate runs
// ---------------------------------------------------------------------

/// Whether a smoothed value looks like a gutter against the threshold.
pub open spec fn is_gutter_value(v: u64, threshold: u64, light: bool) -> bool {
    if light {
        v >= threshold
    } else {
        v <= threshold
    }
}

/// Which indices of the smoothed profile look like a gutter.
pub open spec fn gutter_mask(sm: Seq<u64>, threshold: u64, light: bool) -> Seq<bool> {
    Seq::new(sm.len(), |i: int| is_gutter_value(sm[i], threshold, light))
}

/// One past the end of the run of `true` that starts at `i` (`i` itself
/// when `m[i]` is false or `i` is out of range).
pub open spec fn run_end(m: Seq<bool>, i: int) -> int
    decreases m.len() - i,
{
    if i < 0 || i >= m.len() || !m[i] {
        i
    } else {
        run_end(m, i + 1)
    }
}

pub proof fn lemma_run_end(m: Seq<bool>, i: int)
    requires
        0 <= i <= m.len(),
    ensures
        i <= run_end(m, i) <= m.len(),
        i < m.len() && m[i] ==> run_end(m, i) > i,
        forall|j: int| i <= j < run_end(m, i) ==> #[trigger] m[j],
        run_end(m, i) == m.len() || !m[run_end(m, i)],
    decreases m.len() - i,
{
    if i < m.len() && m[i] {
        lemma_run_end(m, i + 1);
    }
}

/// The maximal runs of `true` in `m` at or after `i`, in order.
pub open spec fn runs_from(m: Seq<bool>, i: int) -> Seq<Gutter>
    decreases m.len() - i,
{
    if i < 0 || i >= m.len() {
        seq![]
    } else if !m[i] {
        runs_from(m, i + 1)
    } else {
        let e = run_end(m, i);
        proof {
            lemma_run_end(m, i);
        }
        seq![Gutter { start: i as usize, end: e as usize }] + runs_from(m, e)
    }
}

/// The maximal runs of gutter-like values in the smoothed profile.
fn gutter_runs(sm: &Vec<u64>, threshold: u64, light: bool) -> (res: Vec<Gutter>)
    ensures
        res@ == runs_from(gutter_mask(sm@, threshold, light), 0),
{
    let ghost m = gutter_mask(sm@, threshold, light);
    let n = sm.len();
    let mut cands: Vec<Gutter> = Vec::new();
    let mut cur_start: Option<usize> = None;
    let mut i: usize = 0;
    while i < n
        invariant
            n == sm@.len() == m.len(),
            m == gutter_mask(sm@, threshold, light),
            i <= n,
            cur_start is None ==> cands@ + runs_from(m, i as int) == runs_from(m, 0),
            cur_start is None ==> (i == 0 || !m[i - 1]),
            cur_start matches Some(s) ==> {
                &&& s < i
                &&& m[s as int]
                &&& run_end(m, s as int) == run_end(m, i as int)
                &&& cands@ + seq![Gutter { start: s, end: run_end(m, s as int) as usize }] + runs_from(
                    m,
                    run_end(m, s as int),
                ) == runs_from(m, 0)
            },
        decreases n - i,
    {
        let v = sm[i];
        let is_match = if light {
            v >= threshold
        } else {
            v <= threshold
        };
        assert(is_match == m[i as int]);
        if is_match {
            if cur_start.is_none() {
                proof {
                    lemma_run_end(m, i as int);
                    lemma_run_end(m, i as int + 1);
                    assert(run_end(m, i as int) == run_end(m, i as int + 1));
                    assert(runs_from(m, i as int) == seq![
                        Gutter { start: i, end: run_end(m, i as int) as usize },
                    ] + runs_from(m, run_end(m, i as int)));
                    assert(cands@ + seq![Gutter { start: i, end: run_end(m, i as int) as usize }]
                        + runs_from(m, run_end(m, i as int)) =~= cands@ + runs_from(m, i as int));
                }
                cur_start = Some(i);
            } else {
                proof {
                    assert(run_end(m, i as int) == run_end(m, i as int + 1));
                }
            }
        } else {
            match cur_start {
                Some(s) => {
                    proof {
                        assert(run_end(m, i as int) == i);
                        assert(runs_from(m, i as int) == runs_from(m, i as int + 1));
                        assert(cands@.push(Gutter { start: s, end: i }) + runs_from(m, i as int + 1)
                            =~= cands@ + seq![Gutter { start: s, end: i }] + runs_from(m, i as int));
                    }
                    cands.push(Gutter { start: s, end: i });
                    cur_start = None;
                },
                None => {
                    proof {
                        assert(runs_from(m, i as int) == runs_from(m, i as int + 1));
                    }
                },
            }
        }
        i = i + 1;
    }
    match cur_start {
        Some(s) => {
            proof {
                assert(run_end(m, n as int) == n);
                assert(runs_from(m, n as int) =~= Seq::<Gutter>::empty());
                assert(cands@.push(Gutter { start: s, end: n }) =~= cands@ + seq![
                    Gutter { start: s, end: n },
                ] + runs_from(m, n as int));
            }
            cands.push(Gutter { start: s, end: n });
        },
        None => {
            proof {
                assert(runs_from(m, n as int) =~= Seq::<Gutter>::empty());
                assert(cands@ =~= cands@ + runs_from(m, n as int));
            }
        },
    }
    cands
}

/// Gutters lie inside `[0, n)`, are non-empty, and come in order without
/// overlapping.
pub open spec fn well_ordered(gs: Seq<Gutter>, n: int) -> bool {
    &&& forall|k: int| 0 <= k < gs.len() ==> #[trigger] gs[k].start < gs[k].end <= n
    &&& forall|k: int, l: int| 0 <= k < l < gs.len() ==> #[trigger] gs[k].end <= #[trigger] gs[l].start
}

proof fn lemma_runs_from_ordered(m: Seq<bool>, i: int)
    requires
        0 <= i <= m.len() <= usize::MAX,
    ensures
        well_ordered(runs_from(m, i), m.len() as int),
        forall|k: int| 0 <= k < runs_from(m, i).len() ==> i <= #[trigger] runs_from(m, i)[k].start,
    decreases m.len() - i,
{
    if i < m.len() {
        if !m[i] {
            lemma_runs_from_ordered(m, i + 1);
        } else {
            let e = run_end(m, i);
            lemma_run_end(m, i);
            lemma_runs_from_ordered(m, e);
            let g = Gutter { start: i as usize, end: e as usize };
            let rest = runs_from(m, e);
            assert(runs_from(m, i) == seq![g] + rest);
            assert forall|k: int, l: int| 0 <= k < l < runs_from(m, i).len() implies
                #[trigger] runs_from(m, i)[k].end <= #[trigger] runs_from(m, i)[l].start by {
                if k == 0 {
                    assert(runs_from(m, i)[l] == rest[l - 1]);
                }
            }
        }
    }
}

// ---------------------------------------------------------------------
// Filtering and selection
// ---------------------------------------------------------------------

/// A gutter is kept when it spans at least `min_width` indices.
pub open spec fn wide_enough(min_width: usize) -> spec_fn(Gutter) -> bool {
    |g: Gutter| g.end - g.start >= min_width
}

/// The candidates that span at least `min_width` indices, in order.
fn keep_wide(cands: &Vec<Gutter>, min_width: usize, Ghost(n): Ghost<int>) -> (res: Vec<Gutter>)
    requires
        well_ordered(cands@, n),
    ensures
        res@ == cands@.filter(wide_enough(min_width)),
        well_ordered(res@, n),
        forall|k: int| 0 <= k < res@.len() ==> #[trigger] res@[k].end - res@[k].start >= min_width,
{
    let mut out: Vec<Gutter> = Vec::new();
    let mut i: usize = 0;
    while i < cands.len()
        invariant
            i <= cands@.len(),
            well_ordered(cands@, n),
            out@ == cands@.take(i as int).filter(wide_enough(min_width)),
            well_ordered(out@, n),
            forall|k: int| 0 <= k < out@.len() ==> #[trigger] out@[k].end - out@[k].start >= min_width,
            forall|k: int| 0 <= k < out@.len() ==> #[trigger] out@[k].end <= (if i < cands@.len() { cands@[i as int].start as int } else { n }),
        decreases cands@.len() - i,
    {
        proof {
            reveal_with_fuel(Seq::<_>::filter, 1);
            assert(cands@.take(i + 1).drop_last() =~= cands@.take(i as int));
        }
        let g = cands[i];
        if g.end - g.start >= min_width {
            out.push(g);
        }
        proof {
            if i + 1 < cands@.len() {
                assert(cands@[i as int].end <= cands@[i + 1].start);
            }
        }
        i = i + 1;
    }
    assert(cands@.take(cands@.len() as int) =~= cands@);
    out
}

/// Number of indices a gutter spans.
pub open spec fn gutter_len(g: Gutter) -> int {
    g.end - g.start
}

/// Sum of the smoothed profile over a gutter.
pub open spec fn gutter_sum(sm: Seq<u64>, g: Gutter) -> int {
    sum_u64(sm.subrange(g.start as int, g.end as int))
}

/// Gutter `a` has a strictly better average than `b`: higher for light
/// gutters, lower for dark ones. Averages are compared exactly, as the
/// cross products `sum(a) * len(b)` and `sum(b) * len(a)`.
pub open spec fn better_average(sm: Seq<u64>, light: bool, a: Gutter, b: Gutter) -> bool {
    if light {
        gutter_sum(sm, b) * gutter_len(a) < gutter_sum(sm, a) * gutter_len(b)
    } else {
        gutter_sum(sm, a) * gutter_len(b) < gutter_sum(sm, b) * gutter_len(a)
    }
}

/// Gutters `a` and `b` have the same average.
pub open spec fn same_average(sm: Seq<u64>, a: Gutter, b: Gutter) -> bool {
    !(gutter_sum(sm, a) * gutter_len(b) < gutter_sum(sm, b) * gutter_len(a))
        && !(gutter_sum(sm, b) * gutter_len(a) < gutter_sum(sm, a) * gutter_len(b))
}

/// Gutter `j` comes before gutter `i` when the gutters are sorted by
/// average, best first, keeping their order among equal averages.
pub open spec fn comes_before(sm: Seq<u64>, light: bool, gs: Seq<Gutter>, j: int, i: int) -> bool {
    better_average(sm, light, gs[j], gs[i]) || (j < i && same_average(sm, gs[j], gs[i]))
}

/// How many of the first `upto` gutters come before gutter `i`.
pub open spec fn count_before(sm: Seq<u64>, light: bool, gs: Seq<Gutter>, i: int, upto: int) -> int
    decreases upto,
{
    if upto <= 0 {
        0
    } else {
        count_before(sm, light, gs, i, upto - 1) + if comes_before(sm, light, gs, upto - 1, i) {
            1int
        } else {
            0int
        }
    }
}

/// Position of gutter `i` once the gutters are sorted by average, best
/// first, keeping their order among equal averages.
pub open spec fn sorted_position(sm: Seq<u64>, light: bool, gs: Seq<Gutter>, i: int) -> int {
    count_before(sm, light, gs, i, gs.len() as int)
}

/// Of the first `upto` gutters, those whose sorted position is below `k`,
/// in the order they came in.
pub open spec fn keep_best(sm: Seq<u64>, light: bool, gs: Seq<Gutter>, k: int, upto: int) -> Seq<Gutter>
    decreases upto,
{
    if upto <= 0 {
        seq![]
    } else {
        let prev = keep_best(sm, light, gs, k, upto - 1);
        if sorted_position(sm, light, gs, upto - 1) < k {
            prev.push(gs[upto - 1])
        } else {
            prev
        }
    }
}

/// With an expected count `k` that the gutters outnumber, the `k` gutters
/// with the best averages (earlier ones first among equals), in order of
/// position; otherwise all of them.
pub open spec fn select_gutters(sm: Seq<u64>, light: bool, gs: Seq<Gutter>, expected: Option<usize>) -> Seq<Gutter> {
    match expected {
        Some(k) => if gs.len() > k {
            keep_best(sm, light, gs, k as int, gs.len() as int)
        } else {
            gs
        },
        None => gs,
    }
}

/// What `find_gutters` returns for a profile and a configuration.
pub open spec fn gutters_of(profile: Seq<u64>, config: GutterConfig) -> Seq<Gutter> {
    if profile.len() == 0 {
        seq![]
    } else {
        let sm = smoothed(profile, SMOOTHING_WINDOW as int);
        let threshold = percentile_value(sm, config.percentile);
        let runs = runs_from(gutter_mask(sm, threshold, config.light_gutters), 0);
        let wide = runs.filter(wide_enough(config.min_width));
        select_gutters(sm, config.light_gutters, wide, config.expected_count)
    }
}

proof fn lemma_ratio_order(sa: int, la: int, sb: int, lb: int, qa: int, ra: int, qb: int, rb: int)
    requires
        la > 0,
        lb > 0,
        sa == qa * la + ra,
        0 <= ra < la,
        sb == qb * lb + rb,
        0 <= rb < lb,
    ensures
        qa < qb ==> sa * lb < sb * la,
        qa > qb ==> sb * la < sa * lb,
        qa == qb ==> (sa * lb < sb * la <==> ra * lb < rb * la),
{
    assert(sa * lb == qa * (la * lb) + ra * lb) by (nonlinear_arith)
        requires
            sa == qa * la + ra,
    ;
    assert(sb * la == qb * (la * lb) + rb * la) by (nonlinear_arith)
        requires
            sb == qb * lb + rb,
    ;
    assert(0 <= ra * lb < la * lb) by (nonlinear_arith)
        requires
            0 <= ra < la,
            lb > 0,
    ;
    assert(0 <= rb * la < la * lb) by (nonlinear_arith)
        requires
            0 <= rb < lb,
            la > 0,
    ;
    if qa < qb {
        assert(qa * (la * lb) + la * lb <= qb * (la * lb)) by (nonlinear_arith)
            requires
                qa < qb,
                la * lb > 0,
        ;
    } else if qa > qb {
        assert(qb * (la * lb) + la * lb <= qa * (la * lb)) by (nonlinear_arith)
            requires
                qa > qb,
                la * lb > 0,
        ;
    }
}

/// Whether `sa / la < sb / lb`, decided exactly: `sa * lb < sb * la`.
fn ratio_less(sa: u128, la: u128, sb: u128, lb: u128) -> (res: bool)
    requires
        0 < la <= u64::MAX,
        0 < lb <= u64::MAX,
    ensures
        res == (sa * lb < sb * la),
{
    let qa = sa / la;
    let ra = sa % la;
    let qb = sb / lb;
    let rb = sb % lb;
    assert(sa == qa * la + ra) by (nonlinear_arith)
        requires
            qa == sa / la,
            ra == sa % la,
            la > 0,
    ;
    assert(sb == qb * lb + rb) by (nonlinear_arith)
        requires
            qb == sb / lb,
            rb == sb % lb,
            lb > 0,
    ;
    proof {
        lemma_ratio_order(
            sa as int,
            la as int,
            sb as int,
            lb as int,
            qa as int,
            ra as int,
            qb as int,
            rb as int,
        );
    }
    if qa != qb {
        qa < qb
    } else {
        assert(ra * lb <= 0xffff_ffff_ffff_ffffu128 * 0xffff_ffff_ffff_ffffu128) by (nonlinear_arith)
            requires
                ra < la <= 0xffff_ffff_ffff_ffffu128,
                lb <= 0xffff_ffff_ffff_ffffu128,
        ;
        assert(rb * la <= 0xffff_ffff_ffff_ffffu128 * 0xffff_ffff_ffff_ffffu128) by (nonlinear_arith)
            requires
                rb < lb <= 0xffff_ffff_ffff_ffffu128,
                la <= 0xffff_ffff_ffff_ffffu128,
        ;
        ra * lb < rb * la
    }
}

/// Sum of the smoothed profile over a gutter, in 128 bits, which always suffice.
fn sum_over(sm: &Vec<u64>, g: Gutter) -> (res: u128)
    requires
        g.start <= g.end <= sm@.len(),
    ensures
        res == gutter_sum(sm@, g),
{
    let mut acc: u128 = 0;
    let mut j = g.start;
    while j < g.end
        invariant
            g.start <= j <= g.end <= sm@.len(),
            acc == sum_u64(sm@.subrange(g.start as int, j as int)),
        decreases g.end - j,
    {
        proof {
            lemma_sum_u64_push(sm@, g.start as int, j as int);
            lemma_sum_u64_bound(sm@.subrange(g.start as int, j as int));
            assert((j - g.start) * 0xffff_ffff_ffff_ffffu128 + 0xffff_ffff_ffff_ffffu128
                <= 0xffff_ffff_ffff_ffffu128 * 0xffff_ffff_ffff_ffffu128) by (nonlinear_arith)
                requires
                    j - g.start < 0xffff_ffff_ffff_ffffu128,
            ;
        }
        acc = acc + sm[j] as u128;
        j = j + 1;
    }
    acc
}

/// Of the gutters, those whose position sorted by average is below `k`.
fn keep_best_gutters(
    sm: &Vec<u64>,
    light: bool,
    gs: &Vec<Gutter>,
    k: usize,
    Ghost(min_width): Ghost<int>,
) -> (res: Vec<Gutter>)
    requires
        well_ordered(gs@, sm@.len() as int),
        forall|t: int| 0 <= t < gs@.len() ==> #[trigger] gs@[t].end - gs@[t].start >= min_width,
    ensures
        res@ == keep_best(sm@, light, gs@, k as int, gs@.len() as int),
        well_ordered(res@, sm@.len() as int),
        forall|t: int| 0 <= t < res@.len() ==> #[trigger] res@[t].end - res@[t].start >= min_width,
{
    let n = gs.len();
    let mut sums: Vec<u128> = Vec::new();
    let mut i: usize = 0;
    while i < n
        invariant
            n == gs@.len(),
            i <= n,
            well_ordered(gs@, sm@.len() as int),
            sums@.len() == i,
            forall|t: int| 0 <= t < i ==> #[trigger] sums@[t] == gutter_sum(sm@, gs@[t]),
        decreases n - i,
    {
        let s = sum_over(sm, gs[i]);
        sums.push(s);
        i = i + 1;
    }
    let mut out: Vec<Gutter> = Vec::new();
    let mut i: usize = 0;
    while i < n
        invariant
            n == gs@.len(),
            i <= n,
            well_ordered(gs@, sm@.len() as int),
            sums@.len() == n,
            forall|t: int| 0 <= t < n ==> #[trigger] sums@[t] == gutter_sum(sm@, gs@[t]),
            out@ == keep_best(sm@, light, gs@, k as int, i as int),
            well_ordered(out@, sm@.len() as int),
            forall|t: int| 0 <= t < gs@.len() ==> #[trigger] gs@[t].end - gs@[t].start >= min_width,
            forall|t: int| 0 <= t < out@.len() ==> #[trigger] out@[t].end - out@[t].start >= min_width,
            forall|t: int| 0 <= t < out@.len() ==> #[trigger] out@[t].end <= (if i < n { gs@[i as int].start as int } else { sm@.len() as int }),
        decreases n - i,
    {
        let si = sums[i];
        let li = (gs[i].end - gs[i].start) as u128;
        let mut count: usize = 0;
        let mut j: usize = 0;
        while j < n
            invariant
                n == gs@.len(),
                i < n,
                j <= n,
                count <= j,
                well_ordered(gs@, sm@.len() as int),
                sums@.len() == n,
                forall|t: int| 0 <= t < n ==> #[trigger] sums@[t] == gutter_sum(sm@, gs@[t]),
                si == gutter_sum(sm@, gs@[i as int]),
                li == gutter_len(gs@[i as int]),
                count == count_before(sm@, light, gs@, i as int, j as int),
            decreases n - j,
        {
            let sj = sums[j];
            let lj = (gs[j].end - gs[j].start) as u128;
            let j_below_i = ratio_less(sj, lj, si, li);
            let i_below_j = ratio_less(si, li, sj, lj);
            let better = if light {
                i_below_j
            } else {
                j_below_i
            };
            let same = !j_below_i && !i_below_j;
            if better || (j < i && same) {
                count = count + 1;
            }
            j = j + 1;
        }
        if count < k {
            out.push(gs[i]);
        }
        proof {
            if i + 1 < n {
                assert(gs@[i as int].end <= gs@[i + 1].start);
            }
        }
        i = i + 1;
    }
    out
}

// ---------------------------------------------------------------------
// At most the expected number of gutters
// ---------------------------------------------------------------------

proof fn lemma_ratio_chain(sa: int, la: int, sb: int, lb: int, sc: int, lc: int)
    requires
        la > 0,
        lb > 0,
        lc > 0,
        sa * lb <= sb * la,
        sb * lc <= sc * lb,
    ensures
        sa * lc <= sc * la,
        (sa * lb < sb * la || sb * lc < sc * lb) ==> sa * lc < sc * la,
{
    assert(sa * lb * lc <= sb * la * lc) by (nonlinear_arith)
        requires
            sa * lb <= sb * la,
            lc > 0,
    ;
    assert(sb * lc * la <= sc * lb * la) by (nonlinear_arith)
        requires
            sb * lc <= sc * lb,
            la > 0,
    ;
    assert(sb * la * lc == sb * lc * la) by (nonlinear_arith);
    assert(sa * lc * lb <= sc * la * lb) by (nonlinear_arith)
        requires
            sa * lb * lc <= sc * lb * la,
    ;
    assert(sa * lc <= sc * la) by (nonlinear_arith)
        requires
            sa * lc * lb <= sc * la * lb,
            lb > 0,
    ;
    if sa * lb < sb * la {
        assert(sa * lb * lc < sb * la * lc) by (nonlinear_arith)
            requires
                sa * lb < sb * la,
                lc > 0,
        ;
        assert(sa * lc * lb < sc * la * lb) by (nonlinear_arith)
            requires
                sa * lb * lc < sb * la * lc,
                sb * la * lc == sb * lc * la,
                sb * lc * la <= sc * lb * la,
        ;
        assert(sa * lc < sc * la) by (nonlinear_arith)
            requires
                sa * lc * lb < sc * la * lb,
                lb > 0,
        ;
    }
    if sb * lc < sc * lb {
        assert(sb * lc * la < sc * lb * la) by (nonlinear_arith)
            requires
                sb * lc < sc * lb,
                la > 0,
        ;
        assert(sa * lc * lb < sc * la * lb) by (nonlinear_arith)
            requires
                sa * lb * lc <= sb * la * lc,
                sb * la * lc == sb * lc * la,
                sb * lc * la < sc * lb * la,
        ;
        assert(sa * lc < sc * la) by (nonlinear_arith)
            requires
                sa * lc * lb < sc * la * lb,
                lb > 0,
        ;
    }
}

/// Ordering by average, earlier first among equals, is a strict total
/// order on the gutters.
proof fn lemma_comes_before_order(sm: Seq<u64>, light: bool, gs: Seq<Gutter>, i: int, j: int, k: int)
    requires
        0 <= i < gs.len(),
        0 <= j < gs.len(),
        0 <= k < gs.len(),
        forall|t: int| 0 <= t < gs.len() ==> #[trigger] gs[t].start < gs[t].end,
    ensures
        !comes_before(sm, light, gs, i, i),
        i != j ==> (comes_before(sm, light, gs, i, j) || comes_before(sm, light, gs, j, i)),
        !(comes_before(sm, light, gs, i, j) && comes_before(sm, light, gs, j, i)),
        comes_before(sm, light, gs, i, j) && comes_before(sm, light, gs, j, k) ==> comes_before(
            sm,
            light,
            gs,
            i,
            k,
        ),
{
    let (a, b, c) = (gs[i], gs[j], gs[k]);
    let (sa, sb, sc) = (gutter_sum(sm, a), gutter_sum(sm, b), gutter_sum(sm, c));
    let (la, lb, lc) = (gutter_len(a), gutter_len(b), gutter_len(c));
    if comes_before(sm, light, gs, i, j) && comes_before(sm, light, gs, j, k) {
        if light {
            // Higher average first: b's average is at most a's, c's at most b's.
            lemma_ratio_chain(sc, lc, sb, lb, sa, la);
        } else {
            lemma_ratio_chain(sa, la, sb, lb, sc, lc);
        }
    }
}

proof fn lemma_count_before_mono(sm: Seq<u64>, light: bool, gs: Seq<Gutter>, i: int, i2: int, upto: int)
    requires
        0 <= i < gs.len(),
        0 <= i2 < gs.len(),
        0 <= upto <= gs.len(),
        comes_before(sm, light, gs, i, i2),
        forall|t: int| 0 <= t < gs.len() ==> #[trigger] gs[t].start < gs[t].end,
    ensures
        count_before(sm, light, gs, i, upto) + (if i < upto { 1int } else { 0int }) <= count_before(
            sm,
            light,
            gs,
            i2,
            upto,
        ),
    decreases upto,
{
    if upto > 0 {
        lemma_count_before_mono(sm, light, gs, i, i2, upto - 1);
        lemma_comes_before_order(sm, light, gs, upto - 1, i, i2);
        lemma_comes_before_order(sm, light, gs, i, i, i);
    }
}

proof fn lemma_count_before_nonneg(sm: Seq<u64>, light: bool, gs: Seq<Gutter>, i: int, upto: int)
    ensures
        count_before(sm, light, gs, i, upto) >= 0,
    decreases upto,
{
    if upto > 0 {
        lemma_count_before_nonneg(sm, light, gs, i, upto - 1);
    }
}

/// The gutters among the first `upto` whose sorted position is below `k`.
pub open spec fn best_indices(sm: Seq<u64>, light: bool, gs: Seq<Gutter>, k: int, upto: int) -> Set<int> {
    Set::new(|i: int| 0 <= i < upto && sorted_position(sm, light, gs, i) < k)
}

proof fn lemma_keep_best_len(sm: Seq<u64>, light: bool, gs: Seq<Gutter>, k: int, upto: int)
    requires
        0 <= upto <= gs.len(),
    ensures
        best_indices(sm, light, gs, k, upto).finite(),
        keep_best(sm, light, gs, k, upto).len() == best_indices(sm, light, gs, k, upto).len(),
    decreases upto,
{
    if upto == 0 {
        assert(best_indices(sm, light, gs, k, 0) =~= Set::<int>::empty());
    } else {
        lemma_keep_best_len(sm, light, gs, k, upto - 1);
        let prev = best_indices(sm, light, gs, k, upto - 1);
        if sorted_position(sm, light, gs, upto - 1) < k {
            assert(best_indices(sm, light, gs, k, upto) =~= prev.insert(upto - 1));
        } else {
            assert(best_indices(sm, light, gs, k, upto) =~= prev);
        }
    }
}

/// Keeping the gutters whose sorted position is below `k` keeps at most `k`.
pub proof fn lemma_keep_best_at_most(sm: Seq<u64>, light: bool, gs: Seq<Gutter>, k: int)
    requires
        k >= 0,
        forall|t: int| 0 <= t < gs.len() ==> #[trigger] gs[t].start < gs[t].end,
    ensures
        keep_best(sm, light, gs, k, gs.len() as int).len() <= k,
{
    let n = gs.len() as int;
    lemma_keep_best_len(sm, light, gs, k, n);
    let s = best_indices(sm, light, gs, k, n);
    let pos = |i: int| sorted_position(sm, light, gs, i);
    assert forall|x1: int, x2: int| s.contains(x1) && s.contains(x2) && #[trigger] pos(x1) == #[trigger] pos(
        x2,
    ) implies x1 == x2 by {
        if x1 != x2 {
            lemma_comes_before_order(sm, light, gs, x1, x2, x2);
            if comes_before(sm, light, gs, x1, x2) {
                lemma_count_before_mono(sm, light, gs, x1, x2, n);
            } else {
                lemma_count_before_mono(sm, light, gs, x2, x1, n);
            }
        }
    }
    let img = s.map(pos);
    vstd::set_lib::lemma_map_size(s, img, pos);
    vstd::set_lib::lemma_int_range(0, k);
    assert forall|v: int| img.contains(v) implies #[trigger] vstd::set_lib::set_int_range(0, k).contains(v) by {
        let i = choose|i: int| s.contains(i) && pos(i) == v;
        lemma_count_before_nonneg(sm, light, gs, i, n);
    }
    assert(img.subset_of(vstd::set_lib::set_int_range(0, k)));
    vstd::set_lib::lemma_len_subset(img, vstd::set_lib::set_int_range(0, k));
}

proof fn lemma_filter_from(s: Seq<Gutter>, pred: spec_fn(Gutter) -> bool, t: int)
    requires
        0 <= t < s.filter(pred).len(),
    ensures
        s.contains(s.filter(pred)[t]),
    decreases s.len(),
{
    reveal_with_fuel(Seq::<_>::filter, 1);
    if s.len() > 0 {
        let prev = s.drop_last().filter(pred);
        if t < prev.len() {
            lemma_filter_from(s.drop_last(), pred, t);
            let j = choose|j: int| 0 <= j < s.drop_last().len() && s.drop_last()[j] == prev[t];
            assert(s[j] == prev[t]);
        } else {
            assert(s[s.len() - 1] == s.filter(pred)[t]);
        }
    }
}

/// Gutter detection never reports more gutters than the configuration expects.
pub proof fn lemma_gutters_within_expected(profile: Seq<u64>, config: GutterConfig)
    requires
        profile.len() <= usize::MAX,
    ensures
        config.expected_count matches Some(k) ==> gutters_of(profile, config).len() <= k,
{
    if profile.len() > 0 {
        broadcast use vstd::seq_lib::group_filter_ensures;

        let sm = smoothed(profile, SMOOTHING_WINDOW as int);
        let threshold = percentile_value(sm, config.percentile);
        let m = gutter_mask(sm, threshold, config.light_gutters);
        let runs = runs_from(m, 0);
        let wide = runs.filter(wide_enough(config.min_width));
        lemma_runs_from_ordered(m, 0);
        assert forall|t: int| 0 <= t < wide.len() implies #[trigger] wide[t].start < wide[t].end by {
            lemma_filter_from(runs, wide_enough(config.min_width), t);
        }
        if let Some(k) = config.expected_count {
            if wide.len() > k {
                lemma_keep_best_at_most(sm, config.light_gutters, wide, k as int);
            }
        }
    }
}

/// `g` is a maximal run of `true` in `m`: every index in it is set, and the
/// indices just before and just after it are not (or lie outside `m`).
pub open spec fn is_maximal_run(m: Seq<bool>, g: Gutter) -> bool {
    &&& g.start < g.end <= m.len()
    &&& forall|j: int| g.start <= j < g.end ==> #[trigger] m[j]
    &&& g.start == 0 || !m[g.start - 1]
    &&& g.end == m.len() || !m[g.end as int]
}

proof fn lemma_runs_from_maximal(m: Seq<bool>, i: int)
    requires
        0 <= i <= m.len() <= usize::MAX,
        i == 0 || i == m.len() || !m[i - 1] || !m[i],
    ensures
        forall|k: int| 0 <= k < runs_from(m, i).len() ==> is_maximal_run(m, #[trigger] runs_from(m, i)[k]),
    decreases m.len() - i,
{
    if i < m.len() {
        if !m[i] {
            lemma_runs_from_maximal(m, i + 1);
            assert(runs_from(m, i) == runs_from(m, i + 1));
        } else {
            let e = run_end(m, i);
            lemma_run_end(m, i);
            lemma_runs_from_maximal(m, e);
            let rest = runs_from(m, e);
            assert forall|k: int| 0 <= k < runs_from(m, i).len() implies is_maximal_run(
                m,
                #[trigger] runs_from(m, i)[k],
            ) by {
                if k > 0 {
                    assert(runs_from(m, i)[k] == rest[k - 1]);
                } else {
                    let g = Gutter { start: i as usize, end: e as usize };
                    assert(runs_from(m, i)[0] == g);
                    assert(g.start as int == i && g.end as int == e);
                    assert(i == 0 || !m[i - 1]);
                }
            }
        }
    }
}

proof fn lemma_keep_best_from(sm: Seq<u64>, light: bool, gs: Seq<Gutter>, k: int, upto: int, t: int)
    requires
        0 <= upto <= gs.len(),
        0 <= t < keep_best(sm, light, gs, k, upto).len(),
    ensures
        gs.contains(keep_best(sm, light, gs, k, upto)[t]),
    decreases upto,
{
    if upto > 0 {
        let prev = keep_best(sm, light, gs, k, upto - 1);
        if t < prev.len() {
            lemma_keep_best_from(sm, light, gs, k, upto - 1, t);
        } else {
            assert(keep_best(sm, light, gs, k, upto)[t] == gs[upto - 1]);
        }
    }
}

/// Every gutter that gutter detection reports is a maximal run of indices
/// whose smoothed value looks like a gutter against the percentile
/// threshold, at least `min_width` long.
pub proof fn lemma_gutters_are_maximal_runs(profile: Seq<u64>, config: GutterConfig, t: int)
    requires
        0 < profile.len() <= usize::MAX,
        0 <= t < gutters_of(profile, config).len(),
    ensures
        ({
            let sm = smoothed(profile, SMOOTHING_WINDOW as int);
            let m = gutter_mask(sm, percentile_value(sm, config.percentile), config.light_gutters);
            let g = gutters_of(profile, config)[t];
            &&& is_maximal_run(m, g)
            &&& g.end - g.start >= config.min_width
        }),
{
    broadcast use vstd::seq_lib::group_filter_ensures;

    let sm = smoothed(profile, SMOOTHING_WINDOW as int);
    let m = gutter_mask(sm, percentile_value(sm, config.percentile), config.light_gutters);
    let runs = runs_from(m, 0);
    let wide = runs.filter(wide_enough(config.min_width));
    lemma_runs_from_maximal(m, 0);
    let g = gutters_of(profile, config)[t];
    let w = if (config.expected_count matches Some(k) && wide.len() > k) {
        let k = config.expected_count->0;
        lemma_keep_best_from(sm, config.light_gutters, wide, k as int, wide.len() as int, t);
        choose|w: int| 0 <= w < wide.len() && wide[w] == g
    } else {
        t
    };
    assert(wide[w] == g);
    lemma_filter_from(runs, wide_enough(config.min_width), w);
    assert(wide_enough(config.min_width)(wide[w]));
}

// ---------------------------------------------------------------------
// The best gutters are kept
// ---------------------------------------------------------------------

/// The candidate gutters of a profile: the maximal runs of gutter-like
/// smoothed values that span at least `min_width` indices, in order. Gutter
/// detection reports these, or the best of them when there are more than
/// expected.
pub open spec fn candidate_gutters(profile: Seq<u64>, percentile: Percentile, light: bool, min_width: usize) -> Seq<
    Gutter,
> {
    if profile.len() == 0 {
        seq![]
    } else {
        let sm = smoothed(profile, SMOOTHING_WINDOW as int);
        runs_from(gutter_mask(sm, percentile_value(sm, percentile), light), 0).filter(wide_enough(min_width))
    }
}

#[verifier::spinoff_prover]
proof fn lemma_keep_best_source(sm: Seq<u64>, light: bool, gs: Seq<Gutter>, k: int, upto: int, t: int)
    requires
        0 <= upto <= gs.len(),
        0 <= t < keep_best(sm, light, gs, k, upto).len(),
    ensures
        exists|i: int|
            0 <= i < upto && sorted_position(sm, light, gs, i) < k && keep_best(sm, light, gs, k, upto)[t]
                == #[trigger] gs[i],
    decreases upto,
{
    if upto > 0 {
        let prev = keep_best(sm, light, gs, k, upto - 1);
        if t < prev.len() {
            lemma_keep_best_source(sm, light, gs, k, upto - 1, t);
            let i = choose|i: int|
                0 <= i < upto - 1 && sorted_position(sm, light, gs, i) < k && prev[t] == #[trigger] gs[i];
            assert(keep_best(sm, light, gs, k, upto)[t] == gs[i]);
        } else {
            assert(keep_best(sm, light, gs, k, upto)[t] == gs[upto - 1]);
        }
    }
}

#[verifier::spinoff_prover]
proof fn lemma_keep_best_keeps(sm: Seq<u64>, light: bool, gs: Seq<Gutter>, k: int, upto: int, j: int)
    requires
        0 <= j < upto <= gs.len(),
        sorted_position(sm, light, gs, j) < k,
    ensures
        keep_best(sm, light, gs, k, upto).contains(gs[j]),
    decreases upto,
{
    let prev = keep_best(sm, light, gs, k, upto - 1);
    if j < upto - 1 {
        lemma_keep_best_keeps(sm, light, gs, k, upto - 1, j);
        let i = choose|i: int| 0 <= i < prev.len() && prev[i] == gs[j];
        if sorted_position(sm, light, gs, upto - 1) < k {
            assert(prev.push(gs[upto - 1])[i] == gs[j]);
        }
    } else {
        assert(keep_best(sm, light, gs, k, upto)[prev.len() as int] == gs[j]);
    }
}

#[verifier::spinoff_prover]
proof fn lemma_keep_best_ordered(sm: Seq<u64>, light: bool, gs: Seq<Gutter>, k: int, upto: int, n: int)
    requires
        0 <= upto <= gs.len(),
        well_ordered(gs, n),
    ensures
        well_ordered(keep_best(sm, light, gs, k, upto), n),
    decreases upto,
{
    if upto > 0 {
        lemma_keep_best_ordered(sm, light, gs, k, upto - 1, n);
        let prev = keep_best(sm, light, gs, k, upto - 1);
        if sorted_position(sm, light, gs, upto - 1) < k {
            let cur = prev.push(gs[upto - 1]);
            assert forall|a: int, b: int| 0 <= a < b < cur.len() implies #[trigger] cur[a].end
                <= #[trigger] cur[b].start by {
                if b == prev.len() {
                    lemma_keep_best_source(sm, light, gs, k, upto - 1, a);
                    let i = choose|i: int|
                        0 <= i < upto - 1 && sorted_position(sm, light, gs, i) < k && prev[a] == #[trigger] gs[i];
                    assert(gs[i].end <= gs[upto - 1].start);
                } else {
                    assert(cur[a] == prev[a] && cur[b] == prev[b]);
                }
            }
            assert forall|a: int| 0 <= a < cur.len() implies #[trigger] cur[a].start < cur[a].end <= n by {
                if a < prev.len() {
                    assert(cur[a] == prev[a]);
                }
            }
            assert(keep_best(sm, light, gs, k, upto) == cur);
            assert(well_ordered(cur, n));
        } else {
            assert(keep_best(sm, light, gs, k, upto) == prev);
        }
    }
}

#[verifier::spinoff_prover]
proof fn lemma_count_before_bound(sm: Seq<u64>, light: bool, gs: Seq<Gutter>, i: int, upto: int)
    requires
        0 <= i < gs.len(),
        0 <= upto <= gs.len(),
        forall|t: int| 0 <= t < gs.len() ==> #[trigger] gs[t].start < gs[t].end,
    ensures
        count_before(sm, light, gs, i, upto) + (if i < upto { 1int } else { 0int }) <= upto,
    decreases upto,
{
    if upto > 0 {
        lemma_count_before_bound(sm, light, gs, i, upto - 1);
        lemma_comes_before_order(sm, light, gs, i, i, i);
    }
}

/// With more gutters than `k`, keeping those whose sorted position is
/// below `k` keeps exactly `k`: the sorted positions are `0` up to the
/// number of gutters, each taken once.
#[verifier::spinoff_prover]
proof fn lemma_keep_best_exactly(sm: Seq<u64>, light: bool, gs: Seq<Gutter>, k: int)
    requires
        0 <= k < gs.len(),
        forall|t: int| 0 <= t < gs.len() ==> #[trigger] gs[t].start < gs[t].end,
    ensures
        keep_best(sm, light, gs, k, gs.len() as int).len() == k,
{
    let n = gs.len() as int;
    lemma_keep_best_len(sm, light, gs, k, n);
    let pos = |i: int| sorted_position(sm, light, gs, i);
    let all = vstd::set_lib::set_int_range(0, n);
    vstd::set_lib::lemma_int_range(0, n);
    vstd::set_lib::lemma_int_range(0, k);
    assert forall|x1: int, x2: int| all.contains(x1) && all.contains(x2) && #[trigger] pos(x1) == #[trigger] pos(
        x2,
    ) implies x1 == x2 by {
        if x1 != x2 {
            lemma_comes_before_order(sm, light, gs, x1, x2, x2);
            if comes_before(sm, light, gs, x1, x2) {
                lemma_count_before_mono(sm, light, gs, x1, x2, n);
            } else {
                lemma_count_before_mono(sm, light, gs, x2, x1, n);
            }
        }
    }
    let img = all.map(pos);
    vstd::set_lib::lemma_map_size(all, img, pos);
    assert forall|v: int| img.contains(v) implies #[trigger] all.contains(v) by {
        let i = choose|i: int| all.contains(i) && pos(i) == v;
        lemma_count_before_nonneg(sm, light, gs, i, n);
        lemma_count_before_bound(sm, light, gs, i, n);
    }
    vstd::set_lib::lemma_subset_equality(img, all);
    let best = best_indices(sm, light, gs, k, n);
    let low = vstd::set_lib::set_int_range(0, k);
    assert forall|v: int| #[trigger] low.contains(v) <==> best.map(pos).contains(v) by {
        if low.contains(v) {
            assert(img.contains(v));
            let i = choose|i: int| all.contains(i) && pos(i) == v;
            assert(best.contains(i));
        }
        if best.map(pos).contains(v) {
            let i = choose|i: int| best.contains(i) && pos(i) == v;
            lemma_count_before_nonneg(sm, light, gs, i, n);
        }
    }
    assert(best.map(pos) =~= low);
    vstd::set_lib::lemma_map_size(best, low, pos);
}

#[verifier::spinoff_prover]
proof fn lemma_filter_well_ordered(s: Seq<Gutter>, pred: spec_fn(Gutter) -> bool, n: int)
    requires
        well_ordered(s, n),
    ensures
        well_ordered(s.filter(pred), n),
    decreases s.len(),
{
    reveal_with_fuel(Seq::<_>::filter, 1);
    if s.len() > 0 {
        let d = s.drop_last();
        assert forall|k: int, l: int| 0 <= k < l < d.len() implies #[trigger] d[k].end <= #[trigger] d[l].start by {
            assert(d[k] == s[k] && d[l] == s[l]);
        }
        assert forall|k: int| 0 <= k < d.len() implies #[trigger] d[k].start < d[k].end <= n by {
            assert(d[k] == s[k]);
        }
        lemma_filter_well_ordered(d, pred, n);
        let f = d.filter(pred);
        if pred(s.last()) {
            let cur = f.push(s.last());
            assert(s.filter(pred) == cur);
            assert forall|a: int, b: int| 0 <= a < b < cur.len() implies #[trigger] cur[a].end
                <= #[trigger] cur[b].start by {
                if b == f.len() {
                    lemma_filter_from(d, pred, a);
                    let j = choose|j: int| 0 <= j < d.len() && d[j] == f[a];
                    assert(s[j] == f[a]);
                } else {
                    assert(cur[a] == f[a] && cur[b] == f[b]);
                }
            }
            assert forall|a: int| 0 <= a < cur.len() implies #[trigger] cur[a].start < cur[a].end <= n by {
                if a < f.len() {
                    assert(cur[a] == f[a]);
                }
            }
        } else {
            assert(s.filter(pred) == f);
        }
    }
}

/// The candidate gutters lie inside the profile, are non-empty, come in
/// order without overlapping, and span at least `min_width` indices.
#[verifier::spinoff_prover]
pub proof fn lemma_candidates_ordered(profile: Seq<u64>, percentile: Percentile, light: bool, min_width: usize)
    requires
        profile.len() <= usize::MAX,
    ensures
        well_ordered(candidate_gutters(profile, percentile, light, min_width), profile.len() as int),
        forall|t: int|
            0 <= t < candidate_gutters(profile, percentile, light, min_width).len() ==> #[trigger] candidate_gutters(
                profile,
                percentile,
                light,
                min_width,
            )[t].end - candidate_gutters(profile, percentile, light, min_width)[t].start >= min_width,
{
    broadcast use vstd::seq_lib::group_filter_ensures;

    if profile.len() > 0 {
        let sm = smoothed(profile, SMOOTHING_WINDOW as int);
        let m = gutter_mask(sm, percentile_value(sm, percentile), light);
        lemma_runs_from_ordered(m, 0);
        lemma_filter_well_ordered(runs_from(m, 0), wide_enough(min_width), profile.len() as int);
        let c = candidate_gutters(profile, percentile, light, min_width);
        assert forall|t: int| 0 <= t < c.len() implies #[trigger] c[t].end - c[t].start >= min_width by {
            assert(wide_enough(min_width)(c[t]));
        }
    }
}

/// When gutter detection keeps fewer gutters than it found, it keeps those
/// with the best average smoothed value: every kept gutter `g` and every
/// dropped candidate `d` compare, by their sums over the smoothed profile
/// and their numbers of indices, as `sum(g) / len(g) <= sum(d) / len(d)`
/// for dark gutters and the other way round for light ones.
#[verifier::spinoff_prover]
pub proof fn lemma_kept_gutters_beat_dropped(profile: Seq<u64>, config: GutterConfig, g: Gutter, d: Gutter)
    requires
        0 < profile.len() <= usize::MAX,
        gutters_of(profile, config).contains(g),
        candidate_gutters(profile, config.percentile, config.light_gutters, config.min_width).contains(d),
        !gutters_of(profile, config).contains(d),
    ensures
        ({
            let sm = smoothed(profile, SMOOTHING_WINDOW as int);
            let sg = sum_u64(sm.subrange(g.start as int, g.end as int));
            let sd = sum_u64(sm.subrange(d.start as int, d.end as int));
            if config.light_gutters {
                sd * (g.end - g.start) <= sg * (d.end - d.start)
            } else {
                sg * (d.end - d.start) <= sd * (g.end - g.start)
            }
        }),
{
    let sm = smoothed(profile, SMOOTHING_WINDOW as int);
    let light = config.light_gutters;
    let wide = candidate_gutters(profile, config.percentile, light, config.min_width);
    lemma_candidates_ordered(profile, config.percentile, light, config.min_width);
    let res = gutters_of(profile, config);
    let k = config.expected_count->0;
    assert(config.expected_count is Some && wide.len() > k);
    assert(res == keep_best(sm, light, wide, k as int, wide.len() as int));
    let t = choose|t: int| 0 <= t < res.len() && res[t] == g;
    lemma_keep_best_source(sm, light, wide, k as int, wide.len() as int, t);
    let i = choose|i: int|
        0 <= i < wide.len() && sorted_position(sm, light, wide, i) < k && res[t] == #[trigger] wide[i];
    let j = choose|j: int| 0 <= j < wide.len() && wide[j] == d;
    if sorted_position(sm, light, wide, j) < k {
        lemma_keep_best_keeps(sm, light, wide, k as int, wide.len() as int, j);
    }
    assert forall|x: int| 0 <= x < wide.len() implies #[trigger] wide[x].start < wide[x].end by {}
    lemma_comes_before_order(sm, light, wide, i, j, j);
    if comes_before(sm, light, wide, j, i) {
        lemma_count_before_mono(sm, light, wide, j, i, wide.len() as int);
    }
    assert(comes_before(sm, light, wide, i, j));
}

/// With an expected count that the candidates reach, gutter detection
/// reports exactly that many gutters, each of them a candidate, in order of
/// position without overlapping.
#[verifier::spinoff_prover]
pub proof fn lemma_gutters_of_expected_count(profile: Seq<u64>, config: GutterConfig)
    requires
        0 < profile.len() <= usize::MAX,
        config.expected_count is Some,
        candidate_gutters(profile, config.percentile, config.light_gutters, config.min_width).len()
            >= config.expected_count->0,
    ensures
        gutters_of(profile, config).len() == config.expected_count->0,
        well_ordered(gutters_of(profile, config), profile.len() as int),
        forall|t: int|
            0 <= t < gutters_of(profile, config).len() ==> candidate_gutters(
                profile,
                config.percentile,
                config.light_gutters,
                config.min_width,
            ).contains(#[trigger] gutters_of(profile, config)[t]),
{
    let sm = smoothed(profile, SMOOTHING_WINDOW as int);
    let light = config.light_gutters;
    let wide = candidate_gutters(profile, config.percentile, light, config.min_width);
    lemma_candidates_ordered(profile, config.percentile, light, config.min_width);
    let res = gutters_of(profile, config);
    let k = config.expected_count->0;
    if wide.len() > k {
        assert(res == keep_best(sm, light, wide, k as int, wide.len() as int));
        assert forall|x: int| 0 <= x < wide.len() implies #[trigger] wide[x].start < wide[x].end by {}
        lemma_keep_best_exactly(sm, light, wide, k as int);
        lemma_keep_best_ordered(sm, light, wide, k as int, wide.len() as int, profile.len() as int);
        assert forall|t: int| 0 <= t < res.len() implies wide.contains(#[trigger] res[t]) by {
            lemma_keep_best_source(sm, light, wide, k as int, wide.len() as int, t);
        }
    } else {
        assert(res == wide);
        assert forall|t: int| 0 <= t < res.len() implies wide.contains(#[trigger] res[t]) by {
            assert(wide[t] == res[t]);
        }
    }
}

/// Detects gutters in a 1D projection profile.
///
/// The profile is smoothed with a moving average over `SMOOTHING_WINDOW`
/// values; indices whose smoothed value is at most (dark gutters) or at
/// least (light gutters) the configured percentile of the smoothed values
/// look like a gutter; each maximal run of them is a candidate; candidates
/// narrower than `min_width` are dropped; when more than `expected_count`
/// remain, those with the best average are kept. The result is ordered by
/// position.
pub fn find_gutters(profile: &[u64], config: &GutterConfig) -> (res: Vec<Gutter>)
    requires
        window_sums_fit(profile@, SMOOTHING_WINDOW as int),
    ensures
        res@ == gutters_of(profile@, *config),
        well_ordered(res@, profile@.len() as int),
        forall|k: int| 0 <= k < res@.len() ==> #[trigger] res@[k].end - res@[k].start >= config.min_width,
        config.expected_count matches Some(e) ==> res@.len() <= e,
{
    if profile.len() == 0 {
        return Vec::new();
    }
    let smoothed_profile = smooth_profile(profile, SMOOTHING_WINDOW);
    let threshold = calculate_percentile(smoothed_profile.as_slice(), config.percentile);
    let candidates = gutter_runs(&smoothed_profile, threshold, config.light_gutters);
    proof {
        lemma_runs_from_ordered(gutter_mask(smoothed_profile@, threshold, config.light_gutters), 0);
    }
    let gutters = keep_wide(&candidates, config.min_width, Ghost(profile@.len() as int));
    match config.expected_count {
        Some(expected) => {
            if gutters.len() > expected {
                proof {
                    lemma_keep_best_at_most(smoothed_profile@, config.light_gutters, gutters@, expected as int);
                }
                keep_best_gutters(
                    &smoothed_profile,
                    config.light_gutters,
                    &gutters,
                    expected,
                    Ghost(config.min_width as int),
                )
            } else {
                gutters
            }
        },
        None => gutters,
    }
}

} // verus!
