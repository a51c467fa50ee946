use crate::stats::{
    ascending, first_within, get_lower_fence, get_percentile, get_upper_fence, last_within,
    lemma_percentile_between, lemma_score_within_fences, lemma_sorted_scores, lemma_sorted_unique,
    lemma_total_bounds, lemma_total_permutation,
    lemma_total_prefix,
    lower_fence, lower_whisker, mean_score, outlier_set, outliers, percentile, sort_scores,
    sorted_scores, total, upper_fence, upper_whisker,
};
use crate::scores::ScoreTable;
use std::str::FromStr;
use vstd::prelude::*;

verus! {

/// The scores recorded for one character.
pub struct UmaData {
    pub name: String,
    pub scores: Vec<u32>,
}

/// What a box plot of one character's scores shows.
pub struct UmaBoxPlot {
    pub label: String,
    pub min: u32,
    pub median: u32,
    pub mean: u32,
    pub max: u32,
    pub q1: u32,
    pub q3: u32,
    pub lower_whisker: u32,
    pub upper_whisker: u32,
    /// The distinct outlying scores, from lowest to highest.
    pub outliers: Vec<u32>,
}

/// Whether a box plot can be drawn of the scores: there is at least one,
/// and their count and their sum fit in a score.
pub open spec fn plottable(s: Seq<u32>) -> bool {
    &&& 1 <= s.len() <= u32::MAX
    &&& total(s) <= u32::MAX
}

/// Whether `b` is the box plot named `label` of the scores `s`: the lowest,
/// highest and mean score, the quartiles, the whiskers at the outermost
/// scores between the fences, and the scores outside them.
pub open spec fn is_box_plot_of(b: UmaBoxPlot, label: Seq<char>, s: Seq<u32>) -> bool {
    let t = sorted_scores(s);
    let lo = lower_fence(t);
    let hi = upper_fence(t);
    &&& b.label@ == label
    &&& b.min == t[0]
    &&& b.max == t.last()
    &&& b.mean == total(s) / (s.len() as int)
    &&& b.q1 == percentile(t, 1)
    &&& b.median == percentile(t, 2)
    &&& b.q3 == percentile(t, 3)
    &&& b.lower_whisker == first_within(t, lo, hi)
    &&& b.upper_whisker == last_within(t, lo, hi)
    &&& b.outliers@.to_set() == outlier_set(t, lo, hi)
    &&& forall|p: int, q: int| 0 <= p < q < b.outliers.len() ==> b.outliers@[p] < b.outliers@[q]
}

/// A box plot of some scores is the box plot of the same scores in any
/// order, and each statistic that orders plots is the same for them.
pub proof fn law_box_plot_order_free(b: UmaBoxPlot, label: Seq<char>, s1: Seq<u32>, s2: Seq<u32>)
    requires
        s1.to_multiset() == s2.to_multiset(),
    ensures
        is_box_plot_of(b, label, s1) <==> is_box_plot_of(b, label, s2),
        forall|kind: BoxPlotType| #[trigger] statistic(kind, s1) == statistic(kind, s2),
{
    broadcast use vstd::seq_lib::group_to_multiset_ensures;

    lemma_sorted_scores(s1);
    lemma_sorted_scores(s2);
    lemma_sorted_unique(sorted_scores(s1), sorted_scores(s2));
    lemma_total_permutation(s1, s2);
    assert(s1.len() == s1.to_multiset().len());
    assert(s2.len() == s2.to_multiset().len());
}

/// Each score of `s` lies between the lowest and the highest.
proof fn lemma_scores_between_extremes(s: Seq<u32>)
    requires
        s.len() >= 1,
    ensures
        forall|i: int|
            0 <= i < s.len() ==> sorted_scores(s)[0] <= #[trigger] s[i] <= sorted_scores(s).last(),
{
    broadcast use vstd::seq_lib::group_to_multiset_ensures;

    let t = sorted_scores(s);
    lemma_sorted_scores(s);
    assert forall|i: int| 0 <= i < s.len() implies t[0] <= #[trigger] s[i] <= t.last() by {
        assert(s.to_multiset().count(s[i]) > 0);
        assert(t.contains(s[i]));
        let j = choose|j: int| 0 <= j < t.len() && t[j] == s[i];
        if j > 0 {
            assert(ascending()(t[0], t[j]));
        }
        if j < t.len() - 1 {
            assert(ascending()(t[j], t[t.len() - 1]));
        }
    }
}

impl UmaBoxPlot {
    /// The box plot of a character's scores.
    pub fn from_uma_data(uma_data: &UmaData) -> (b: Self)
        requires
            plottable(uma_data.scores@),
        ensures
            is_box_plot_of(b, uma_data.name@, uma_data.scores@),
            b.min <= b.lower_whisker <= b.upper_whisker <= b.max,
            b.min <= b.q1 <= b.median <= b.q3 <= b.max,
            b.min <= b.mean <= b.max,
    {
        let sorted = sort_scores(&uma_data.scores);
        let ghost s = uma_data.scores@;
        let ghost t = sorted@;
        proof {
            lemma_sorted_scores(s);
        }
        let mean = mean_score(&uma_data.scores);
        let min_score = sorted[0];
        let max_score = sorted[sorted.len() - 1];
        let q1 = get_percentile(&sorted, 1);
        let median = get_percentile(&sorted, 2);
        let q3 = get_percentile(&sorted, 3);
        let lower_bound = get_lower_fence(&sorted, q1, q3);
        let upper_bound = get_upper_fence(&sorted, q1, q3);
        let ghost w = lemma_score_within_fences(t);
        let outliers = outliers(&sorted, lower_bound, upper_bound);
        let lower_whisker = lower_whisker(&sorted, lower_bound, upper_bound);
        let upper_whisker = upper_whisker(&sorted, lower_bound, upper_bound);
        proof {
            lemma_percentile_between(t, 1);
            lemma_percentile_between(t, 3);
            let m = t.len() - 1;
            assert(m * 3 <= m * 4) by (nonlinear_arith)
                requires
                    m >= 0,
            ;
            if 0 < (m * 3 + 3) / 4 {
                assert(ascending()(t[0], t[(m * 3 + 3) / 4]));
            }
            if (m * 3 + 3) / 4 < m {
                assert(ascending()(t[(m * 3 + 3) / 4], t[m]));
            }
            if 0 < m / 4 {
                assert(ascending()(t[0], t[m / 4]));
            }
            assert(m * 1 == m);
            assert(lower_whisker <= t[w] <= upper_whisker);
            assert(t.contains(lower_whisker));
            assert(t.contains(upper_whisker));
            let a = choose|a: int| 0 <= a < t.len() && t[a] == lower_whisker;
            let c = choose|c: int| 0 <= c < t.len() && t[c] == upper_whisker;
            if 0 < a {
                assert(ascending()(t[0], t[a]));
            }
            if c < m {
                assert(ascending()(t[c], t[m]));
            }
            lemma_scores_between_extremes(s);
            lemma_total_bounds(s, min_score as int, max_score as int);
            let n = s.len() as int;
            assert(n * min_score <= total(s) <= n * max_score);
            assert(min_score <= total(s) / n <= max_score) by (nonlinear_arith)
                requires
                    n >= 1,
                    n * min_score <= total(s) <= n * max_score,
            ;
        }
        UmaBoxPlot {
            label: uma_data.name.clone(),
            min: min_score,
            median,
            mean,
            max: max_score,
            q1,
            q3,
            lower_whisker,
            upper_whisker,
            outliers,
        }
    }
}


impl UmaData {
    /// One entry for each name of the score table, with its scores.
    pub fn from_scores(scores: &ScoreTable) -> (r: Vec<UmaData>)
        ensures
            r.len() == scores.entry_count(),
            forall|i: int|
                0 <= i < r.len() ==> {
                    &&& (#[trigger] r@[i]).name@ == scores.name_at(i)
                    &&& scores.view().contains_key(r@[i].name@)
                    &&& scores.view()[r@[i].name@] == r@[i].scores@
                },
            forall|i: int, j: int|
                0 <= i < r.len() && 0 <= j < r.len() && i != j ==> (#[trigger] r@[i]).name@ != (
                #[trigger] r@[j]).name@,
            forall|k: Seq<char>|
                #[trigger] scores.view().contains_key(k) <==> exists|i: int|
                    0 <= i < r.len() && (#[trigger] r@[i]).name@ == k,
    {
        let n = scores.len();
        let mut r: Vec<UmaData> = Vec::new();
        let mut i: usize = 0;
        while i < n
            invariant
                n == scores.entry_count(),
                i <= n,
                r.len() == i,
                forall|j: int|
                    0 <= j < i ==> {
                        &&& (#[trigger] r@[j]).name@ == scores.name_at(j)
                        &&& scores.view().contains_key(r@[j].name@)
                        &&& scores.view()[r@[j].name@] == r@[j].scores@
                    },
            decreases n - i,
        {
            let (name, v) = scores.entry(i);
            r.push(UmaData { name, scores: v });
            i = i + 1;
        }
        proof {
            assert forall|k: Seq<char>| #[trigger] scores.view().contains_key(k) implies exists|i: int|
                0 <= i < r.len() && (#[trigger] r@[i]).name@ == k by {
                let i = choose|i: int| 0 <= i < scores.entry_count() && #[trigger] scores.name_at(i) == k;
                assert(r@[i].name@ == k);
            }
            assert forall|i: int, j: int|
                0 <= i < r.len() && 0 <= j < r.len() && i != j implies (#[trigger] r@[i]).name@ != (
                #[trigger] r@[j]).name@ by {
                assert(scores.name_at(i) != scores.name_at(j));
            }
        }
        r
    }
}

/// The range of scores that the plots cover.
pub struct Bounds {
    pub upper: u32,
    pub lower: u32,
    pub delta: u32,
}

/// The margin kept above and below the scores: 5% of their range, rounded
/// down; for every `u32` range this is what truncating `range as f64 * 0.05`
/// gives.
pub open spec fn margin(min: u32, max: u32) -> int {
    (max - min) / 20
}

/// Whether bounds can be drawn around scores from `min` to `max`: the
/// margin fits below `min` and above `max`.
pub open spec fn bounds_fit(min: u32, max: u32) -> bool {
    &&& min <= max
    &&& margin(min, max) <= min
    &&& max + margin(min, max) <= u32::MAX
}

impl Bounds {
    /// The range from `min` to `max`, widened by the margin on both sides.
    pub fn new(min: u32, max: u32) -> (b: Self)
        requires
            bounds_fit(min, max),
        ensures
            b.lower == min - margin(min, max),
            b.upper == max + margin(min, max),
            b.delta == b.upper - b.lower,
    {
        let margin = (max - min) / 20;
        let upper = max + margin;
        let lower = min - margin;
        Bounds { upper, lower, delta: upper - lower }
    }
}


/// The characters of `u` that have scores, in order.
pub open spec fn with_scores(u: Seq<UmaData>) -> Seq<UmaData>
    decreases u.len(),
{
    if u.len() == 0 {
        Seq::empty()
    } else {
        let p = with_scores(u.drop_last());
        if u.last().scores.len() > 0 {
            p.push(u.last())
        } else {
            p
        }
    }
}

/// The statistic of the scores `s` that plots of the kind `kind` are
/// ordered by: the lowest score, the mean, the median or the highest score.
pub open spec fn statistic(kind: BoxPlotType, s: Seq<u32>) -> int {
    let t = sorted_scores(s);
    match kind {
        BoxPlotType::Min => t[0] as int,
        BoxPlotType::Mean => total(s) / (s.len() as int),
        BoxPlotType::Median => percentile(t, 2),
        BoxPlotType::Max => t.last() as int,
    }
}

/// The statistics of the kind `kind` of the characters `ps`.
pub open spec fn statistics(kind: BoxPlotType, ps: Seq<UmaData>) -> Seq<int> {
    ps.map_values(|u: UmaData| statistic(kind, u.scores@))
}

/// The statistic of the kind `kind` that the box plot `b` shows.
pub open spec fn shown(b: UmaBoxPlot, kind: BoxPlotType) -> int {
    match kind {
        BoxPlotType::Min => b.min as int,
        BoxPlotType::Mean => b.mean as int,
        BoxPlotType::Median => b.median as int,
        BoxPlotType::Max => b.max as int,
    }
}

/// The statistic of the kind `kind` that the box plot `b` shows.
fn plot_statistic(b: &UmaBoxPlot, kind: BoxPlotType) -> (v: u32)
    ensures
        v == shown(*b, kind),
{
    match kind {
        BoxPlotType::Min => b.min,
        BoxPlotType::Mean => b.mean,
        BoxPlotType::Median => b.median,
        BoxPlotType::Max => b.max,
    }
}

/// Where a plot with statistic `m` goes among plots in the order `order`
/// (positions into `meds`, their statistics): after the leading plots whose
/// statistic is at most `m`.
pub open spec fn insert_position(order: Seq<int>, meds: Seq<int>, m: int) -> int
    decreases order.len(),
{
    if order.len() == 0 {
        0
    } else if meds[order[0]] > m {
        0
    } else {
        1 + insert_position(order.drop_first(), meds, m)
    }
}

/// The order of plots with statistics `meds` from the lowest to the highest;
/// plots with equal statistics keep their order.
pub open spec fn plot_order(meds: Seq<int>) -> Seq<int>
    decreases meds.len(),
{
    if meds.len() == 0 {
        Seq::empty()
    } else {
        let o = plot_order(meds.drop_last());
        o.insert(insert_position(o, meds, meds.last()), meds.len() - 1)
    }
}

proof fn lemma_insert_position(order: Seq<int>, meds: Seq<int>, m: int)
    requires
        forall|q: int| 0 <= q < order.len() ==> 0 <= #[trigger] order[q] < meds.len(),
    ensures
        0 <= insert_position(order, meds, m) <= order.len(),
        forall|q: int| 0 <= q < insert_position(order, meds, m) ==> meds[#[trigger] order[q]] <= m,
        insert_position(order, meds, m) < order.len() ==> meds[order[insert_position(order, meds, m)]] > m,
    decreases order.len(),
{
    if order.len() > 0 && meds[order[0]] <= m {
        lemma_insert_position(order.drop_first(), meds, m);
        assert forall|q: int| 0 <= q < insert_position(order, meds, m) implies meds[#[trigger] order[q]] <= m by {
            if q > 0 {
                assert(order[q] == order.drop_first()[q - 1]);
            }
        }
    }
}

proof fn lemma_insert_position_push(order: Seq<int>, meds: Seq<int>, x: int, m: int)
    requires
        forall|q: int| 0 <= q < order.len() ==> 0 <= #[trigger] order[q] < meds.len(),
    ensures
        insert_position(order, meds.push(x), m) == insert_position(order, meds, m),
    decreases order.len(),
{
    if order.len() > 0 {
        lemma_insert_position_push(order.drop_first(), meds, x, m);
    }
}

/// Ordering plots by a statistic lists each plot exactly once, from the
/// lowest statistic to the highest.
pub proof fn law_plot_order(meds: Seq<int>)
    ensures
        plot_order(meds).len() == meds.len(),
        plot_order(meds).no_duplicates(),
        forall|q: int| 0 <= q < meds.len() ==> 0 <= #[trigger] plot_order(meds)[q] < meds.len(),
        forall|p: int, q: int|
            0 <= p < q < meds.len() ==> meds[#[trigger] plot_order(meds)[p]] <= meds[#[trigger] plot_order(
                meds,
            )[q]],
    decreases meds.len(),
{
    if meds.len() > 0 {
        let prev = meds.drop_last();
        let o = plot_order(prev);
        let n = meds.len() - 1;
        law_plot_order(prev);
        assert forall|q: int| 0 <= q < o.len() implies 0 <= #[trigger] o[q] < meds.len() by {}
        lemma_insert_position(o, meds, meds.last());
        let pos = insert_position(o, meds, meds.last());
        let r = o.insert(pos, n);
        assert(r == plot_order(meds));
        assert forall|q: int| 0 <= q < r.len() implies 0 <= #[trigger] r[q] < meds.len() by {
            if q < pos {
                assert(r[q] == o[q]);
            } else if q > pos {
                assert(r[q] == o[q - 1]);
            }
        }
        assert forall|p: int, q: int| 0 <= p < r.len() && 0 <= q < r.len() && p != q implies r[p] != r[q] by {
            if p != pos && q != pos {
                let pp = if p < pos { p } else { p - 1 };
                let qq = if q < pos { q } else { q - 1 };
                assert(r[p] == o[pp]);
                assert(r[q] == o[qq]);
            } else if p == pos {
                let qq = if q < pos { q } else { q - 1 };
                assert(r[q] == o[qq]);
            } else {
                let pp = if p < pos { p } else { p - 1 };
                assert(r[p] == o[pp]);
            }
        }
        assert forall|p: int, q: int| 0 <= p < q < meds.len() implies meds[#[trigger] r[p]]
            <= meds[#[trigger] r[q]] by {
            assert(forall|a: int| 0 <= a < o.len() ==> prev[o[a]] == meds[o[a]]);
            if q < pos {
                assert(meds[o[p]] <= meds[o[q]]);
            } else if q == pos {
                assert(r[p] == o[p]);
            } else if p < pos {
                assert(r[p] == o[p]);
                assert(r[q] == o[q - 1]);
                assert(meds[o[p]] <= meds.last());
                assert(meds[o[pos]] > meds.last());
                if pos < q - 1 {
                    assert(meds[o[pos]] <= meds[o[q - 1]]);
                }
            } else if p == pos {
                assert(r[q] == o[q - 1]);
                assert(meds[o[pos]] > meds.last());
                if pos < q - 1 {
                    assert(meds[o[pos]] <= meds[o[q - 1]]);
                }
            } else {
                assert(r[p] == o[p - 1]);
                assert(r[q] == o[q - 1]);
                assert(meds[o[p - 1]] <= meds[o[q - 1]]);
            }
        }
    }
}


/// The lowest score of the characters `ps`, folded from the largest score.
pub open spec fn lowest_score(ps: Seq<UmaData>) -> u32
    decreases ps.len(),
{
    if ps.len() == 0 {
        u32::MAX
    } else {
        let a = lowest_score(ps.drop_last());
        let b = sorted_scores(ps.last().scores@)[0];
        if b < a {
            b
        } else {
            a
        }
    }
}

/// The highest score of the characters `ps`, folded from 0.
pub open spec fn highest_score(ps: Seq<UmaData>) -> u32
    decreases ps.len(),
{
    if ps.len() == 0 {
        0
    } else {
        let a = highest_score(ps.drop_last());
        let b = sorted_scores(ps.last().scores@).last();
        if b > a {
            b
        } else {
            a
        }
    }
}

/// The lowest and highest score of a non-empty list are among its scores.
proof fn lemma_extremes_are_scores(s: Seq<u32>)
    requires
        s.len() >= 1,
    ensures
        s.contains(sorted_scores(s)[0]),
        s.contains(sorted_scores(s).last()),
{
    broadcast use vstd::seq_lib::group_to_multiset_ensures;

    let t = sorted_scores(s);
    lemma_sorted_scores(s);
    assert(t.contains(t[0]));
    assert(t.contains(t[t.len() - 1]));
    assert(t.to_multiset().count(t[0]) > 0);
    assert(t.to_multiset().count(t.last()) > 0);
}

/// The range of scores the plots cover reaches from the lowest score of any
/// character with scores to the highest: every score lies within it, and
/// both ends are scores.
pub proof fn law_scores_in_range(ps: Seq<UmaData>)
    requires
        forall|i: int| 0 <= i < ps.len() ==> (#[trigger] ps[i]).scores.len() > 0,
    ensures
        forall|i: int, j: int|
            0 <= i < ps.len() && 0 <= j < ps[i].scores.len() ==> lowest_score(ps) <= #[trigger] ps[i].scores@[j]
                <= highest_score(ps),
        ps.len() > 0 ==> exists|i: int, j: int|
            0 <= i < ps.len() && 0 <= j < ps[i].scores.len() && #[trigger] ps[i].scores@[j] == lowest_score(ps),
        ps.len() > 0 ==> exists|i: int, j: int|
            0 <= i < ps.len() && 0 <= j < ps[i].scores.len() && #[trigger] ps[i].scores@[j] == highest_score(ps),
    decreases ps.len(),
{
    if ps.len() > 0 {
        let prev = ps.drop_last();
        let s = ps.last().scores@;
        let last = ps.len() - 1;
        assert forall|i: int| 0 <= i < prev.len() implies (#[trigger] prev[i]).scores.len() > 0 by {
            assert(prev[i] == ps[i]);
        }
        law_scores_in_range(prev);
        assert(ps[last].scores.len() > 0);
        lemma_scores_between_extremes(s);
        lemma_extremes_are_scores(s);
        assert forall|i: int, j: int|
            0 <= i < ps.len() && 0 <= j < ps[i].scores.len() implies lowest_score(ps) <= #[trigger] ps[i].scores@[j]
                <= highest_score(ps) by {
            if i < last {
                assert(ps[i] == prev[i]);
            } else {
                assert(s[j] == ps[i].scores@[j]);
            }
        }
        let jl = choose|j: int| 0 <= j < s.len() && s[j] == sorted_scores(s)[0];
        let jh = choose|j: int| 0 <= j < s.len() && s[j] == sorted_scores(s).last();
        assert(ps[last].scores@[jl] == sorted_scores(s)[0]);
        assert(ps[last].scores@[jh] == sorted_scores(s).last());
        if prev.len() > 0 {
            let (il, jl2) = choose|i: int, j: int|
                0 <= i < prev.len() && 0 <= j < prev[i].scores.len() && #[trigger] prev[i].scores@[j] == lowest_score(prev);
            let (ih, jh2) = choose|i: int, j: int|
                0 <= i < prev.len() && 0 <= j < prev[i].scores.len() && #[trigger] prev[i].scores@[j] == highest_score(prev);
            assert(ps[il] == prev[il]);
            assert(ps[ih] == prev[ih]);
            assert(ps[il].scores@[jl2] == lowest_score(prev));
            assert(ps[ih].scores@[jh2] == highest_score(prev));
        } else {
            assert(lowest_score(prev) == u32::MAX);
            assert(highest_score(prev) == 0);
        }
    }
}

/// Every character in the list of characters with scores has scores.
proof fn lemma_with_scores_nonempty(u: Seq<UmaData>)
    ensures
        forall|i: int| 0 <= i < with_scores(u).len() ==> (#[trigger] with_scores(u)[i]).scores.len() > 0,
    decreases u.len(),
{
    if u.len() > 0 {
        lemma_with_scores_nonempty(u.drop_last());
        let p = with_scores(u.drop_last());
        assert forall|i: int| 0 <= i < with_scores(u).len() implies (#[trigger] with_scores(u)[i]).scores.len() > 0 by {
            if i < p.len() {
                assert(with_scores(u)[i] == p[i]);
            }
        }
    }
}

/// A box plot can be drawn of the scores exactly when there is at least one
/// and at most `u32::MAX` of them, and adding them up one by one never goes
/// past `u32::MAX`.
pub proof fn law_plottable(s: Seq<u32>)
    ensures
        plottable(s) <==> (1 <= s.len() <= u32::MAX && forall|i: int|
            0 <= i <= s.len() ==> #[trigger] total(s.take(i)) <= u32::MAX),
{
    if 1 <= s.len() <= u32::MAX && total(s) <= u32::MAX {
        assert forall|i: int| 0 <= i <= s.len() implies #[trigger] total(s.take(i)) <= u32::MAX by {
            lemma_total_prefix(s, i);
        }
    }
    assert(s.take(s.len() as int) == s);
}

/// Whether a box plot can be drawn of each character of `ps`.
pub open spec fn all_plottable(ps: Seq<UmaData>) -> bool {
    forall|i: int| 0 <= i < ps.len() ==> plottable(#[trigger] ps[i].scores@)
}

/// Whether an image with `n` box plots side by side fits in the widths
/// that the image can have.
pub open spec fn width_fits(n: nat) -> bool {
    160 + 42 * n <= u32::MAX
}

/// The box plots to draw, in order, the range of scores they cover, and the
/// width of the image.
pub struct PlotLayout {
    pub boxplots: Vec<UmaBoxPlot>,
    pub bounds: Bounds,
    pub width: u32,
}

/// Whether a box plot can be drawn of the scores `s`.
pub fn can_plot(s: &Vec<u32>) -> (b: bool)
    ensures
        b == plottable(s@),
{
    if s.len() == 0 || s.len() > 0xffff_ffffusize {
        return false;
    }
    let mut sum: u64 = 0;
    let mut i: usize = 0;
    assert(s@.take(0) == Seq::<u32>::empty());
    while i < s.len()
        invariant
            0 <= i <= s.len(),
            sum == total(s@.take(i as int)),
            sum <= u32::MAX,
        decreases s.len() - i,
    {
        assert(s@.take(i + 1).drop_last() == s@.take(i as int));
        sum = sum + s[i] as u64;
        if sum > 0xffff_ffffu64 {
            proof {
                lemma_total_prefix(s@, i + 1);
            }
            return false;
        }
        i = i + 1;
    }
    assert(s@.take(s.len() as int) == s@);
    true
}

/// The width of an image with `slots` box plots side by side.
pub fn base_image_width(slots: usize) -> (w: u32)
    requires
        width_fits(slots as nat),
    ensures
        w == 160 + 42 * slots,
{
    160 + 42 * (slots as u32)
}

/// The left edge of the `i`-th box plot in the image.
pub fn boxplot_left(i: usize) -> (x: u32)
    requires
        80 + 42 * i <= u32::MAX,
    ensures
        x == 80 + 42 * i,
{
    80 + 42 * (i as u32)
}

/// The box plots of the characters with scores, ordered from the lowest to
/// the highest statistic of the kind `kind` (lowest score, mean, median or
/// highest score), with the range of scores they cover and the width
/// of the image; `None` where no plot can be drawn: some character's scores
/// do not sum to a score, the scores leave no room for the margin, or there
/// are no scores at all.
pub fn layout_plots(umadata: &Vec<UmaData>, kind: BoxPlotType) -> (r: Option<PlotLayout>)
    ensures
        ({
            let ps = with_scores(umadata@);
            &&& r is Some <==> all_plottable(ps) && bounds_fit(lowest_score(ps), highest_score(ps))
                && width_fits(ps.len())
            &&& r matches Some(l) ==> {
                let o = plot_order(statistics(kind, ps));
                &&& l.boxplots.len() == ps.len()
                &&& forall|j: int|
                    0 <= j < ps.len() ==> is_box_plot_of(
                        #[trigger] l.boxplots@[j],
                        ps[o[j]].name@,
                        ps[o[j]].scores@,
                    )
                &&& l.bounds.lower == lowest_score(ps) - margin(lowest_score(ps), highest_score(ps))
                &&& l.bounds.upper == highest_score(ps) + margin(lowest_score(ps), highest_score(ps))
                &&& l.bounds.delta == l.bounds.upper - l.bounds.lower
                &&& l.width == 160 + 42 * ps.len()
                &&& forall|i: int, j: int|
                    0 <= i < ps.len() && 0 <= j < ps[i].scores.len() ==> l.bounds.lower + margin(
                        lowest_score(ps),
                        highest_score(ps),
                    ) <= #[trigger] ps[i].scores@[j] <= l.bounds.upper - margin(
                        lowest_score(ps),
                        highest_score(ps),
                    )
            }
        }),
{
    let mut out: Vec<UmaBoxPlot> = Vec::new();
    let mut lowest: u32 = 0xffff_ffffu32;
    let mut highest: u32 = 0;
    let mut i: usize = 0;
    let ghost mut ps: Seq<UmaData> = Seq::empty();
    assert(umadata@.take(0) == Seq::<UmaData>::empty());
    while i < umadata.len()
        invariant
            i <= umadata.len(),
            ps == with_scores(umadata@.take(i as int)),
            all_plottable(ps),
            out.len() == ps.len(),
            lowest == lowest_score(ps),
            highest == highest_score(ps),
            forall|j: int|
                0 <= j < ps.len() ==> {
                    let o = plot_order(statistics(kind, ps));
                    &&& is_box_plot_of(
                        #[trigger] out@[j],
                        ps[o[j]].name@,
                        ps[o[j]].scores@,
                    )
                    &&& shown(out@[j], kind) == statistics(kind, ps)[o[j]]
                },
        decreases umadata.len() - i,
    {
        let uma = &umadata[i];
        let ghost prev = ps;
        assert(umadata@.take(i + 1).drop_last() == umadata@.take(i as int));
        assert(umadata@.take(i + 1).last() == *uma);
        if uma.scores.len() > 0 {
            if !can_plot(&uma.scores) {
                assert(!all_plottable(prev.push(*uma))) by {
                    assert(prev.push(*uma)[prev.len() as int] == *uma);
                }
                assert(with_scores(umadata@) == with_scores(umadata@.take(i + 1)) + with_scores(
                    umadata@.skip(i + 1),
                )) by {
                    lemma_with_scores_append(umadata@.take(i + 1), umadata@.skip(i + 1));
                    assert(umadata@.take(i + 1) + umadata@.skip(i + 1) == umadata@);
                }
                assert(with_scores(umadata@)[prev.len() as int] == *uma);
                return None;
            }
            let plot = UmaBoxPlot::from_uma_data(uma);
            let ghost meds = statistics(kind, prev);
            let ghost o = plot_order(meds);
            let ghost m = statistic(kind, uma.scores@);
            let key = plot_statistic(&plot, kind);
            proof {
                law_plot_order(meds);
            }
            let mut pos: usize = 0;
            assert(o.skip(0) == o);
            while pos < out.len() && plot_statistic(&out[pos], kind) <= key
                invariant
                    pos <= out.len(),
                    out.len() == o.len(),
                    key == m,
                    forall|q: int| 0 <= q < out.len() ==> shown(#[trigger] out@[q], kind) == meds[o[q]],
                    insert_position(o, meds, m) == pos + insert_position(o.skip(pos as int), meds, m),
                decreases out.len() - pos,
            {
                assert(o.skip(pos as int)[0] == o[pos as int]);
                assert(o.skip(pos as int).drop_first() == o.skip(pos + 1));
                pos = pos + 1;
            }
            proof {
                if pos < out.len() {
                    assert(o.skip(pos as int)[0] == o[pos as int]);
                }
            }
            let ghost before = out@;
            if plot.min < lowest {
                lowest = plot.min;
            }
            if plot.max > highest {
                highest = plot.max;
            }
            out.insert(pos, plot);
            proof {
                ps = prev.push(*uma);
                let meds2 = statistics(kind, ps);
                assert(meds2 == meds.push(m));
                assert(meds2.drop_last() == meds);
                assert(forall|q: int| 0 <= q < o.len() ==> 0 <= #[trigger] o[q] < meds.len());
                lemma_insert_position_push(o, meds, m, m);
                let o2 = plot_order(meds2);
                assert(o2 == o.insert(pos as int, prev.len() as int));
                assert forall|j: int| 0 <= j < ps.len() implies {
                    &&& is_box_plot_of(#[trigger] out@[j], ps[o2[j]].name@, ps[o2[j]].scores@)
                    &&& shown(out@[j], kind) == meds2[o2[j]]
                } by {
                    if j < pos {
                        assert(out@[j] == before[j]);
                        assert(o2[j] == o[j]);
                        assert(ps[o[j]] == prev[o[j]]);
                    } else if j == pos {
                        assert(o2[j] == prev.len());
                    } else {
                        assert(out@[j] == before[j - 1]);
                        assert(o2[j] == o[j - 1]);
                        assert(ps[o[j - 1]] == prev[o[j - 1]]);
                    }
                }
                assert(all_plottable(ps)) by {
                    assert forall|q: int| 0 <= q < ps.len() implies plottable(#[trigger] ps[q].scores@) by {
                        if q < prev.len() {
                            assert(ps[q] == prev[q]);
                        }
                    }
                }
                assert(ps.drop_last() == prev);
            }
        }
        i = i + 1;
    }
    assert(umadata@.take(umadata.len() as int) == umadata@);
    if !(lowest <= highest && (highest - lowest) / 20 <= lowest && highest as u64 + ((highest
        - lowest) / 20) as u64 <= 0xffff_ffffu64) {
        return None;
    }
    if out.len() > 102261122 {
        return None;
    }
    let bounds = Bounds::new(lowest, highest);
    let width = base_image_width(out.len());
    proof {
        lemma_with_scores_nonempty(umadata@);
        law_scores_in_range(with_scores(umadata@));
    }
    Some(PlotLayout { boxplots: out, bounds, width })
}

/// The characters with scores of two lists one after the other are those of
/// the first followed by those of the second.
proof fn lemma_with_scores_append(a: Seq<UmaData>, b: Seq<UmaData>)
    ensures
        with_scores(a + b) == with_scores(a) + with_scores(b),
    decreases b.len(),
{
    if b.len() == 0 {
        assert(a + b == a);
        assert(with_scores(a) + with_scores(b) == with_scores(a));
    } else {
        lemma_with_scores_append(a, b.drop_last());
        assert((a + b).drop_last() == a + b.drop_last());
        assert((a + b).last() == b.last());
        if b.last().scores.len() > 0 {
            assert(with_scores(a) + with_scores(b.drop_last()).push(b.last()) == (with_scores(a)
                + with_scores(b.drop_last())).push(b.last()));
        }
    }
}


/// The value of the hexadecimal digit `c`, if it is one.
pub open spec fn hex_digit_value(c: char) -> Option<u8> {
    if '0' <= c <= '9' {
        Some((c as int - '0' as int) as u8)
    } else if 'a' <= c <= 'f' {
        Some((c as int - 'a' as int + 10) as u8)
    } else if 'A' <= c <= 'F' {
        Some((c as int - 'A' as int + 10) as u8)
    } else {
        None
    }
}

/// What std's `u8::from_str_radix(s, 16)` gives for one or two characters:
/// hexadecimal digits, the first of two possibly a `+` sign.
pub open spec fn hex_byte(s: Seq<char>) -> Option<u8> {
    if s.len() == 1 {
        hex_digit_value(s[0])
    } else if s.len() == 2 {
        if s[0] == '+' {
            hex_digit_value(s[1])
        } else {
            match (hex_digit_value(s[0]), hex_digit_value(s[1])) {
                (Some(a), Some(b)) => Some((16 * a + b) as u8),
                _ => None,
            }
        }
    } else {
        None
    }
}

/// The colour that a hex code such as `#ff00bb` or `#abc` (with or without
/// the `#`) stands for; `None` when it is no such code. A digit of the short
/// form stands for that digit repeated.
pub open spec fn hex_colour(text: Seq<char>) -> Option<(u8, u8, u8)> {
    let code = if text.len() > 0 && text[0] == '#' {
        text.drop_first()
    } else {
        text
    };
    if code.len() == 3 {
        match (
            hex_byte(code.subrange(0, 1)),
            hex_byte(code.subrange(1, 2)),
            hex_byte(code.subrange(2, 3)),
        ) {
            (Some(r), Some(g), Some(b)) => Some(((r * 17) as u8, (g * 17) as u8, (b * 17) as u8)),
            _ => None,
        }
    } else if code.len() == 6 {
        match (
            hex_byte(code.subrange(0, 2)),
            hex_byte(code.subrange(2, 4)),
            hex_byte(code.subrange(4, 6)),
        ) {
            (Some(r), Some(g), Some(b)) => Some((r, g, b)),
            _ => None,
        }
    } else {
        None
    }
}

/// Whether every character of `s` is ASCII.
pub open spec fn all_ascii(s: Seq<char>) -> bool {
    forall|i: int| 0 <= i < s.len() ==> (#[trigger] s[i] as u32) < 128
}

/// The red, green and blue of a colour hex code.
///
/// Trusted: calls palette's `FromStr` for `Srgb<u8>`, which strips one
/// leading `#` and reads 3 or 6 hexadecimal digits with std's
/// `u8::from_str_radix`, the short form scaled by 17; the contract claims
/// exactly `hex_colour`. Its slicing assumes ASCII text, hence the
/// precondition.
#[verifier::external_body]
fn srgb_from_hex(text: &str) -> (r: Option<(u8, u8, u8)>)
    requires
        all_ascii(text@),
    ensures
        r == hex_colour(text@),
{
    match palette::Srgb::<u8>::from_str(text) {
        Ok(c) => Some((c.red, c.green, c.blue)),
        Err(_) => None,
    }
}

/// Whether the characters of `s` are all ASCII.
fn is_ascii_text(s: &str) -> (b: bool)
    ensures
        b == all_ascii(s@),
{
    let chars = crate::text::chars_of(s);
    let mut i: usize = 0;
    while i < chars.len()
        invariant
            i <= chars.len(),
            chars@ == s@,
            forall|j: int| 0 <= j < i ==> (#[trigger] chars@[j] as u32) < 128,
        decreases chars.len() - i,
    {
        if (chars[i] as u32) >= 128 {
            return false;
        }
        i = i + 1;
    }
    true
}

/// The colour of a character's box: its colour code, opaque, or opaque
/// black when it has none; `None` when its colour code is no colour.
pub fn box_base_colour(colour: Option<&str>) -> (r: Option<[u8; 4]>)
    ensures
        match colour {
            None => r == Some([0u8, 0u8, 0u8, 255u8]),
            Some(text) => match hex_colour(text@) {
                Some((red, green, blue)) => all_ascii(text@) && r == Some([red, green, blue, 255u8]),
                None => r is None,
            },
        },
{
    match colour {
        None => Some([0, 0, 0, 255]),
        Some(text) => {
            if !is_ascii_text(text) {
                assert(hex_colour(text@) is None) by {
                    lemma_hex_colour_ascii(text@);
                }
                return None;
            }
            match srgb_from_hex(text) {
                Some((red, green, blue)) => Some([red, green, blue, 255]),
                None => None,
            }
        },
    }
}

/// A colour code that stands for a colour is ASCII.
proof fn lemma_hex_colour_ascii(text: Seq<char>)
    ensures
        hex_colour(text) is Some ==> all_ascii(text),
{
    if hex_colour(text) is Some {
        let code = if text.len() > 0 && text[0] == '#' {
            text.drop_first()
        } else {
            text
        };
        let off: int = if text.len() > 0 && text[0] == '#' {
            1
        } else {
            0
        };
        assert forall|i: int| 0 <= i < text.len() implies (#[trigger] text[i] as u32) < 128 by {
            if i >= off {
                let j = i - off;
                assert(code[j] == text[i]);
                if code.len() == 3 {
                    assert(code.subrange(j, j + 1)[0] == code[j]);
                } else {
                    let p = j - j % 2;
                    assert(code.subrange(p, p + 2)[j % 2] == code[j]);
                }
            }
        }
    }
}

/// The kinds of box plot images, by the statistic that orders them.
#[derive(Clone, Copy, Debug, PartialEq, Eq, Structural)]
pub enum BoxPlotType {
    Min,
    Mean,
    Median,
    Max,
}

impl BoxPlotType {
    /// The file name of the image of this kind.
    pub fn to_file_name(&self) -> (s: &'static str)
        ensures
            s@ == match *self {
                BoxPlotType::Min => "min"@,
                BoxPlotType::Mean => "mean"@,
                BoxPlotType::Median => "median"@,
                BoxPlotType::Max => "max"@,
            },
    {
        match self {
            BoxPlotType::Min => "min",
            BoxPlotType::Mean => "mean",
            BoxPlotType::Median => "median",
            BoxPlotType::Max => "max",
        }
    }

    /// The name of this kind shown to the user.
    pub fn display_name(&self) -> (s: &'static str)
        ensures
            s@ == match *self {
                BoxPlotType::Min => "Minimum"@,
                BoxPlotType::Mean => "Mean"@,
                BoxPlotType::Median => "Median"@,
                BoxPlotType::Max => "Maximum"@,
            },
    {
        match self {
            BoxPlotType::Min => "Minimum",
            BoxPlotType::Mean => "Mean",
            BoxPlotType::Median => "Median",
            BoxPlotType::Max => "Maximum",
        }
    }
}

} // verus!
