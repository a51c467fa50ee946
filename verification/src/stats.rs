use vstd::prelude::*;
use vstd::relations::{sorted_by, total_ordering};

verus! {

/// The order of scores from lowest to highest.
pub open spec fn ascending() -> spec_fn(u32, u32) -> bool {
    |a: u32, b: u32| a <= b
}

/// The scores of `s` from lowest to highest.
pub open spec fn sorted_scores(s: Seq<u32>) -> Seq<u32> {
    s.sort_by(ascending())
}

/// The sum of the scores of `s`.
pub open spec fn total(s: Seq<u32>) -> int
    decreases s.len(),
{
    if s.len() == 0 {
        0
    } else {
        total(s.drop_last()) + s.last()
    }
}

proof fn lemma_ascending_total()
    ensures
        total_ordering(ascending()),
{
}

/// `sorted_scores(s)` holds the scores of `s`, from lowest to highest.
pub proof fn lemma_sorted_scores(s: Seq<u32>)
    ensures
        sorted_by(sorted_scores(s), ascending()),
        sorted_scores(s).to_multiset() == s.to_multiset(),
        sorted_scores(s).len() == s.len(),
{
    broadcast use vstd::seq_lib::group_to_multiset_ensures;

    lemma_ascending_total();
    s.lemma_sort_by_ensures(ascending());
    assert(sorted_scores(s).to_multiset().len() == s.to_multiset().len());
}

/// Two orderings of the same scores from lowest to highest are equal: the
/// sorted order of a list of scores is unique.
pub proof fn lemma_sorted_unique(a: Seq<u32>, b: Seq<u32>)
    requires
        sorted_by(a, ascending()),
        sorted_by(b, ascending()),
        a.to_multiset() == b.to_multiset(),
    ensures
        a == b,
    decreases a.len(),
{
    broadcast use vstd::seq_lib::group_to_multiset_ensures;

    assert(a.len() == a.to_multiset().len());
    assert(b.len() == b.to_multiset().len());
    if a.len() > 0 {
        assert(a.to_multiset().count(a[0]) > 0);
        assert(b.contains(a[0]));
        let j = choose|j: int| 0 <= j < b.len() && b[j] == a[0];
        assert(b[0] <= b[j]) by {
            if j > 0 {
                assert(ascending()(b[0], b[j]));
            }
        }
        assert(b.to_multiset().count(b[0]) > 0);
        assert(a.contains(b[0]));
        let i = choose|i: int| 0 <= i < a.len() && a[i] == b[0];
        assert(a[0] <= a[i]) by {
            if i > 0 {
                assert(ascending()(a[0], a[i]));
            }
        }
        assert(a[0] == b[0]);
        assert(a.remove(0) == a.drop_first());
        assert(b.remove(0) == b.drop_first());
        assert(a.drop_first().to_multiset() == b.drop_first().to_multiset());
        assert(sorted_by(a.drop_first(), ascending())) by {
            assert forall|p: int, q: int| 0 <= p < q < a.drop_first().len() implies #[trigger] ascending()(
                a.drop_first()[p],
                a.drop_first()[q],
            ) by {
                assert(ascending()(a[p + 1], a[q + 1]));
            }
        }
        assert(sorted_by(b.drop_first(), ascending())) by {
            assert forall|p: int, q: int| 0 <= p < q < b.drop_first().len() implies #[trigger] ascending()(
                b.drop_first()[p],
                b.drop_first()[q],
            ) by {
                assert(ascending()(b[p + 1], b[q + 1]));
            }
        }
        lemma_sorted_unique(a.drop_first(), b.drop_first());
        assert(a == b.drop_first().insert(0, b[0]));
    }
}

/// The scores of `v` from lowest to highest.
pub fn sort_scores(v: &Vec<u32>) -> (r: Vec<u32>)
    ensures
        r@ == sorted_scores(v@),
{
    broadcast use vstd::seq_lib::group_to_multiset_ensures;

    let mut out: Vec<u32> = Vec::new();
    let n = v.len();
    let mut i: usize = 0;
    while i < n
        invariant
            n == v.len(),
            i <= n,
            sorted_by(out@, ascending()),
            out@.to_multiset() == v@.take(i as int).to_multiset(),
        decreases n - i,
    {
        let x = v[i];
        let mut pos: usize = 0;
        while pos < out.len() && out[pos] <= x
            invariant
                pos <= out.len(),
                forall|q: int| 0 <= q < pos ==> out@[q] <= x,
            decreases out.len() - pos,
        {
            pos = pos + 1;
        }
        let ghost before = out@;
        out.insert(pos, x);
        proof {
            assert(out@ == before.insert(pos as int, x));
            assert forall|p: int, q: int| 0 <= p < q < out@.len() implies #[trigger] ascending()(
                out@[p],
                out@[q],
            ) by {
                if q < pos {
                    assert(ascending()(before[p], before[q]));
                } else if q == pos {
                    assert(before[p] <= x);
                } else if p < pos {
                    assert(before[p] <= x);
                    assert(pos < before.len());
                    assert(before[pos as int] > x);
                    if pos < q - 1 {
                        assert(ascending()(before[pos as int], before[q - 1]));
                    }
                } else if p == pos {
                    assert(before[pos as int] > x);
                    if pos < q - 1 {
                        assert(ascending()(before[pos as int], before[q - 1]));
                    }
                } else {
                    assert(ascending()(before[p - 1], before[q - 1]));
                }
            }
            assert(v@.take(i + 1) == v@.take(i as int).push(x));
            vstd::seq_lib::to_multiset_insert(before, pos as int, x);
            vstd::seq_lib::to_multiset_build(v@.take(i as int), x);
        }
        i = i + 1;
    }
    proof {
        assert(v@.take(n as int) == v@);
        lemma_sorted_scores(v@);
        lemma_sorted_unique(out@, sorted_scores(v@));
    }
    out
}


/// The quantile `quarters / 4` of the sorted scores `t`, interpolated
/// linearly between the two scores around its position and rounded down.
/// The position and the weights are multiples of a quarter, so computing
/// them in `f64` is exact for any list that fits in memory, and this is the
/// value that truncating the `f64` interpolation gives.
pub open spec fn percentile(t: Seq<u32>, quarters: nat) -> int {
    let p = (t.len() - 1) * quarters;
    let f = p % 4;
    (t[p / 4] * (4 - f) + t[(p + 3) / 4] * f) / 4
}

/// A value interpolated between `a` and `b` lies between them.
proof fn lemma_interpolation(a: int, b: int, f: int)
    requires
        0 <= a <= b,
        0 <= f < 4,
    ensures
        a <= (a * (4 - f) + b * f) / 4 <= b,
        f == 0 ==> (a * (4 - f) + b * f) / 4 == a,
{
    assert(4 * a <= a * (4 - f) + b * f <= 4 * b) by (nonlinear_arith)
        requires
            0 <= a <= b,
            0 <= f < 4,
    ;
    if f == 0 {
        assert(a * (4 - f) + b * f == 4 * a) by (nonlinear_arith)
            requires
                f == 0,
        ;
    }
}

/// A percentile lies between the two scores around its position.
pub proof fn lemma_percentile_between(t: Seq<u32>, quarters: nat)
    requires
        t.len() >= 1,
        quarters <= 4,
        sorted_by(t, ascending()),
    ensures
        ({
            let p = (t.len() - 1) * quarters;
            &&& 0 <= p / 4 <= (p + 3) / 4 < t.len()
            &&& t[p / 4] <= percentile(t, quarters) <= t[(p + 3) / 4]
        }),
{
    let p = (t.len() - 1) * quarters;
    assert(p <= (t.len() - 1) * 4) by (nonlinear_arith)
        requires
            quarters <= 4,
            t.len() >= 1,
            p == (t.len() - 1) * quarters,
    ;
    assert(0 <= p);
    if p / 4 < (p + 3) / 4 {
        assert(ascending()(t[p / 4], t[(p + 3) / 4]));
    }
    lemma_interpolation(t[p / 4] as int, t[(p + 3) / 4] as int, p % 4);
}

/// Percentiles grow with the quantile: a larger quantile of the same sorted
/// scores is never below a smaller one.
pub proof fn lemma_percentile_monotonic(t: Seq<u32>, q: nat, r: nat)
    requires
        t.len() >= 1,
        q <= r <= 4,
        sorted_by(t, ascending()),
    ensures
        percentile(t, q) <= percentile(t, r),
{
    let p = (t.len() - 1) * q;
    let pr = (t.len() - 1) * r;
    assert(p <= pr) by (nonlinear_arith)
        requires
            q <= r,
            t.len() >= 1,
            p == (t.len() - 1) * q,
            pr == (t.len() - 1) * r,
    ;
    lemma_percentile_between(t, q);
    lemma_percentile_between(t, r);
    if (p + 3) / 4 <= pr / 4 {
        if (p + 3) / 4 < pr / 4 {
            assert(ascending()(t[(p + 3) / 4], t[pr / 4]));
        }
    } else {
        // Both lie in the same step between two scores.
        assert(p / 4 == pr / 4);
        let a = t[p / 4] as int;
        let f = p % 4;
        let g = pr % 4;
        assert(f <= g);
        if f > 0 {
            let b = t[(p + 3) / 4] as int;
            assert((pr + 3) / 4 == (p + 3) / 4);
            assert(a <= b) by {
                assert(ascending()(t[p / 4], t[(p + 3) / 4]));
            }
            assert(a * (4 - f) + b * f <= a * (4 - g) + b * g) by (nonlinear_arith)
                requires
                    a <= b,
                    f <= g,
            ;
        } else {
            lemma_interpolation(t[pr / 4] as int, t[(pr + 3) / 4] as int, g);
        }
    }
}

/// The quantile `quarters / 4` of the sorted scores `data`, as the box plots
/// compute it: the position `(len - 1) * quarters / 4` is split into a whole
/// and a fractional part, and the two scores around it are interpolated.
pub fn get_percentile(data: &Vec<u32>, quarters: u64) -> (r: u32)
    requires
        data.len() >= 1,
        quarters <= 4,
        sorted_by(data@, ascending()),
    ensures
        r == percentile(data@, quarters as nat),
{
    proof {
        lemma_percentile_between(data@, quarters as nat);
    }
    let count = (data.len() - 1) as u128;
    let q = quarters as u128;
    assert(count * q <= count * 4) by (nonlinear_arith)
        requires
            q <= 4,
    ;
    assert(count * 4 <= 4 * 0xffff_ffff_ffff_ffffu128) by (nonlinear_arith)
        requires
            count <= 0xffff_ffff_ffff_ffffu128,
    ;
    let point = count * q;
    let lower_idx = (point / 4) as usize;
    let upper_idx = ((point + 3) / 4) as usize;
    let fract = (point % 4) as u64;
    let lower_val = data[lower_idx] as u64;
    let upper_val = data[upper_idx] as u64;
    assert(lower_val * (4 - fract) + upper_val * fract <= 4 * 0xffff_ffffu64) by (nonlinear_arith)
        requires
            lower_val <= 0xffff_ffff,
            upper_val <= 0xffff_ffff,
            fract < 4,
    ;
    ((lower_val * (4 - fract) + upper_val * fract) / 4) as u32
}


/// Half of `v`, rounded down, as a score: negative values become 0 and
/// values above the largest score become the largest score.
pub open spec fn saturating_half(v: int) -> int {
    if v < 0 {
        0
    } else if v / 2 > u32::MAX {
        u32::MAX as int
    } else {
        v / 2
    }
}

/// The lower fence of the sorted scores `t`: one and a half interquartile
/// ranges below the first quartile, but not below the lowest score.
pub open spec fn lower_fence(t: Seq<u32>) -> int {
    let q1 = percentile(t, 1);
    let q3 = percentile(t, 3);
    let raw = saturating_half(2 * q1 - 3 * (q3 - q1));
    if raw < t[0] {
        t[0] as int
    } else {
        raw
    }
}

/// The upper fence of the sorted scores `t`: one and a half interquartile
/// ranges above the third quartile, but not above the highest score.
pub open spec fn upper_fence(t: Seq<u32>) -> int {
    let q1 = percentile(t, 1);
    let q3 = percentile(t, 3);
    let raw = saturating_half(2 * q3 + 3 * (q3 - q1));
    if raw > t.last() {
        t.last() as int
    } else {
        raw
    }
}

/// Whether a score lies between the fences, that is, is no outlier.
pub open spec fn within(v: u32, lo: int, hi: int) -> bool {
    lo <= v <= hi
}

/// Some score of a non-empty sorted list lies between its fences: the
/// score just above the first quartile, or the lowest of two scores.
pub proof fn lemma_score_within_fences(t: Seq<u32>) -> (i: int)
    requires
        t.len() >= 1,
        sorted_by(t, ascending()),
    ensures
        0 <= i < t.len(),
        within(t[i], lower_fence(t), upper_fence(t)),
        percentile(t, 1) <= percentile(t, 2) <= percentile(t, 3),
{
    lemma_percentile_between(t, 1);
    lemma_percentile_between(t, 3);
    lemma_percentile_monotonic(t, 1, 2);
    lemma_percentile_monotonic(t, 2, 3);
    let m = t.len() - 1;
    let q1 = percentile(t, 1);
    let q3 = percentile(t, 3);
    assert(m * 1 == m);
    if m != 1 {
        let hi1 = (m + 3) / 4;
        let lo3 = (m * 3) / 4;
        assert(hi1 <= lo3);
        if hi1 < lo3 {
            assert(ascending()(t[hi1], t[lo3]));
        }
        if 0 < hi1 {
            assert(ascending()(t[0], t[hi1]));
        }
        if hi1 < m {
            assert(ascending()(t[hi1], t[m]));
        }
        hi1
    } else {
        let a = t[0] as int;
        let b = t[1] as int;
        assert(ascending()(t[0], t[1]));
        assert(q1 == (a * 3 + b * 1) / 4);
        assert(q3 == (a * 1 + b * 3) / 4);
        assert(5 * q1 - 3 * q3 <= 2 * a);
        0
    }
}

/// The first score of `t` that lies between the fences `lo` and `hi`.
pub open spec fn first_within(t: Seq<u32>, lo: int, hi: int) -> u32
    decreases t.len(),
{
    if t.len() == 0 {
        0
    } else if within(t[0], lo, hi) {
        t[0]
    } else {
        first_within(t.drop_first(), lo, hi)
    }
}

/// The last score of `t` that lies between the fences `lo` and `hi`.
pub open spec fn last_within(t: Seq<u32>, lo: int, hi: int) -> u32
    decreases t.len(),
{
    if t.len() == 0 {
        0
    } else if within(t.last(), lo, hi) {
        t.last()
    } else {
        last_within(t.drop_last(), lo, hi)
    }
}

/// The distinct scores of `t` outside the fences `lo` and `hi`.
pub open spec fn outlier_set(t: Seq<u32>, lo: int, hi: int) -> Set<u32> {
    Set::new(|v: u32| t.contains(v) && !within(v, lo, hi))
}

/// The first score of `t` between the fences; some score must lie there.
pub fn lower_whisker(t: &Vec<u32>, lo: u32, hi: u32) -> (r: u32)
    requires
        exists|i: int| 0 <= i < t.len() && within(#[trigger] t@[i], lo as int, hi as int),
    ensures
        r == first_within(t@, lo as int, hi as int),
        within(r, lo as int, hi as int),
        t@.contains(r),
        sorted_by(t@, ascending()) ==> forall|j: int|
            0 <= j < t.len() && within(#[trigger] t@[j], lo as int, hi as int) ==> r <= t@[j],
{
    let mut i: usize = 0;
    let ghost w = choose|i: int| 0 <= i < t.len() && within(#[trigger] t@[i], lo as int, hi as int);
    assert(t@.skip(0) == t@);
    while !(lo <= t[i] && t[i] <= hi)
        invariant
            0 <= i <= w < t.len(),
            within(t@[w], lo as int, hi as int),
            forall|j: int| 0 <= j < i ==> !within(#[trigger] t@[j], lo as int, hi as int),
            first_within(t@, lo as int, hi as int) == first_within(t@.skip(i as int), lo as int, hi as int),
        decreases w - i,
    {
        assert(t@.skip(i as int).drop_first() == t@.skip(i + 1));
        i = i + 1;
    }
    assert(t@.skip(i as int)[0] == t@[i as int]);
    proof {
        if sorted_by(t@, ascending()) {
            assert forall|j: int|
                0 <= j < t.len() && within(#[trigger] t@[j], lo as int, hi as int) implies t@[i as int]
                <= t@[j] by {
                if j > i {
                    assert(ascending()(t@[i as int], t@[j]));
                }
            }
        }
    }
    t[i]
}

/// The last score of `t` between the fences; some score must lie there.
pub fn upper_whisker(t: &Vec<u32>, lo: u32, hi: u32) -> (r: u32)
    requires
        exists|i: int| 0 <= i < t.len() && within(#[trigger] t@[i], lo as int, hi as int),
    ensures
        r == last_within(t@, lo as int, hi as int),
        within(r, lo as int, hi as int),
        t@.contains(r),
        sorted_by(t@, ascending()) ==> forall|j: int|
            0 <= j < t.len() && within(#[trigger] t@[j], lo as int, hi as int) ==> t@[j] <= r,
{
    let mut i: usize = t.len();
    let ghost w = choose|i: int| 0 <= i < t.len() && within(#[trigger] t@[i], lo as int, hi as int);
    assert(t@.take(t.len() as int) == t@);
    while !(lo <= t[i - 1] && t[i - 1] <= hi)
        invariant
            0 <= w < i <= t.len(),
            within(t@[w], lo as int, hi as int),
            forall|j: int| i <= j < t.len() ==> !within(#[trigger] t@[j], lo as int, hi as int),
            last_within(t@, lo as int, hi as int) == last_within(t@.take(i as int), lo as int, hi as int),
        decreases i - w,
    {
        assert(t@.take(i as int).drop_last() == t@.take(i - 1));
        i = i - 1;
    }
    assert(t@.take(i as int).last() == t@[i - 1]);
    proof {
        if sorted_by(t@, ascending()) {
            assert forall|j: int|
                0 <= j < t.len() && within(#[trigger] t@[j], lo as int, hi as int) implies t@[j]
                <= t@[i - 1] by {
                if j < i - 1 {
                    assert(ascending()(t@[j], t@[i - 1]));
                }
            }
        }
    }
    t[i - 1]
}

/// The distinct scores of the sorted `t` outside the fences, from lowest to
/// highest.
pub fn outliers(t: &Vec<u32>, lo: u32, hi: u32) -> (r: Vec<u32>)
    requires
        sorted_by(t@, ascending()),
    ensures
        r@.to_set() == outlier_set(t@, lo as int, hi as int),
        forall|p: int, q: int| 0 <= p < q < r.len() ==> r@[p] < r@[q],
{
    let mut r: Vec<u32> = Vec::new();
    let mut i: usize = 0;
    while i < t.len()
        invariant
            0 <= i <= t.len(),
            sorted_by(t@, ascending()),
            r@.to_set() == outlier_set(t@.take(i as int), lo as int, hi as int),
            forall|p: int, q: int| 0 <= p < q < r.len() ==> r@[p] < r@[q],
            i > 0 ==> forall|p: int| 0 <= p < r.len() ==> r@[p] <= t@[i - 1],
            i == 0 ==> r.len() == 0,
        decreases t.len() - i,
    {
        let v = t[i];
        let ghost before = r@;
        let outside = v < lo || v > hi;
        if outside && (r.len() == 0 || r[r.len() - 1] != v) {
            r.push(v);
        }
        proof {
            let prev = t@.take(i as int);
            let next = t@.take(i + 1);
            assert(next == prev.push(v));
            if i > 0 {
                assert(ascending()(t@[i - 1], t@[i as int]));
            }
            assert forall|p: int| 0 <= p < r.len() implies r@[p] <= t@[i as int] by {
                if p < before.len() {
                    assert(before[p] <= t@[i - 1]);
                }
            }
            assert forall|p: int, q: int| 0 <= p < q < r.len() implies r@[p] < r@[q] by {
                if q == r.len() - 1 && r.len() > before.len() {
                    if before.len() > 0 {
                        assert(before[before.len() - 1] < v);
                        if p < before.len() - 1 {
                            assert(before[p] < before[before.len() - 1]);
                        }
                    }
                }
            }
            assert forall|x: u32| r@.to_set().contains(x) <==> outlier_set(next, lo as int, hi as int).contains(x) by {
                if r@.contains(x) {
                    let k = choose|k: int| 0 <= k < r.len() && r@[k] == x;
                    if k < before.len() {
                        assert(before.contains(x));
                        assert(before.to_set().contains(x));
                        let j = choose|j: int| 0 <= j < prev.len() && prev[j] == x;
                        assert(next[j] == x);
                    } else {
                        assert(next[i as int] == x);
                    }
                }
                if outlier_set(next, lo as int, hi as int).contains(x) {
                    let j = choose|j: int| 0 <= j < next.len() && next[j] == x;
                    if j < i {
                        assert(prev[j] == x);
                        assert(outlier_set(prev, lo as int, hi as int).contains(x));
                        assert(before.to_set().contains(x));
                        let k = choose|k: int| 0 <= k < before.len() && before[k] == x;
                        assert(r@[k] == x);
                    } else if r.len() > before.len() {
                        assert(r@[r.len() - 1] == x);
                    } else {
                        assert(before[before.len() - 1] == x);
                    }
                }
            }
            assert(r@.to_set() =~= outlier_set(next, lo as int, hi as int));
        }
        i = i + 1;
    }
    assert(t@.take(t.len() as int) == t@);
    r
}


/// Half of `v` as a score, as `saturating_half` says.
fn half_as_score(v: i64) -> (r: u32)
    ensures
        r == saturating_half(v as int),
{
    if v < 0 {
        0
    } else if v / 2 > 0xffff_ffffi64 {
        0xffff_ffffu32
    } else {
        (v / 2) as u32
    }
}

/// The lower fence of the sorted scores `t`, from its quartiles.
pub fn get_lower_fence(t: &Vec<u32>, q1: u32, q3: u32) -> (r: u32)
    requires
        t.len() >= 1,
        q1 == percentile(t@, 1),
        q3 == percentile(t@, 3),
    ensures
        r == lower_fence(t@),
{
    let iqr = q3 as i64 - q1 as i64;
    let raw = half_as_score(2 * (q1 as i64) - 3 * iqr);
    if raw < t[0] {
        t[0]
    } else {
        raw
    }
}

/// The upper fence of the sorted scores `t`, from its quartiles.
pub fn get_upper_fence(t: &Vec<u32>, q1: u32, q3: u32) -> (r: u32)
    requires
        t.len() >= 1,
        q1 == percentile(t@, 1),
        q3 == percentile(t@, 3),
    ensures
        r == upper_fence(t@),
{
    let iqr = q3 as i64 - q1 as i64;
    let raw = half_as_score(2 * (q3 as i64) + 3 * iqr);
    let last = t[t.len() - 1];
    if raw > last {
        last
    } else {
        raw
    }
}

/// A prefix of a list of scores sums to no more than the whole list.
pub proof fn lemma_total_prefix(s: Seq<u32>, i: int)
    requires
        0 <= i <= s.len(),
    ensures
        0 <= total(s.take(i)) <= total(s),
    decreases s.len(),
{
    if s.len() > 0 {
        if i == s.len() {
            assert(s.take(i) == s);
            lemma_total_prefix(s.drop_last(), i - 1);
            assert(s.drop_last().take(i - 1) == s.drop_last().take(s.drop_last().len() as int));
            assert(s.drop_last().take(s.drop_last().len() as int) == s.drop_last());
        } else {
            lemma_total_prefix(s.drop_last(), i);
            assert(s.drop_last().take(i) == s.take(i));
        }
    }
}

/// The sum of two lists one after the other is the sum of their sums.
proof fn lemma_total_append(a: Seq<u32>, b: Seq<u32>)
    ensures
        total(a + b) == total(a) + total(b),
    decreases b.len(),
{
    if b.len() == 0 {
        assert(a + b == a);
    } else {
        lemma_total_append(a, b.drop_last());
        assert((a + b).drop_last() == a + b.drop_last());
        assert((a + b).last() == b.last());
    }
}

/// Reordering scores does not change their sum.
pub proof fn lemma_total_permutation(a: Seq<u32>, b: Seq<u32>)
    requires
        a.to_multiset() == b.to_multiset(),
    ensures
        total(a) == total(b),
    decreases a.len(),
{
    broadcast use vstd::seq_lib::group_to_multiset_ensures;
    broadcast use vstd::multiset::group_multiset_axioms;

    if a.len() == 0 {
        assert(b.len() == b.to_multiset().len());
        assert(b.len() == 0);
    } else {
        let x = a.last();
        let rest = a.drop_last();
        assert(a == rest.push(x));
        assert(a.to_multiset() == rest.to_multiset().insert(x));
        assert(b.to_multiset().count(x) > 0);
        assert(b.contains(x));
        let j = choose|j: int| 0 <= j < b.len() && b[j] == x;
        let b2 = b.remove(j);
        assert(b2.to_multiset() == b.to_multiset().remove(x));
        assert(rest.to_multiset().insert(x).remove(x) =~= rest.to_multiset());
        lemma_total_permutation(rest, b2);
        assert(b == b.take(j) + b.skip(j));
        assert(b.skip(j) == seq![x] + b.skip(j + 1));
        assert(b2 == b.take(j) + b.skip(j + 1));
        lemma_total_append(b.take(j), b.skip(j));
        lemma_total_append(seq![x], b.skip(j + 1));
        lemma_total_append(b.take(j), b.skip(j + 1));
        assert(seq![x].drop_last() == Seq::<u32>::empty());
        assert(total(Seq::<u32>::empty()) == 0);
        assert(seq![x].last() == x);
        assert(total(seq![x]) == x);
    }
}

/// Scores that are all at least `lo` and at most `hi` sum to between
/// `len * lo` and `len * hi`.
pub proof fn lemma_total_bounds(s: Seq<u32>, lo: int, hi: int)
    requires
        forall|i: int| 0 <= i < s.len() ==> lo <= #[trigger] s[i] <= hi,
    ensures
        s.len() * lo <= total(s) <= s.len() * hi,
    decreases s.len(),
{
    if s.len() > 0 {
        lemma_total_bounds(s.drop_last(), lo, hi);
        assert(s.len() * lo == (s.len() - 1) * lo + lo) by (nonlinear_arith);
        assert(s.len() * hi == (s.len() - 1) * hi + hi) by (nonlinear_arith);
    }
}

/// The mean of the scores, rounded down.
pub fn mean_score(s: &Vec<u32>) -> (r: u32)
    requires
        s.len() >= 1,
        s.len() <= u32::MAX,
        total(s@) <= u32::MAX,
    ensures
        r == total(s@) / (s.len() as int),
{
    let mut sum: u32 = 0;
    let mut i: usize = 0;
    assert(s@.take(0) == Seq::<u32>::empty());
    while i < s.len()
        invariant
            0 <= i <= s.len(),
            total(s@) <= u32::MAX,
            sum == total(s@.take(i as int)),
        decreases s.len() - i,
    {
        proof {
            lemma_total_prefix(s@, i + 1);
            assert(s@.take(i + 1).drop_last() == s@.take(i as int));
        }
        sum = sum + s[i];
        i = i + 1;
    }
    assert(s@.take(s.len() as int) == s@);
    sum / (s.len() as u32)
}

} // verus!
