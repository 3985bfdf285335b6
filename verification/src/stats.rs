//! The running statistics kept for one key, in tenths of a unit.

use vstd::prelude::*;

verus! {

/// Smallest value a row can carry, in tenths: `-99.9`.
pub const VALUE_MIN: i16 = -999;

/// Largest value a row can carry, in tenths: `99.9`.
pub const VALUE_MAX: i16 = 999;

/// What `Stats` stands for: minimum, maximum, sum and number of the values
/// seen, as unbounded integers.
pub struct StatsView {
    pub min: int,
    pub max: int,
    pub sum: int,
    pub count: nat,
}

impl StatsView {
    /// The statistics of no value at all: the neutral element of `merge`.
    pub open spec fn empty() -> StatsView {
        StatsView { min: i16::MAX as int, max: i16::MIN as int, sum: 0, count: 0 }
    }

    /// The statistics after one more value.
    pub open spec fn observe(self, value: int) -> StatsView {
        StatsView {
            min: if value < self.min { value } else { self.min },
            max: if value > self.max { value } else { self.max },
            sum: self.sum + value,
            count: self.count + 1,
        }
    }

    /// The statistics of two disjoint groups of values taken together.
    pub open spec fn merge(self, other: StatsView) -> StatsView {
        StatsView {
            min: if other.min < self.min { other.min } else { self.min },
            max: if other.max > self.max { other.max } else { self.max },
            sum: self.sum + other.sum,
            count: self.count + other.count,
        }
    }

    /// The statistics of `values`, taken in order.
    pub open spec fn of_values(values: Seq<int>) -> StatsView
        decreases values.len(),
    {
        if values.len() == 0 {
            StatsView::empty()
        } else {
            StatsView::of_values(values.drop_last()).observe(values.last())
        }
    }

    /// Holds of the statistics of one or more values that each lie between
    /// `VALUE_MIN` and `VALUE_MAX`: there is a value, the minimum and the
    /// maximum lie in that range, and the sum is what `count` values between
    /// the minimum and the maximum can add up to.
    pub open spec fn wf(self) -> bool {
        &&& self.count >= 1
        &&& VALUE_MIN <= self.min <= self.max <= VALUE_MAX
        &&& self.min * self.count <= self.sum <= self.max * self.count
    }

    /// The mean in hundredths of a unit, rounded to the nearest hundredth,
    /// a tie going away from zero.
    pub open spec fn mean_hundredths(self) -> int {
        round_div(10 * self.sum, self.count as int)
    }
}

/// `n / d` rounded to the nearest integer, a tie going away from zero.
pub open spec fn round_div(n: int, d: int) -> int {
    if n >= 0 {
        (2 * n + d) / (2 * d)
    } else {
        -((2 * (-n) + d) / (2 * d))
    }
}

/// All of `values` lie between `VALUE_MIN` and `VALUE_MAX`.
pub open spec fn values_in_range(values: Seq<int>) -> bool {
    forall|i: int| 0 <= i < values.len() ==> VALUE_MIN <= #[trigger] values[i] <= VALUE_MAX
}

/// `round_div` is nearest: it is off from `n / d` by at most one half.
pub proof fn lemma_round_div_nearest(n: int, d: int)
    requires
        d > 0,
    ensures
        -d <= 2 * (n - round_div(n, d) * d) <= d,
{
    let a = if n >= 0 { n } else { -n };
    let q = (2 * a + d) / (2 * d);
    let r = (2 * a + d) % (2 * d);
    assert(2 * a + d == (2 * d) * q + r && 0 <= r < 2 * d) by (nonlinear_arith)
        requires
            d > 0,
            q == (2 * a + d) / (2 * d),
            r == (2 * a + d) % (2 * d),
    ;
    assert((2 * d) * q == 2 * (q * d)) by (nonlinear_arith);
    if n < 0 {
        assert((-q) * d == -(q * d)) by (nonlinear_arith);
    }
}

/// Rounding does not leave a range with whole bounds: where `n / d` lies
/// between `lo` and `hi`, so does `round_div(n, d)`.
pub proof fn lemma_round_div_bounds(n: int, d: int, lo: int, hi: int)
    requires
        d > 0,
        lo * d <= n <= hi * d,
    ensures
        lo <= round_div(n, d) <= hi,
{
    lemma_round_div_nearest(n, d);
    let q = round_div(n, d);
    assert(lo <= q <= hi) by (nonlinear_arith)
        requires
            d > 0,
            lo * d <= n <= hi * d,
            -d <= 2 * (n - q * d) <= d,
    ;
}

/// The sum of well-formed statistics lies within `count` times the range of
/// a value.
pub proof fn lemma_wf_sum(s: StatsView)
    requires
        s.wf(),
    ensures
        VALUE_MIN * s.count <= s.sum <= VALUE_MAX * s.count,
{
    assert(VALUE_MIN * s.count <= s.min * s.count) by (nonlinear_arith)
        requires
            VALUE_MIN <= s.min,
            s.count >= 0,
    ;
    assert(s.max * s.count <= VALUE_MAX * s.count) by (nonlinear_arith)
        requires
            s.max <= VALUE_MAX,
            s.count >= 0,
    ;
}

/// One more value in range keeps statistics well formed, and makes the
/// statistics of no value well formed.
pub proof fn lemma_observe_wf(s: StatsView, value: int)
    requires
        s.wf() || s == StatsView::empty(),
        VALUE_MIN <= value <= VALUE_MAX,
    ensures
        s.observe(value).wf(),
{
    let t = s.observe(value);
    if s.count > 0 {
        assert(t.min * s.count <= s.min * s.count) by (nonlinear_arith)
            requires
                t.min <= s.min,
                s.count >= 0,
        ;
        assert(s.max * s.count <= t.max * s.count) by (nonlinear_arith)
            requires
                s.max <= t.max,
                s.count >= 0,
        ;
    }
    assert(t.min * t.count == t.min * s.count + t.min) by (nonlinear_arith)
        requires
            t.count == s.count + 1,
    ;
    assert(t.max * t.count == t.max * s.count + t.max) by (nonlinear_arith)
        requires
            t.count == s.count + 1,
    ;
}

/// Merging keeps statistics well formed.
pub proof fn lemma_merge_wf(a: StatsView, b: StatsView)
    requires
        a.wf(),
        b.wf(),
    ensures
        a.merge(b).wf(),
{
    let m = a.merge(b);
    assert(m.min * m.count == m.min * a.count + m.min * b.count) by (nonlinear_arith)
        requires
            m.count == a.count + b.count,
    ;
    assert(m.max * m.count == m.max * a.count + m.max * b.count) by (nonlinear_arith)
        requires
            m.count == a.count + b.count,
    ;
    assert(m.min * a.count <= a.min * a.count) by (nonlinear_arith)
        requires
            m.min <= a.min,
            a.count >= 0,
    ;
    assert(m.min * b.count <= b.min * b.count) by (nonlinear_arith)
        requires
            m.min <= b.min,
            b.count >= 0,
    ;
    assert(a.max * a.count <= m.max * a.count) by (nonlinear_arith)
        requires
            a.max <= m.max,
            a.count >= 0,
    ;
    assert(b.max * b.count <= m.max * b.count) by (nonlinear_arith)
        requires
            b.max <= m.max,
            b.count >= 0,
    ;
}

/// The mean of well-formed statistics lies between their minimum and their
/// maximum.
pub proof fn lemma_mean_between(s: StatsView)
    requires
        s.wf(),
    ensures
        10 * s.min <= s.mean_hundredths() <= 10 * s.max,
{
    assert((10 * s.min) * s.count == 10 * (s.min * s.count)) by (nonlinear_arith);
    assert((10 * s.max) * s.count == 10 * (s.max * s.count)) by (nonlinear_arith);
    lemma_round_div_bounds(10 * s.sum, s.count as int, 10 * s.min, 10 * s.max);
}

/// Statistics of a value sequence count its values, and are well formed when
/// there is at least one value and all lie in range.
pub proof fn lemma_of_values(values: Seq<int>)
    requires
        values_in_range(values),
    ensures
        StatsView::of_values(values).count == values.len(),
        values.len() > 0 ==> StatsView::of_values(values).wf(),
        values.len() > 0 ==> forall|i: int|
            0 <= i < values.len() ==> StatsView::of_values(values).min <= #[trigger] values[i]
                <= StatsView::of_values(values).max,
    decreases values.len(),
{
    if values.len() > 0 {
        let init = values.drop_last();
        lemma_of_values(init);
        let v = values.last();
        lemma_observe_wf(StatsView::of_values(init), v);
        let s = StatsView::of_values(values);
        assert forall|i: int| 0 <= i < values.len() implies s.min <= #[trigger] values[i]
            <= s.max by {
            if i < init.len() {
                assert(init[i] == values[i]);
            }
        }
    }
}

/// The statistics of a concatenation are the merge of the parts' statistics.
pub proof fn lemma_of_values_concat(a: Seq<int>, b: Seq<int>)
    requires
        values_in_range(a),
        values_in_range(b),
    ensures
        StatsView::of_values(a + b) == StatsView::of_values(a).merge(StatsView::of_values(b)),
    decreases b.len(),
{
    if b.len() > 0 {
        assert((a + b).drop_last() =~= a + b.drop_last());
        lemma_of_values_concat(a, b.drop_last());
    }
}

/// Merging statistics does not depend on the order of the two operands.
pub proof fn lemma_merge_commutative(a: StatsView, b: StatsView)
    ensures
        a.merge(b) == b.merge(a),
{
}

/// Merging statistics does not depend on how three operands are grouped.
pub proof fn lemma_merge_associative(a: StatsView, b: StatsView, c: StatsView)
    ensures
        a.merge(b).merge(c) == a.merge(b.merge(c)),
{
}

/// Per-key accumulator: minimum, maximum, sum and number of the values seen,
/// the values being in tenths of a unit.
#[derive(Clone, Copy, Debug, PartialEq, Eq, Structural)]
pub struct Stats {
    pub min: i16,
    pub max: i16,
    pub sum: i128,
    pub count: u64,
}

impl View for Stats {
    type V = StatsView;

    open spec fn view(&self) -> StatsView {
        StatsView {
            min: self.min as int,
            max: self.max as int,
            sum: self.sum as int,
            count: self.count as nat,
        }
    }
}

impl Stats {
    /// The accumulator before any value: `min` and `max` at the far ends of
    /// their type, `sum` and `count` zero.
    pub fn new() -> (s: Stats)
        ensures
            s@ == StatsView::empty(),
    {
        Stats { min: i16::MAX, max: i16::MIN, sum: 0, count: 0 }
    }

    /// Folds one value into the accumulator.
    pub fn observe(self, value: i16) -> (s: Stats)
        requires
            self.count < u64::MAX,
            i128::MIN <= self.sum + value <= i128::MAX,
        ensures
            s@ == self@.observe(value as int),
    {
        Stats {
            min: if value < self.min { value } else { self.min },
            max: if value > self.max { value } else { self.max },
            sum: self.sum + value as i128,
            count: self.count + 1,
        }
    }

    /// Tells whether the accumulator is well formed.
    pub fn is_well_formed(self) -> (ok: bool)
        ensures
            ok == self@.wf(),
    {
        if self.count >= 1 && VALUE_MIN <= self.min && self.min <= self.max && self.max
            <= VALUE_MAX {
            let count: i128 = self.count as i128;
            let min: i128 = self.min as i128;
            let max: i128 = self.max as i128;
            assert(-999 * count <= min * count <= 999 * count && -999 * count <= max * count <= 999
                * count) by (nonlinear_arith)
                requires
                    -999 <= min <= 999,
                    -999 <= max <= 999,
                    count >= 0,
            ;
            min * count <= self.sum && self.sum <= max * count
        } else {
            false
        }
    }

    /// Whether `merge` can hold the combined count and sum.
    pub open spec fn can_merge(self, other: Stats) -> bool {
        &&& self.count + other.count <= u64::MAX
        &&& i128::MIN <= self.sum + other.sum <= i128::MAX
    }

    /// Tells whether the combined count and sum of `self` and `other` fit.
    pub fn fits(self, other: Stats) -> (ok: bool)
        ensures
            ok == self.can_merge(other),
    {
        self.count.checked_add(other.count).is_some() && self.sum.checked_add(
            other.sum,
        ).is_some()
    }

    /// Combines two accumulators of disjoint groups of values.
    pub fn merge(self, other: Stats) -> (s: Stats)
        requires
            self.can_merge(other),
        ensures
            s@ == self@.merge(other@),
    {
        Stats {
            min: if other.min < self.min { other.min } else { self.min },
            max: if other.max > self.max { other.max } else { self.max },
            sum: self.sum + other.sum,
            count: self.count + other.count,
        }
    }

    /// The mean of the values seen, in hundredths of a unit, rounded to the
    /// nearest hundredth with a tie going away from zero. It is computed from
    /// `sum` and `count` alone.
    pub fn mean_hundredths(self) -> (m: i16)
        requires
            self@.wf(),
        ensures
            m as int == self@.mean_hundredths(),
            10 * self.min <= m <= 10 * self.max,
    {
        proof {
            lemma_wf_sum(self@);
            lemma_mean_between(self@);
        }
        let d: i128 = self.count as i128;
        let n: i128 = 10 * self.sum;
        if n >= 0 {
            let q: i128 = (2 * n + d) / (2 * d);
            q as i16
        } else {
            let q: i128 = (2 * (-n) + d) / (2 * d);
            (-q) as i16
        }
    }
}

} // verus!
