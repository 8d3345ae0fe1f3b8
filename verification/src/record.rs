//! The per-key accumulator: minimum, maximum, exact sum and count of the
//! fixed-point values seen for one key.

use vstd::prelude::*;

verus! {

/// Mathematical model of an accumulator. All values are tenths.
pub struct Stats {
    pub min: int,
    pub max: int,
    pub sum: int,
    pub count: nat,
}

/// `n / d` rounded to the nearest integer, halves away from zero.
pub open spec fn round_div(n: int, d: int) -> int
    recommends
        d > 0,
{
    if n >= 0 {
        (2 * n + d) / (2 * d)
    } else {
        -((2 * (-n) + d) / (2 * d))
    }
}

/// `q` is `n / d` rounded to the nearest integer, halves away from zero,
/// said without division: twice the magnitude of `n` plus `d` lies between
/// `2 * d` times the magnitude of `q` and that of the next integer.
pub open spec fn is_rounded(n: int, d: int, q: int) -> bool {
    if n >= 0 {
        2 * d * q <= 2 * n + d < 2 * d * (q + 1)
    } else {
        2 * d * (-q) <= 2 * (-n) + d < 2 * d * (-q + 1)
    }
}

/// `round_div` rounds, and nothing else does.
pub proof fn lemma_round_div_is(n: int, d: int, q: int)
    requires
        d > 0,
    ensures
        is_rounded(n, d, q) <==> q == round_div(n, d),
{
    let m = if n >= 0 { n } else { -n };
    let p = if n >= 0 { q } else { -q };
    let r = (2 * m + d) / (2 * d);
    assert(2 * d * r <= 2 * m + d < 2 * d * (r + 1)) by (nonlinear_arith)
        requires
            r == (2 * m + d) / (2 * d),
            d > 0,
    {
        assert(2 * m + d == (2 * d) * ((2 * m + d) / (2 * d)) + (2 * m + d) % (2 * d));
        assert(0 <= (2 * m + d) % (2 * d) < 2 * d);
    }
    assert((2 * d * p <= 2 * m + d < 2 * d * (p + 1)) ==> p == r) by (nonlinear_arith)
        requires
            2 * d * r <= 2 * m + d < 2 * d * (r + 1),
            d > 0,
    {
        if 2 * d * p <= 2 * m + d < 2 * d * (p + 1) {
            if p < r {
                assert(2 * d * (p + 1) <= 2 * d * r);
            }
            if p > r {
                assert(2 * d * (r + 1) <= 2 * d * p);
            }
        }
    }
}

impl Stats {
    /// The accumulator of a single observation.
    pub open spec fn single(value: int) -> Stats {
        Stats { min: value, max: value, sum: value, count: 1 }
    }

    /// The accumulator after one more observation.
    pub open spec fn observe(self, value: int) -> Stats {
        Stats {
            min: if value < self.min { value } else { self.min },
            max: if value > self.max { value } else { self.max },
            sum: self.sum + value,
            count: self.count + 1,
        }
    }

    /// The accumulator of two disjoint groups of observations.
    pub open spec fn merge(self, other: Stats) -> Stats {
        Stats {
            min: if other.min < self.min { other.min } else { self.min },
            max: if other.max > self.max { other.max } else { self.max },
            sum: self.sum + other.sum,
            count: self.count + other.count,
        }
    }

    /// What holds of every accumulator that was built from observations:
    /// there is at least one, and the sum lies between `count` times the
    /// minimum and `count` times the maximum.
    pub open spec fn wf(self) -> bool {
        &&& self.count >= 1
        &&& self.min <= self.max
        &&& self.count * self.min <= self.sum
        &&& self.sum <= self.count * self.max
    }

    /// Both extremes fit the 16-bit fixed-point range.
    pub open spec fn in_range(self) -> bool {
        i16::MIN <= self.min && self.max <= i16::MAX
    }

    /// The mean in tenths, rounded half away from zero.
    pub open spec fn mean(self) -> int {
        round_div(self.sum, self.count as int)
    }
}

/// Rounding keeps a quotient between any integer bounds of the exact value.
pub proof fn lemma_round_div_bounds(n: int, d: int, lo: int, hi: int)
    requires
        d > 0,
        d * lo <= n,
        n <= d * hi,
    ensures
        lo <= round_div(n, d) <= hi,
{
    if n >= 0 {
        let q = (2 * n + d) / (2 * d);
        assert(q <= hi) by (nonlinear_arith)
            requires
                q == (2 * n + d) / (2 * d),
                d > 0,
                n <= d * hi,
        {
            if q > hi {
                assert(q >= hi + 1);
                assert((2 * d) * q <= 2 * n + d);
                assert((2 * d) * (hi + 1) <= (2 * d) * q);
            }
        }
        assert(q >= lo) by (nonlinear_arith)
            requires
                q == (2 * n + d) / (2 * d),
                d > 0,
                d * lo <= n,
                n >= 0,
        {
            if q < lo {
                assert(q + 1 <= lo);
                assert(2 * n + d < (2 * d) * (q + 1));
                assert((2 * d) * (q + 1) <= (2 * d) * lo);
            }
        }
    } else {
        let m = -n;
        let q = (2 * m + d) / (2 * d);
        assert(d * (-lo) == -(d * lo) && d * (-hi) == -(d * hi)) by (nonlinear_arith);
        assert(q <= -lo) by (nonlinear_arith)
            requires
                q == (2 * m + d) / (2 * d),
                d > 0,
                m <= d * (-lo),
        {
            if q > -lo {
                assert(q >= -lo + 1);
                assert((2 * d) * q <= 2 * m + d);
                assert((2 * d) * (-lo + 1) <= (2 * d) * q);
            }
        }
        assert(q >= -hi) by (nonlinear_arith)
            requires
                q == (2 * m + d) / (2 * d),
                d > 0,
                d * (-hi) <= m,
                m >= 0,
        {
            if q < -hi {
                assert(q + 1 <= -hi);
                assert(2 * m + d < (2 * d) * (q + 1));
                assert((2 * d) * (q + 1) <= (2 * d) * (-hi));
            }
        }
    }
}

/// An exact quotient is its own rounding.
pub proof fn lemma_round_div_exact(v: int, d: int)
    requires
        d > 0,
    ensures
        round_div(d * v, d) == v,
{
    assert(d * v <= d * v);
    lemma_round_div_bounds(d * v, d, v, v);
}

/// The largest count for which the sum of 16-bit values surely fits `i64`.
pub const MAX_COUNT: u64 = 0x1_0000_0000_0000;

impl Stats {
    /// The count and the sum can be held in the machine integers of a
    /// [`Record`].
    pub open spec fn fits(self) -> bool {
        &&& self.count <= u64::MAX
        &&& i64::MIN <= self.sum <= i64::MAX
    }
}

/// One observation is a valid accumulator whose extremes and mean are the
/// observed value itself.
pub proof fn lemma_single(value: int)
    ensures
        Stats::single(value).wf(),
        Stats::single(value).min == value,
        Stats::single(value).max == value,
        Stats::single(value).mean() == value,
{
    assert(1 * value == value);
    lemma_round_div_exact(value, 1);
}

/// Merging is commutative: every field of `a.merge(b)` equals that of
/// `b.merge(a)`.
pub proof fn lemma_merge_commutative(a: Stats, b: Stats)
    ensures
        a.merge(b) == b.merge(a),
{
}

/// Merging is associative: every field of `a.merge(b).merge(c)` equals that
/// of `a.merge(b.merge(c))`.
pub proof fn lemma_merge_associative(a: Stats, b: Stats, c: Stats)
    ensures
        a.merge(b).merge(c) == a.merge(b.merge(c)),
{
}

/// Merging two valid accumulators gives a valid one, within the same range.
pub proof fn lemma_merge_wf(a: Stats, b: Stats)
    requires
        a.wf(),
        b.wf(),
    ensures
        a.merge(b).wf(),
        a.in_range() && b.in_range() ==> a.merge(b).in_range(),
{
    let m = a.merge(b);
    assert(m.count * m.min <= m.sum && m.sum <= m.count * m.max) by (nonlinear_arith)
        requires
            a.count >= 1,
            b.count >= 1,
            a.count * a.min <= a.sum,
            a.sum <= a.count * a.max,
            b.count * b.min <= b.sum,
            b.sum <= b.count * b.max,
            m.min <= a.min,
            m.min <= b.min,
            m.max >= a.max,
            m.max >= b.max,
            m.sum == a.sum + b.sum,
            m.count == a.count + b.count,
    {
        assert(a.count * m.min <= a.count * a.min);
        assert(b.count * m.min <= b.count * b.min);
        assert(a.count * m.max >= a.count * a.max);
        assert(b.count * m.max >= b.count * b.max);
        assert(m.count * m.min == a.count * m.min + b.count * m.min);
        assert(m.count * m.max == a.count * m.max + b.count * m.max);
    }
}

/// Observing a value keeps an accumulator valid.
pub proof fn lemma_observe_wf(s: Stats, value: int)
    requires
        s.wf(),
    ensures
        s.observe(value).wf(),
        s.in_range() && i16::MIN <= value <= i16::MAX ==> s.observe(value).in_range(),
{
    lemma_single(value);
    lemma_merge_wf(s, Stats::single(value));
}

/// The mean of a valid accumulator lies between its minimum and its maximum.
pub proof fn lemma_mean_bounds(s: Stats)
    requires
        s.wf(),
    ensures
        s.min <= s.mean() <= s.max,
{
    lemma_round_div_bounds(s.sum, s.count as int, s.min, s.max);
}

/// A valid accumulator of 16-bit values with at most [`MAX_COUNT`]
/// observations fits the machine integers.
pub proof fn lemma_fits(s: Stats)
    requires
        s.wf(),
        s.in_range(),
        s.count <= MAX_COUNT,
    ensures
        s.fits(),
{
    assert(-0x8000_0000_0000_0000 <= s.sum <= 0x7fff_ffff_ffff_ffff) by (nonlinear_arith)
        requires
            1 <= s.count <= 0x1_0000_0000_0000,
            -0x8000 <= s.min,
            s.max <= 0x7fff,
            s.count * s.min <= s.sum,
            s.sum <= s.count * s.max,
    {
        assert(s.count * s.max <= s.count * 0x7fff);
        assert(s.count * s.min >= s.count * (-0x8000));
    }
}

/// Minimum, maximum, exact sum and count of the values seen for one key.
#[derive(Clone, Copy, Debug, PartialEq, Eq, Structural)]
pub struct Record {
    min: i16,
    max: i16,
    total: i64,
    count: u64,
}

impl View for Record {
    type V = Stats;

    closed spec fn view(&self) -> Stats {
        Stats {
            min: self.min as int,
            max: self.max as int,
            sum: self.total as int,
            count: self.count as nat,
        }
    }
}

impl Record {
    /// The record's invariant: that of its model.
    pub open spec fn wf(&self) -> bool {
        self@.wf()
    }

    /// What a record is known to hold whatever its history: fields of
    /// machine width.
    pub proof fn lemma_view_fits(&self)
        ensures
            self@.in_range(),
            self@.fits(),
    {
    }

    /// The record of a single observation.
    pub fn new(temp: i16) -> (r: Record)
        ensures
            r@ == Stats::single(temp as int),
            r.wf(),
    {
        proof {
            lemma_single(temp as int);
        }
        Record { min: temp, max: temp, total: temp as i64, count: 1 }
    }

    /// Folds one more observation into the record.
    pub fn add(&mut self, temp: i16)
        requires
            old(self).wf(),
            old(self)@.observe(temp as int).fits(),
        ensures
            final(self)@ == old(self)@.observe(temp as int),
            final(self).wf(),
    {
        proof {
            lemma_observe_wf(self@, temp as int);
        }
        if temp < self.min {
            self.min = temp;
        }
        if temp > self.max {
            self.max = temp;
        }
        self.total = self.total + temp as i64;
        self.count = self.count + 1;
    }

    /// Folds another record into this one.
    pub fn combine(&mut self, other: &Record)
        requires
            old(self).wf(),
            other.wf(),
            old(self)@.merge(other@).fits(),
        ensures
            final(self)@ == old(self)@.merge(other@),
            final(self).wf(),
    {
        proof {
            lemma_merge_wf(self@, other@);
        }
        if other.min < self.min {
            self.min = other.min;
        }
        if other.max > self.max {
            self.max = other.max;
        }
        self.total = self.total + other.total;
        self.count = self.count + other.count;
    }

    /// The smallest value seen, in tenths.
    pub fn min(&self) -> (r: i16)
        ensures
            r == self@.min,
    {
        self.min
    }

    /// The largest value seen, in tenths.
    pub fn max(&self) -> (r: i16)
        ensures
            r == self@.max,
    {
        self.max
    }

    /// The exact sum of the values seen, in tenths.
    pub fn total(&self) -> (r: i64)
        ensures
            r == self@.sum,
    {
        self.total
    }

    /// The number of values seen.
    pub fn count(&self) -> (r: u64)
        ensures
            r == self@.count,
    {
        self.count
    }

    /// The mean of the values seen, in tenths, rounded half away from zero.
    /// The second clause says the same without division.
    pub fn mean(&self) -> (r: i16)
        requires
            self.wf(),
        ensures
            r == self@.mean(),
            is_rounded(self@.sum, self@.count as int, r as int),
            self@.min <= r <= self@.max,
    {
        proof {
            lemma_mean_bounds(self@);
            lemma_round_div_is(self@.sum, self@.count as int, self@.mean());
        }
        let d: u128 = self.count as u128;
        if self.total >= 0 {
            let n: u128 = self.total as u128;
            let q: u128 = (2 * n + d) / (2 * d);
            q as i16
        } else {
            let n: u128 = (-(self.total as i128)) as u128;
            let q: u128 = (2 * n + d) / (2 * d);
            (-(q as i32)) as i16
        }
    }
}

} // verus!
