//! A reading of the ten digit counters, and the distribution metrics that are
//! functions of it.
//!
//! A metric that is a ratio of integers is given exactly, as numerator and
//! denominator.

use vstd::prelude::*;

verus! {

/// The number of bins: one for each decimal digit.
pub const BINS: usize = 10;

/// The counters as numbers: how many digits were seen in all, and how many
/// of each value.
pub struct Snapshot {
    pub total: nat,
    pub counts: Seq<nat>,
}

/// The absolute difference of two numbers.
pub open spec fn distance(a: nat, b: nat) -> nat {
    if a >= b {
        (a - b) as nat
    } else {
        (b - a) as nat
    }
}

impl Snapshot {
    /// The sum of the ten counters.
    pub open spec fn sum(self) -> nat {
        self.counts[0] + self.counts[1] + self.counts[2] + self.counts[3] + self.counts[4]
            + self.counts[5] + self.counts[6] + self.counts[7] + self.counts[8] + self.counts[9]
    }

    /// There are ten counters, and they add up to the total.
    pub open spec fn wf(self) -> bool {
        self.counts.len() == BINS && self.sum() == self.total
    }

    /// The counters before any digit.
    pub open spec fn zero() -> Snapshot {
        Snapshot { total: 0, counts: Seq::new(BINS as nat, |i: int| 0nat) }
    }

    /// The counters after one more digit `d`.
    pub open spec fn bump(self, d: u8) -> Snapshot {
        Snapshot {
            total: self.total + 1,
            counts: self.counts.update(d as int, self.counts[d as int] + 1),
        }
    }

    /// The deviation of bin `i` from a tenth of the total, times `total`, in
    /// percentage points: `|100 * count - 10 * total|`.
    pub open spec fn deviation(self, i: int) -> nat {
        distance(100 * self.counts[i], 10 * self.total)
    }

    /// `m` is the largest deviation over the ten bins.
    pub open spec fn is_max_deviation(self, m: nat) -> bool {
        &&& forall|i: int| 0 <= i < BINS ==> self.deviation(i) <= m
        &&& exists|i: int| 0 <= i < BINS && self.deviation(i) == m
    }

    /// `r` is the largest deviation of a bin's share from ten percent, in
    /// percentage points: `max |100 * count / total - 10|`, as the ratio of
    /// `max |100 * count - 10 * total|` to `total`. Zero before any digit.
    pub open spec fn max_deviation_is(self, r: Ratio) -> bool {
        if self.total == 0 {
            r.num == 0 && r.den == 1
        } else {
            r.den == self.total && self.is_max_deviation(r.num as nat)
        }
    }

    /// `r` is chi-squared against the uniform distribution: the sum over the
    /// bins of `(count - total / 10)^2 / (total / 10)`, as the ratio of
    /// `sum (10 * count - total)^2` to `10 * total`, or nothing where that
    /// numerator does not fit in 128 bits. Zero before any digit.
    pub open spec fn chi_squared_is(self, r: Option<Ratio>) -> bool {
        if self.total == 0 {
            r is Some && r->0.num == 0 && r->0.den == 1
        } else {
            match r {
                Some(q) => q.num == self.chi_numerator() && q.den == 10 * self.total,
                None => self.chi_numerator() > u128::MAX,
            }
        }
    }

    /// The square of `10 * count - total` for bin `i`.
    pub open spec fn square(self, i: int) -> nat {
        distance(10 * self.counts[i], self.total) * distance(10 * self.counts[i], self.total)
    }

    /// The sum of `square` over the first `k` bins.
    pub open spec fn squares(self, k: nat) -> nat
        decreases k,
    {
        if k == 0 {
            0
        } else {
            self.squares((k - 1) as nat) + self.square(k - 1)
        }
    }

    /// Chi-squared times `10 * total`: the sum over the bins of
    /// `(10 * count - total)^2`.
    pub open spec fn chi_numerator(self) -> nat {
        self.squares(BINS as nat)
    }
}

/// A ratio of two integers, `num / den`, with `den` positive.
#[derive(Clone, Copy, Debug, PartialEq, Eq)]
pub struct Ratio {
    pub num: u128,
    pub den: u128,
}

/// The ten counters and their total at one instant.
#[derive(Clone, Copy, Debug, PartialEq, Eq)]
pub struct Sample {
    pub total: u64,
    pub counts: [u64; 10],
}

impl View for Sample {
    type V = Snapshot;

    open spec fn view(&self) -> Snapshot {
        Snapshot {
            total: self.total as nat,
            counts: Seq::new(BINS as nat, |i: int| self.counts[i] as nat),
        }
    }
}

impl Sample {
    /// The largest deviation of a bin's share from ten percent, in percentage
    /// points: `max |100 * count / total - 10|`, as the ratio of
    /// `max |100 * count - 10 * total|` to `total`. Zero before any digit.
    pub fn max_deviation(&self) -> (r: Ratio)
        ensures
            self@.max_deviation_is(r),
    {
        if self.total == 0 {
            return Ratio { num: 0, den: 1 };
        }
        let expected: u128 = 10 * (self.total as u128);
        let mut largest: u128 = 0;
        let mut i: usize = 0;
        let ghost mut at: int = 0;
        while i < BINS
            invariant
                i <= BINS,
                expected == 10 * self.total,
                forall|j: int| 0 <= j < i ==> self@.deviation(j) <= largest,
                i == 0 ==> largest == 0,
                i > 0 ==> 0 <= at < i && self@.deviation(at) == largest,
            decreases BINS - i,
        {
            let scaled: u128 = 100 * (self.counts[i] as u128);
            let deviation = if scaled >= expected {
                scaled - expected
            } else {
                expected - scaled
            };
            assert(deviation == self@.deviation(i as int));
            if i == 0 || deviation > largest {
                largest = deviation;
                proof {
                    at = i as int;
                }
            }
            i += 1;
        }
        Ratio { num: largest, den: self.total as u128 }
    }

    /// Chi-squared against the uniform distribution: the sum over the bins of
    /// `(count - total / 10)^2 / (total / 10)`, as the ratio of
    /// `sum (10 * count - total)^2` to `10 * total`. Zero before any digit.
    ///
    /// `None` where the numerator does not fit in 128 bits.
    pub fn chi_squared(&self) -> (r: Option<Ratio>)
        ensures
            self@.chi_squared_is(r),
    {
        if self.total == 0 {
            return Some(Ratio { num: 0, den: 1 });
        }
        let total = self.total as u128;
        let mut sum: u128 = 0;
        let mut i: usize = 0;
        while i < BINS
            invariant
                i <= BINS,
                total == self.total,
                total > 0,
                sum == self@.squares(i as nat),
            decreases BINS - i,
        {
            let scaled: u128 = 10 * (self.counts[i] as u128);
            let off = if scaled >= total {
                scaled - total
            } else {
                total - scaled
            };
            assert(off == distance(10 * self@.counts[i as int], self@.total));
            proof {
                lemma_squares_grow(self@, (i + 1) as nat, BINS as nat);
            }
            let square = match off.checked_mul(off) {
                Some(square) => square,
                None => {
                    assert(self@.square(i as int) > u128::MAX);
                    return None;
                },
            };
            sum = match sum.checked_add(square) {
                Some(sum) => sum,
                None => {
                    return None;
                },
            };
            i += 1;
        }
        Some(Ratio { num: sum, den: 10 * total })
    }
}

/// The sum of squares over more bins is no smaller.
pub proof fn lemma_squares_grow(s: Snapshot, k: nat, n: nat)
    requires
        k <= n,
    ensures
        s.squares(k) <= s.squares(n),
    decreases n - k,
{
    if k < n {
        lemma_squares_grow(s, k, (n - 1) as nat);
    }
}

/// Chi-squared is zero exactly where every bin holds a tenth of the total.
pub proof fn lemma_chi_zero_iff_uniform(s: Snapshot)
    requires
        s.counts.len() == BINS,
    ensures
        s.chi_numerator() == 0 <==> forall|i: int| 0 <= i < BINS ==> 10 * s.counts[i] == s.total,
{
    reveal_with_fuel(Snapshot::squares, 11);
    assert forall|i: int| 0 <= i < BINS implies (s.square(i) == 0 <==> 10 * s.counts[i]
        == s.total) by {
        let off = distance(10 * s.counts[i], s.total);
        assert(off * off == 0 <==> off == 0) by (nonlinear_arith);
    }
    if s.chi_numerator() == 0 {
        assert forall|i: int| 0 <= i < BINS implies 10 * s.counts[i] == s.total by {
            assert(s.square(i) == 0);
        }
    }
    if forall|i: int| 0 <= i < BINS ==> 10 * s.counts[i] == s.total {
        assert(s.square(0) == 0 && s.square(1) == 0 && s.square(2) == 0 && s.square(3) == 0
            && s.square(4) == 0);
        assert(s.square(5) == 0 && s.square(6) == 0 && s.square(7) == 0 && s.square(8) == 0
            && s.square(9) == 0);
    }
}

/// Where every digit seen has the same value `v`, the largest deviation is
/// ninety percentage points: that of bin `v`, which holds everything.
pub proof fn lemma_max_deviation_single_value(s: Snapshot, v: int, r: Ratio)
    requires
        s.counts.len() == BINS,
        0 <= v < BINS,
        s.total > 0,
        s.counts[v] == s.total,
        forall|i: int| 0 <= i < BINS && i != v ==> s.counts[i] == 0,
        s.max_deviation_is(r),
    ensures
        r.num == 90 * r.den,
{
    assert(s.deviation(v) == 90 * s.total);
    assert forall|i: int| 0 <= i < BINS implies s.deviation(i) <= 90 * s.total by {
        if i != v {
            assert(s.deviation(i) == 10 * s.total);
        }
    }
}

/// No bin is further than ninety percentage points from ten percent.
pub proof fn lemma_max_deviation_bound(s: Snapshot, r: Ratio)
    requires
        s.wf(),
        s.max_deviation_is(r),
    ensures
        r.num <= 90 * r.den,
{
    if s.total > 0 {
        assert forall|i: int| 0 <= i < BINS implies s.deviation(i) <= 90 * s.total by {
            assert(s.counts[i] <= s.total);
        }
    }
}

} // verus!
