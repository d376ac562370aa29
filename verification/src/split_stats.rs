//! Label counts on both sides of a candidate split and their Gini score.

use vstd::prelude::*;
use vstd::arithmetic::mul::{lemma_mul_is_associative, lemma_mul_is_commutative};

pub use crate::robustness::{heuristic, is_robust, is_robust2};

verus! {

/// Impurities and scores are fractions scaled by this factor.
pub const SCORE_SCALE: u64 = 1_000_000_000_000;

/// Largest sample count for which an impurity is computed without overflow:
/// four counts of 32 bits each.
pub const MAX_SAMPLES: u64 = 0x4_0000_0000;

/// Positive and negative sample counts left and right of a split, with the
/// impurities of the two sides and the score of the split.
#[derive(Debug, Clone, Copy)]
pub struct SplitStats {
    pub num_plus_left: u32,
    pub num_minus_left: u32,
    pub num_plus_right: u32,
    pub num_minus_right: u32,
    pub impurity_left: u64,
    pub impurity_right: u64,
    pub score: Option<i64>,
}

/// Gini impurity `2 p (1 - p)` of a set with `num_plus` positives among
/// `num_samples`, scaled and rounded down. An empty set is pure.
pub open spec fn gini_of(num_plus: int, num_samples: int) -> int {
    if num_samples <= 0 {
        0
    } else {
        (2 * num_plus * (num_samples - num_plus) * SCORE_SCALE) / (num_samples * num_samples)
    }
}

/// The impurity of a side with `num_plus` positives and `num_minus`
/// negatives, weighted by the share of the side among `total` samples,
/// scaled and rounded up: `2 p m / ((p + m) total)`, where the exact
/// impurity of the side is `2 p m / (p + m)^2`.
pub open spec fn weighted(num_plus: int, num_minus: int, total: int) -> int {
    if (num_plus + num_minus) * total <= 0 {
        0
    } else {
        (2 * num_plus * num_minus * SCORE_SCALE + (num_plus + num_minus) * total - 1) / ((num_plus + num_minus)
            * total)
    }
}

impl SplitStats {
    pub open spec fn num_left(self) -> int {
        self.num_plus_left + self.num_minus_left
    }

    pub open spec fn num_right(self) -> int {
        self.num_plus_right + self.num_minus_right
    }

    pub open spec fn num_plus(self) -> int {
        self.num_plus_left + self.num_plus_right
    }

    pub open spec fn num_samples(self) -> int {
        self.num_left() + self.num_right()
    }

    /// A split that sends every sample to one side has no score.
    pub open spec fn has_empty_side(self) -> bool {
        self.num_left() == 0 || self.num_right() == 0
    }

    /// Both statistics count the same samples in every bucket.
    pub open spec fn same_counts(self, other: SplitStats) -> bool {
        &&& self.num_plus_left == other.num_plus_left
        &&& self.num_minus_left == other.num_minus_left
        &&& self.num_plus_right == other.num_plus_right
        &&& self.num_minus_right == other.num_minus_right
    }

    /// The count of samples with the given label on the given side.
    pub open spec fn bucket(self, plus: bool, left: bool) -> u32 {
        if plus {
            if left {
                self.num_plus_left
            } else {
                self.num_plus_right
            }
        } else {
            if left {
                self.num_minus_left
            } else {
                self.num_minus_right
            }
        }
    }

    /// These statistics with `n` samples fewer in one bucket; impurities and
    /// score are left as they were.
    pub open spec fn without(self, plus: bool, left: bool, n: u32) -> SplitStats {
        if plus {
            if left {
                SplitStats { num_plus_left: (self.num_plus_left - n) as u32, ..self }
            } else {
                SplitStats { num_plus_right: (self.num_plus_right - n) as u32, ..self }
            }
        } else {
            if left {
                SplitStats { num_minus_left: (self.num_minus_left - n) as u32, ..self }
            } else {
                SplitStats { num_minus_right: (self.num_minus_right - n) as u32, ..self }
            }
        }
    }

    /// Both sides hold the same share of positives, so that the split
    /// gains nothing.
    pub open spec fn gains_nothing(self) -> bool {
        self.num_plus_left * self.num_minus_right == self.num_plus_right * self.num_minus_left
    }

    /// The score against a given impurity before the split: nought where
    /// the split gains nothing, and else that impurity less the weighted
    /// impurities of the two sides. The impurity before the split is
    /// rounded down and the two others up, so that the score never lies
    /// above the exact gain.
    pub open spec fn score_against(self, impurity_before: int) -> int {
        if self.gains_nothing() {
            0
        } else {
            impurity_before - weighted(self.num_plus_left as int, self.num_minus_left as int, self.num_samples())
                - weighted(self.num_plus_right as int, self.num_minus_right as int, self.num_samples())
        }
    }

    /// The exact gain of the split, scaled, is the fraction of this
    /// numerator and [`SplitStats::gain_denominator`]: the impurity
    /// `2 P M / N^2` of all samples, less the impurities `2 p m / n^2` of
    /// the two sides, each weighted by the share `n / N` of its side, all
    /// three brought to the common denominator.
    pub open spec fn gain_numerator(self) -> int {
        (2 * self.num_plus() * (self.num_samples() - self.num_plus()) * SCORE_SCALE) * (self.num_left()
            * self.num_right()) - (2 * self.num_plus_left * self.num_minus_left * SCORE_SCALE) * (self.num_samples()
            * self.num_right()) - (2 * self.num_plus_right * self.num_minus_right * SCORE_SCALE) * (
        self.num_samples() * self.num_left())
    }

    pub open spec fn gain_denominator(self) -> int {
        self.num_samples() * self.num_samples() * self.num_left() * self.num_right()
    }

    /// These counts, scored against `impurity_before`.
    pub open spec fn scored_against(self, impurity_before: int) -> SplitStats {
        if self.has_empty_side() {
            SplitStats { impurity_left: 0, impurity_right: 0, score: None, ..self }
        } else {
            SplitStats {
                impurity_left: gini_of(self.num_plus_left as int, self.num_left()) as u64,
                impurity_right: gini_of(self.num_plus_right as int, self.num_right()) as u64,
                score: Some(self.score_against(impurity_before) as i64),
                ..self
            }
        }
    }

    /// These counts, scored against the impurity of all their samples together.
    pub open spec fn rescored(self) -> SplitStats {
        self.scored_against(gini_of(self.num_plus(), self.num_samples()))
    }

    /// The impurities are those of the counts on either side.
    pub open spec fn has_impurities(self) -> bool {
        &&& self.impurity_left == gini_of(self.num_plus_left as int, self.num_left())
        &&& self.impurity_right == gini_of(self.num_plus_right as int, self.num_right())
    }

    /// The score is defined and lies in the range of a scaled fraction.
    pub open spec fn is_scored(self) -> bool {
        self.score matches Some(v) && -(SCORE_SCALE as int) <= v <= SCORE_SCALE as int
    }

    pub open spec fn spec_has_positive_score(&self) -> bool {
        self.score matches Some(v) && v > 0
    }

    pub fn new(
        num_plus_left: u32,
        num_minus_left: u32,
        num_plus_right: u32,
        num_minus_right: u32,
    ) -> (stats: SplitStats)
        ensures
            stats == (SplitStats {
                num_plus_left,
                num_minus_left,
                num_plus_right,
                num_minus_right,
                impurity_left: 0,
                impurity_right: 0,
                score: None,
            }),
    {
        SplitStats {
            num_plus_left,
            num_minus_left,
            num_plus_right,
            num_minus_right,
            impurity_left: 0,
            impurity_right: 0,
            score: None,
        }
    }

    #[verifier::when_used_as_spec(spec_has_positive_score)]
    pub fn has_positive_score(&self) -> (positive: bool)
        ensures
            positive == self.spec_has_positive_score(),
    {
        match self.score {
            Some(the_score) => the_score > 0,
            _ => false,
        }
    }

    /// The count of samples with the given label on the given side.
    pub fn count_in(&self, plus: bool, left: bool) -> (count: u32)
        ensures
            count == self.bucket(plus, left),
    {
        if plus {
            if left {
                self.num_plus_left
            } else {
                self.num_plus_right
            }
        } else {
            if left {
                self.num_minus_left
            } else {
                self.num_minus_right
            }
        }
    }

    /// Takes `n` samples out of one bucket and scores what is left against
    /// the impurity of all remaining samples. `None` where the bucket holds
    /// fewer than `n`.
    pub fn remove_and_rescore(&self, plus: bool, left: bool, n: u32) -> (out: Option<SplitStats>)
        ensures
            out == if self.bucket(plus, left) >= n {
                Some(self.without(plus, left, n).rescored())
            } else {
                None::<SplitStats>
            },
            out matches Some(rest) ==> (rest.score.is_some() ==> rest.is_scored()),
    {
        let mut rest = *self;
        if plus {
            if left {
                if rest.num_plus_left < n {
                    return None;
                }
                rest.num_plus_left -= n;
            } else {
                if rest.num_plus_right < n {
                    return None;
                }
                rest.num_plus_right -= n;
            }
        } else {
            if left {
                if rest.num_minus_left < n {
                    return None;
                }
                rest.num_minus_left -= n;
            } else {
                if rest.num_minus_right < n {
                    return None;
                }
                rest.num_minus_right -= n;
            }
        }
        rest.update_score_and_impurity_before();
        Some(rest)
    }

    /// Scores the split against the impurity of the samples before it.
    pub fn update_score(&mut self, impurity_before: u64)
        requires
            impurity_before <= SCORE_SCALE,
        ensures
            *final(self) == old(self).scored_against(impurity_before as int),
            !old(self).has_empty_side() ==> final(self).is_scored(),
            !old(self).has_empty_side() ==> final(self).has_impurities(),
            !old(self).has_empty_side() && old(self).gains_nothing() ==> final(self).score == Some(0i64),
            final(self).impurity_left <= SCORE_SCALE / 2,
            final(self).impurity_right <= SCORE_SCALE / 2,
    {
        proof {
            lemma_gini_bound(self.num_plus_left as int, self.num_left());
            lemma_gini_bound(self.num_plus_right as int, self.num_right());
        }
        let (score, impurity_left, impurity_right) = gini(
            impurity_before,
            self.num_plus_left,
            self.num_minus_left,
            self.num_plus_right,
            self.num_minus_right,
        );

        self.score = score;
        self.impurity_left = impurity_left;
        self.impurity_right = impurity_right;
    }

    /// Scores the split against the impurity of all its samples taken together.
    pub fn update_score_and_impurity_before(&mut self)
        ensures
            *final(self) == old(self).rescored(),
            !old(self).has_empty_side() ==> final(self).is_scored(),
            !old(self).has_empty_side() && old(self).gains_nothing() ==> final(self).score == Some(0i64),
            final(self).score matches Some(score) ==> score * old(self).gain_denominator() <= old(
                self,
            ).gain_numerator(),
    {
        proof {
            lemma_score_is_not_above_the_gain(*old(self));
        }
        let (score, impurity_left, impurity_right) = gini_with_impurity_before(
            self.num_plus_left,
            self.num_minus_left,
            self.num_plus_right,
            self.num_minus_right,
        );

        self.score = score;
        self.impurity_left = impurity_left;
        self.impurity_right = impurity_right;
    }
}

proof fn lemma_gini_bound(num_plus: int, num_samples: int)
    requires
        0 <= num_plus <= num_samples,
    ensures
        0 <= gini_of(num_plus, num_samples) <= SCORE_SCALE / 2,
{
    if num_samples > 0 {
        let p = num_plus;
        let n = num_samples;
        let s = SCORE_SCALE as int;
        assert(0 <= 2 * p * (n - p) * s && 4 * p * (n - p) <= n * n && n * n > 0) by (nonlinear_arith)
            requires 0 <= p <= n, n > 0, s > 0;
        assert(2 * p * (n - p) * s <= (s / 2) * (n * n)) by (nonlinear_arith)
            requires 4 * p * (n - p) <= n * n, s == 1_000_000_000_000int;
        assert((2 * p * (n - p) * s) / (n * n) <= s / 2 && 0 <= (2 * p * (n - p) * s) / (n * n)) by (nonlinear_arith)
            requires 0 <= 2 * p * (n - p) * s <= (s / 2) * (n * n), n * n > 0;
    }
}

proof fn lemma_weighted_bound(num_plus: int, num_minus: int, total: int)
    requires
        0 <= num_plus,
        0 <= num_minus,
        0 < num_plus + num_minus <= total,
    ensures
        0 <= weighted(num_plus, num_minus, total) <= SCORE_SCALE / 2,
        weighted(num_plus, num_minus, total) * ((num_plus + num_minus) * total) >= 2 * num_plus * num_minus
            * SCORE_SCALE,
{
    let p = num_plus;
    let m = num_minus;
    let s = SCORE_SCALE as int;
    let numerator = 2 * p * m * s;
    let denominator = (p + m) * total;
    assert(denominator > 0 && 0 <= numerator && 4 * p * m <= (p + m) * total) by (nonlinear_arith)
        requires
            0 <= p,
            0 <= m,
            0 < p + m <= total,
            s > 0,
            numerator == 2 * p * m * s,
            denominator == (p + m) * total,
    ;
    assert(numerator <= (s / 2) * denominator) by (nonlinear_arith)
        requires
            4 * p * m <= (p + m) * total,
            numerator == 2 * p * m * s,
            denominator == (p + m) * total,
            s == 1_000_000_000_000int,
    ;
    lemma_rounded_up(numerator, denominator, s / 2);
}

/// The quotient rounded up is the least whole number not below the
/// fraction.
proof fn lemma_rounded_up(numerator: int, denominator: int, bound: int)
    requires
        0 <= numerator,
        0 < denominator,
        numerator <= bound * denominator,
    ensures
        0 <= (numerator + denominator - 1) / denominator <= bound,
        ((numerator + denominator - 1) / denominator) * denominator >= numerator,
{
    let up = (numerator + denominator - 1) / denominator;
    assert(0 <= up <= bound && up * denominator >= numerator) by (nonlinear_arith)
        requires
            0 <= numerator,
            0 < denominator,
            numerator <= bound * denominator,
            up == (numerator + denominator - 1) / denominator,
    ;
}

/// Impurity of `num_plus` positives among `num_samples`, on wide integers.
fn impurity_of(num_plus: u64, num_samples: u64) -> (impurity: u64)
    requires
        num_plus <= num_samples <= MAX_SAMPLES,
    ensures
        impurity == gini_of(num_plus as int, num_samples as int),
        impurity <= SCORE_SCALE / 2,
{
    if num_samples == 0 {
        return 0;
    }
    let p: u128 = num_plus as u128;
    let n: u128 = num_samples as u128;
    proof {
        lemma_gini_bound(num_plus as int, num_samples as int);
        assert(p * (n - p) <= 0x4_0000_0000 * 0x4_0000_0000 && n * n <= 0x4_0000_0000 * 0x4_0000_0000 && n * n > 0) by (nonlinear_arith)
            requires 0 <= p <= n <= 0x4_0000_0000, n > 0;
    }
    let product: u128 = p * (n - p);
    let numerator: u128 = 2 * product * (SCORE_SCALE as u128);
    let denominator: u128 = n * n;
    assert(numerator == 2 * num_plus * (num_samples - num_plus) * SCORE_SCALE) by (nonlinear_arith)
        requires numerator == 2 * product * SCORE_SCALE, product == p * (n - p), p == num_plus, n == num_samples;
    (numerator / denominator) as u64
}

/// The impurity `2 p (1 - p)` of a set with `num_plus` positives among
/// `num_samples`.
pub fn gini_impurity(num_plus: u32, num_samples: u32) -> (impurity: u64)
    requires
        num_plus <= num_samples,
    ensures
        impurity == gini_of(num_plus as int, num_samples as int),
        impurity <= SCORE_SCALE / 2,
{
    impurity_of(num_plus as u64, num_samples as u64)
}

/// Impurity of a side weighted by its share of the samples, on wide
/// integers.
fn weighted_impurity(num_plus: u32, num_minus: u32, total: u64) -> (share: u64)
    requires
        0 < num_plus + num_minus <= total <= MAX_SAMPLES,
    ensures
        share == weighted(num_plus as int, num_minus as int, total as int),
        share <= SCORE_SCALE / 2,
{
    let p: u128 = num_plus as u128;
    let m: u128 = num_minus as u128;
    let n: u128 = total as u128;
    proof {
        lemma_weighted_bound(num_plus as int, num_minus as int, total as int);
        assert(p * m <= 0xffff_ffff * 0xffff_ffff && 0 < (p + m) * n <= 0x2_0000_0000 * 0x4_0000_0000) by (nonlinear_arith)
            requires
                0 <= p <= 0xffff_ffff,
                0 <= m <= 0xffff_ffff,
                0 < p + m,
                p + m <= n,
                n <= 0x4_0000_0000,
        ;
    }
    let product: u128 = p * m;
    let numerator: u128 = 2 * product * (SCORE_SCALE as u128);
    let denominator: u128 = (p + m) * n;
    assert(numerator == 2 * num_plus * num_minus * SCORE_SCALE) by (nonlinear_arith)
        requires
            numerator == 2 * product * SCORE_SCALE,
            product == p * m,
            p == num_plus,
            m == num_minus,
    ;
    ((numerator + denominator - 1) / denominator) as u64
}

fn gini(
    impurity_before: u64,
    num_plus_left: u32,
    num_minus_left: u32,
    num_plus_right: u32,
    num_minus_right: u32,
) -> (scored: (Option<i64>, u64, u64))
    requires
        impurity_before <= SCORE_SCALE,
    ensures
        ({
            let counts = SplitStats {
                num_plus_left,
                num_minus_left,
                num_plus_right,
                num_minus_right,
                impurity_left: 0,
                impurity_right: 0,
                score: None,
            };
            let after = counts.scored_against(impurity_before as int);
            &&& scored.0 == after.score
            &&& scored.1 == after.impurity_left
            &&& scored.2 == after.impurity_right
            &&& !counts.has_empty_side() ==> after.is_scored()
            &&& !counts.has_empty_side() && counts.gains_nothing() ==> scored.0 == Some(0i64)
            &&& scored.1 <= SCORE_SCALE / 2
            &&& scored.2 <= SCORE_SCALE / 2
        }),
{
    let num_samples_left: u64 = num_plus_left as u64 + num_minus_left as u64;
    let num_samples_right: u64 = num_plus_right as u64 + num_minus_right as u64;

    if num_samples_left == 0 || num_samples_right == 0 {
        return (None, 0, 0);
    }
    let gini_left = impurity_of(num_plus_left as u64, num_samples_left);
    let gini_right = impurity_of(num_plus_right as u64, num_samples_right);

    let num_samples: u64 = num_samples_left + num_samples_right;

    let plus_left: u64 = num_plus_left as u64;
    let minus_left: u64 = num_minus_left as u64;
    let plus_right: u64 = num_plus_right as u64;
    let minus_right: u64 = num_minus_right as u64;
    assert(plus_left * minus_right <= 0xffff_ffff * 0xffff_ffff && plus_right * minus_left <= 0xffff_ffff
        * 0xffff_ffff) by (nonlinear_arith)
        requires
            plus_left <= 0xffff_ffff,
            minus_left <= 0xffff_ffff,
            plus_right <= 0xffff_ffff,
            minus_right <= 0xffff_ffff,
    ;
    if plus_left * minus_right == plus_right * minus_left {
        return (Some(0), gini_left, gini_right);
    }
    let share_left = weighted_impurity(num_plus_left, num_minus_left, num_samples);
    let share_right = weighted_impurity(num_plus_right, num_minus_right, num_samples);

    let score: i64 = impurity_before as i64 - share_left as i64 - share_right as i64;

    (Some(score), gini_left, gini_right)
}

/// Score and side impurities of the four counts, measured against the
/// impurity of all samples together.
pub fn gini_with_impurity_before(
    num_plus_left: u32,
    num_minus_left: u32,
    num_plus_right: u32,
    num_minus_right: u32,
) -> (scored: (Option<i64>, u64, u64))
    ensures
        ({
            let counts = SplitStats {
                num_plus_left,
                num_minus_left,
                num_plus_right,
                num_minus_right,
                impurity_left: 0,
                impurity_right: 0,
                score: None,
            };
            let after = counts.rescored();
            &&& scored.0 == after.score
            &&& scored.1 == after.impurity_left
            &&& scored.2 == after.impurity_right
            &&& !counts.has_empty_side() ==> after.is_scored()
            &&& !counts.has_empty_side() && counts.gains_nothing() ==> scored.0 == Some(0i64)
            &&& scored.0 matches Some(score) ==> score * counts.gain_denominator() <= counts.gain_numerator()
        }),
{
    proof {
        lemma_score_is_not_above_the_gain(
            SplitStats {
                num_plus_left,
                num_minus_left,
                num_plus_right,
                num_minus_right,
                impurity_left: 0,
                impurity_right: 0,
                score: None,
            },
        );
    }
    let num_plus: u64 = num_plus_left as u64 + num_plus_right as u64;
    let num_minus: u64 = num_minus_left as u64 + num_minus_right as u64;
    let num_samples: u64 = num_plus + num_minus;

    let impurity_before = impurity_of(num_plus, num_samples);

    gini(impurity_before, num_plus_left, num_minus_left, num_plus_right, num_minus_right)
}

/// The product of two products, paired the other way.
proof fn lemma_regrouped(a: int, b: int, c: int, d: int)
    ensures
        (a * b) * (c * d) == (a * c) * (b * d),
{
    lemma_mul_is_associative(a, b, c * d);
    lemma_mul_is_associative(b, c, d);
    lemma_mul_is_commutative(b, c);
    lemma_mul_is_associative(c, b, d);
    lemma_mul_is_associative(a, c, b * d);
}

/// The square of the difference of the cross products, in the sizes of
/// the two sides.
proof fn lemma_cross_square(a: int, b: int, c: int, d: int)
    ensures
        (a * d + b * c) * ((a + b) * (c + d)) - (a * b) * ((c + d) * (c + d)) - (c * d) * ((a + b) * (a + b)) == (a
            * d - b * c) * (a * d - b * c),
{
    let x = a * d;
    let y = b * c;
    let u = a * c;
    let v = b * d;
    let ab = a * b;
    let cd = c * d;
    let cc = c * c;
    let dd = d * d;
    let aa = a * a;
    let bb = b * b;
    assert((a + b) * (c + d) == u + x + y + v) by (nonlinear_arith)
        requires x == a * d, y == b * c, u == a * c, v == b * d;
    assert((x + y) * (u + x + y + v) == x * u + x * x + x * y + x * v + y * u + y * x + y * y + y * v) by (nonlinear_arith);
    assert((c + d) * (c + d) == cc + 2 * cd + dd) by (nonlinear_arith)
        requires cc == c * c, cd == c * d, dd == d * d;
    assert((a + b) * (a + b) == aa + 2 * ab + bb) by (nonlinear_arith)
        requires aa == a * a, ab == a * b, bb == b * b;
    assert(ab * (cc + 2 * cd + dd) == ab * cc + 2 * (ab * cd) + ab * dd) by (nonlinear_arith);
    assert(cd * (aa + 2 * ab + bb) == cd * aa + 2 * (cd * ab) + cd * bb) by (nonlinear_arith);
    lemma_regrouped(a, b, c, c);
    assert(ab * cc == u * y);
    lemma_regrouped(a, b, c, d);
    lemma_mul_is_commutative(b, d);
    lemma_regrouped(a, b, d, c);
    lemma_mul_is_commutative(c, d);
    lemma_mul_is_commutative(d, c);
    assert(ab * cd == u * v);
    assert(ab * (d * c) == x * y);
    assert(ab * cd == x * y);
    lemma_regrouped(a, b, d, d);
    assert(ab * dd == x * v);
    lemma_mul_is_commutative(cd, aa);
    lemma_regrouped(a, a, c, d);
    assert(cd * aa == u * x);
    lemma_mul_is_commutative(cd, ab);
    lemma_mul_is_commutative(cd, bb);
    lemma_regrouped(b, b, c, d);
    assert(cd * bb == y * v);
    lemma_mul_is_commutative(x, y);
    lemma_mul_is_commutative(x, u);
    lemma_mul_is_commutative(y, u);
    assert((x - y) * (x - y) == x * x - 2 * (x * y) + y * y) by (nonlinear_arith);
}

/// The three fractions of a gain on one denominator, less what cancels.
proof fn lemma_gain_reduced(l: int, r: int, ab: int, cd: int, q: int)
    ensures
        (ab + cd + q) * (l * r) - (l + r) * (ab * r + cd * l) == q * (l * r) - ab * (r * r) - cd * (l * l),
{
    assert((ab + cd + q) * (l * r) == ab * (l * r) + cd * (l * r) + q * (l * r)) by (nonlinear_arith);
    assert((l + r) * (ab * r + cd * l) == l * (ab * r) + l * (cd * l) + r * (ab * r) + r * (cd * l)) by (nonlinear_arith);
    assert(l * (ab * r) == ab * (l * r)) by (nonlinear_arith);
    assert(l * (cd * l) == cd * (l * l)) by (nonlinear_arith);
    assert(r * (ab * r) == ab * (r * r)) by (nonlinear_arith);
    assert(r * (cd * l) == cd * (l * r)) by (nonlinear_arith);
}

/// The numerator of the exact gain is twice the scaled square of the
/// difference of the cross products.
proof fn lemma_gain_numerator(a: int, b: int, c: int, d: int, s: int)
    ensures
        (2 * (a + c) * (b + d) * s) * ((a + b) * (c + d)) - (2 * a * b * s) * ((a + b + c + d) * (c + d)) - (2 * c * d
            * s) * ((a + b + c + d) * (a + b)) == (2 * s) * ((a * d - b * c) * (a * d - b * c)),
{
    let l = a + b;
    let r = c + d;
    let n = a + b + c + d;
    let ab = a * b;
    let cd = c * d;
    let q = a * d + b * c;
    let pm = (a + c) * (b + d);
    let lr = l * r;
    assert(pm == ab + cd + q) by (nonlinear_arith)
        requires pm == (a + c) * (b + d), ab == a * b, cd == c * d, q == a * d + b * c;
    lemma_gain_reduced(l, r, ab, cd, q);
    lemma_cross_square(a, b, c, d);
    let inner = pm * lr - (l + r) * (ab * r + cd * l);
    assert(inner == (a * d - b * c) * (a * d - b * c));
    assert(2 * (a + c) * (b + d) * s == (2 * s) * pm) by (nonlinear_arith)
        requires pm == (a + c) * (b + d);
    assert(2 * a * b * s == (2 * s) * ab) by (nonlinear_arith)
        requires ab == a * b;
    assert(2 * c * d * s == (2 * s) * cd) by (nonlinear_arith)
        requires cd == c * d;
    let k = 2 * s;
    lemma_mul_is_associative(k, pm, lr);
    lemma_mul_is_associative(k, ab, n * r);
    lemma_mul_is_associative(k, cd, n * l);
    assert(k * (pm * lr) - k * (ab * (n * r)) - k * (cd * (n * l)) == k * (pm * lr - ab * (n * r) - cd * (n * l)))
        by (nonlinear_arith);
    lemma_mul_is_associative(ab, n, r);
    lemma_mul_is_commutative(ab, n);
    lemma_mul_is_associative(n, ab, r);
    lemma_mul_is_associative(cd, n, l);
    lemma_mul_is_commutative(cd, n);
    lemma_mul_is_associative(n, cd, l);
    assert(n * (ab * r + cd * l) == n * (ab * r) + n * (cd * l)) by (nonlinear_arith);
    assert(n == l + r);
}

/// The exact gain of a split is twice the square of the difference of the
/// cross products of its counts, over the square of the number of samples
/// and the sizes of the two sides. It is never negative, and nought
/// exactly where both sides hold the same share of positives.
pub proof fn lemma_gain_is_a_square(stats: SplitStats)
    ensures
        stats.gain_numerator() == (2 * SCORE_SCALE) * ((stats.num_plus_left * stats.num_minus_right
            - stats.num_minus_left * stats.num_plus_right) * (stats.num_plus_left * stats.num_minus_right
            - stats.num_minus_left * stats.num_plus_right)),
        stats.gain_numerator() >= 0,
        stats.gains_nothing() <==> stats.gain_numerator() == 0,
{
    let a = stats.num_plus_left as int;
    let b = stats.num_minus_left as int;
    let c = stats.num_plus_right as int;
    let d = stats.num_minus_right as int;
    let s = SCORE_SCALE as int;
    let cross = a * d - b * c;
    lemma_gain_numerator(a, b, c, d, s);
    assert(stats.num_samples() - stats.num_plus() == b + d);
    assert(stats.num_plus() == a + c);
    assert(stats.num_left() == a + b);
    assert(stats.num_right() == c + d);
    assert(stats.num_samples() == a + b + c + d);
    lemma_mul_is_commutative(b, c);
    lemma_mul_is_commutative(stats.num_plus_right as int, stats.num_minus_left as int);
    assert(cross * cross >= 0 && (cross * cross == 0 <==> cross == 0) && ((2 * s) * (cross * cross) == 0 <==> cross
        * cross == 0) && (2 * s) * (cross * cross) >= 0) by (nonlinear_arith)
        requires
            s == 1_000_000_000_000int,
    ;
}

/// The score of a split against the impurity of all its samples never
/// lies above the exact gain, scaled.
pub proof fn lemma_score_is_not_above_the_gain(stats: SplitStats)
    ensures
        stats.rescored().score matches Some(score) ==> score * stats.gain_denominator() <= stats.gain_numerator(),
{
    lemma_gain_is_a_square(stats);
    if !stats.has_empty_side() && !stats.gains_nothing() {
        let a = stats.num_plus_left as int;
        let b = stats.num_minus_left as int;
        let c = stats.num_plus_right as int;
        let d = stats.num_minus_right as int;
        let n = stats.num_samples();
        let left = a + b;
        let right = c + d;
        let s = SCORE_SCALE as int;
        let before = gini_of(stats.num_plus(), n);
        let share_left = weighted(a, b, n);
        let share_right = weighted(c, d, n);
        lemma_gini_bound(stats.num_plus(), n);
        lemma_weighted_bound(a, b, n);
        lemma_weighted_bound(c, d, n);
        let score = before - share_left - share_right;
        assert(stats.rescored().score == Some(score as i64));
        let whole = 2 * stats.num_plus() * (n - stats.num_plus()) * s;
        let part_left = 2 * a * b * s;
        let part_right = 2 * c * d * s;
        assert(before * (n * n) <= whole) by (nonlinear_arith)
            requires
                n > 0,
                before == whole / (n * n),
        ;
        let x = before * (n * n);
        let y = share_left * (left * n);
        let z = share_right * (right * n);
        let common = n * n * left * right;
        assert(x * (left * right) <= whole * (left * right) && y * (n * right) >= part_left * (n * right) && z * (n
            * left) >= part_right * (n * left)) by (nonlinear_arith)
            requires
                x <= whole,
                y >= part_left,
                z >= part_right,
                left > 0,
                right > 0,
                n > 0,
        ;
        assert(before * common == x * (left * right)) by (nonlinear_arith)
            requires
                x == before * (n * n),
                common == n * n * left * right,
        ;
        assert(share_left * common == y * (n * right)) by (nonlinear_arith)
            requires
                y == share_left * (left * n),
                common == n * n * left * right,
        ;
        assert(share_right * common == z * (n * left)) by (nonlinear_arith)
            requires
                z == share_right * (right * n),
                common == n * n * left * right,
        ;
        assert(score * common == before * common - share_left * common - share_right * common) by (nonlinear_arith)
            requires
                score == before - share_left - share_right,
        ;
        assert(stats.gain_numerator() == whole * (left * right) - part_left * (n * right) - part_right * (n * left));
    } else if !stats.has_empty_side() {
        assert(stats.rescored().score == Some(0i64));
        assert(0 * stats.gain_denominator() == 0);
    }
}

/// Scoring is a function of the counts alone: statistics with the same
/// counts get the same score, whatever they held before, so scoring twice
/// changes nothing.
pub proof fn lemma_rescoring_is_idempotent(a: SplitStats, b: SplitStats)
    requires
        a.same_counts(b),
    ensures
        a.rescored().score == b.rescored().score,
        a.rescored().impurity_left == b.rescored().impurity_left,
        a.rescored().impurity_right == b.rescored().impurity_right,
        a.rescored().rescored() == a.rescored(),
        forall|impurity_before: int|
            a.scored_against(impurity_before).score == #[trigger] b.scored_against(impurity_before).score,
        forall|impurity_before: int|
            a.scored_against(impurity_before).scored_against(impurity_before) == #[trigger] a.scored_against(
                impurity_before,
            ),
{
}

} // verus!
