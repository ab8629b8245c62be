//! The searched object: a sequence of coefficient sub-intervals with one
//! shared denominator, and the restriction tests the search applies to it.
//!
//! Entry `i` holds a numerator `n`, standing for the admissible closed
//! interval `[n / denominator, (n + 1) / denominator]` of coefficient
//! `a_i`.  All restriction comparisons are exact: a rational comparison
//! `p / q <= r / s` is decided as `p * s <= r * q` over the integers.

use vstd::prelude::*;
use vstd::arithmetic::power2::pow2;
use crate::fixed::{SCALE, EPSILON, Frac, spec_isqrt};
use crate::restriction::Restriction;
use crate::case::{Case, Hypothesis};
use crate::prawitz::Bounder;
use crate::extrema::{
    Results, spec_env_exact, spec_sum_coefs, spec_single_seq, spec_added_routed,
    spec_added_default, spec_routed_to, spec_routed_somewhere, spec_results_extended,
    lemma_results_extended_refl, lemma_results_extended_compose, lemma_results_extended_equiv,
    lemma_results_extended_exact, lemma_env_exact_equiv, lemma_matches_case_facts,
    lemma_matches_case_preserved,
};

verus! {

/// A sequence of coefficient sub-intervals: numerator `n` at index `i`
/// denotes `[n / denominator, (n + 1) / denominator]`.
pub struct CoefSeq {
    pub numerators: Vec<u128>,
    pub denominator: u128,
}

/// Sum of the numerators with indices in `[start, end)`.
pub open spec fn sum_range(s: Seq<u128>, start: int, end: int) -> int
    decreases end - start,
{
    if end <= start {
        0
    } else {
        sum_range(s, start, end - 1) + s[end - 1]
    }
}

/// Sum of the squared numerators with indices in `[0, end)`.
pub open spec fn sum_squares(s: Seq<u128>, end: int) -> int
    decreases end,
{
    if end <= 0 {
        0
    } else {
        sum_squares(s, end - 1) + s[end - 1] * s[end - 1]
    }
}

/// Sum of the squared successors `(n + 1)^2` with indices in `[0, end)`.
pub open spec fn sum_succ_squares(s: Seq<u128>, end: int) -> int
    decreases end,
{
    if end <= 0 {
        0
    } else {
        sum_succ_squares(s, end - 1) + (s[end - 1] + 1) * (s[end - 1] + 1)
    }
}

/// Whether one restriction holds of the numerators `s` over denominator
/// `d` at the given search depth.  Restrictions whose indices lie at or
/// beyond the depth are vacuously satisfied, per each restriction kind's
/// own depth gate.  All comparisons are exact rational comparisons by
/// cross multiplication.
pub open spec fn spec_restriction_holds(
    s: Seq<u128>,
    d: int,
    hint: Restriction,
    depth: int,
) -> bool {
    match hint {
        Restriction::InitialSumUpperBound(sum_depth, bound) => {
            let e = if depth <= sum_depth {
                depth
            } else {
                sum_depth as int
            };
            sum_range(s, 0, e) * SCALE <= bound * d
        },
        Restriction::InitialSumLowerBound(sum_depth, bound) => {
            depth >= sum_depth ==> {
                (sum_range(s, 0, sum_depth as int) + sum_depth) * SCALE >= bound * d
            }
        },
        Restriction::MidSumUpperBound(start, end, bound) => {
            let e = if depth <= end {
                depth
            } else {
                end as int
            };
            let b = if start <= e {
                start as int
            } else {
                e
            };
            sum_range(s, b, e) * SCALE <= bound * d
        },
        Restriction::Bounds(index, interval) => {
            index < depth ==> {
                (s[index as int] + 1) * SCALE >= interval.lb * d
                    && s[index as int] * SCALE <= interval.ub * d
            }
        },
    }
}

/// Whether every restriction in the list holds of the numerators at the
/// given depth.
pub open spec fn spec_restrictions_hold(
    s: Seq<u128>,
    d: int,
    hints: Seq<Restriction>,
    depth: int,
) -> bool {
    forall|j: int| 0 <= j < hints.len()
        ==> spec_restriction_holds(s, d, #[trigger] hints[j], depth)
}

impl CoefSeq {
    /// Every numerator stays strictly below the denominator, the
    /// denominator is a positive number of moderate size, and the depth
    /// is small; under these the engine's exact arithmetic cannot
    /// overflow, and every coefficient interval lies inside the unit
    /// interval.
    pub open spec fn wf(self) -> bool {
        &&& 1 <= self.denominator <= 1_000_000
        &&& self.numerators@.len() <= 30
        &&& forall|i: int| 0 <= i < self.numerators@.len()
            ==> (#[trigger] self.numerators@[i]) < self.denominator
    }

    /// A fresh sequence with every slot at `numerator`.
    pub fn new(numerator: u128, denominator: u128, max_depth: usize) -> (r: CoefSeq)
        requires
            numerator < denominator,
            1 <= denominator <= 1_000_000,
            max_depth <= 30,
        ensures
            r.wf(),
            r.denominator == denominator,
            r.numerators@.len() == max_depth,
            forall|i: int| 0 <= i < max_depth ==> (#[trigger] r.numerators@[i]) == numerator,
    {
        let mut numerators: Vec<u128> = Vec::new();
        let mut i: usize = 0;
        while i < max_depth
            invariant
                0 <= i <= max_depth,
                numerators@.len() == i,
                forall|j: int| 0 <= j < i ==> (#[trigger] numerators@[j]) == numerator,
            decreases max_depth - i,
        {
            numerators.push(numerator);
            i = i + 1;
        }
        CoefSeq { numerators, denominator }
    }

    /// Writes one slot.
    pub fn set(&mut self, index: usize, numerator: u128)
        requires
            index < old(self).numerators@.len(),
            numerator < old(self).denominator,
        ensures
            final(self).numerators@ == old(self).numerators@.update(index as int, numerator),
            final(self).denominator == old(self).denominator,
    {
        self.numerators.set(index, numerator);
    }

    /// The numerator at `index`: the lower end of that coefficient's
    /// interval, counted in denominator units.
    pub fn get_min_numerator(&self, index: usize) -> (r: u128)
        requires
            index < self.numerators@.len(),
        ensures
            r == self.numerators@[index as int],
    {
        self.numerators[index]
    }

    /// The lower end of interval `index` as the exact rational
    /// `(numerator, denominator)`.
    pub fn get_min(&self, index: usize) -> (r: (u128, u128))
        requires
            index < self.numerators@.len(),
        ensures
            r.0 == self.numerators@[index as int],
            r.1 == self.denominator,
    {
        (self.numerators[index], self.denominator)
    }

    /// The upper end of interval `index` as the exact rational
    /// `(numerator + 1, denominator)`.
    pub fn get_max(&self, index: usize) -> (r: (u128, u128))
        requires
            self.wf(),
            index < self.numerators@.len(),
        ensures
            r.0 == self.numerators@[index as int] + 1,
            r.1 == self.denominator,
    {
        (self.numerators[index] + 1, self.denominator)
    }

    /// A copy of all numerators, lowest index first.
    pub fn iter_numerators(&self) -> (r: Vec<u128>)
        ensures
            r@ == self.numerators@,
    {
        let mut out: Vec<u128> = Vec::new();
        let mut i: usize = 0;
        let n = self.numerators.len();
        while i < n
            invariant
                0 <= i <= n,
                n == self.numerators@.len(),
                out@ == self.numerators@.take(i as int),
            decreases n - i,
        {
            out.push(self.numerators[i]);
            proof {
                assert(out@ =~= self.numerators@.take(i as int + 1));
            }
            i = i + 1;
        }
        proof {
            assert(self.numerators@.take(n as int) =~= self.numerators@);
        }
        out
    }

    /// The minimum possible variance, with every coefficient at the lower
    /// end of its interval: the exact rational
    /// `(sum of n_i^2, denominator^2)`.
    pub fn min_variance(&self) -> (r: (u128, u128))
        requires
            self.wf(),
        ensures
            r.0 == sum_squares(self.numerators@, self.numerators@.len() as int),
            r.1 == self.denominator * self.denominator,
            r.0 <= 30_000_000_000_000u128,
    {
        let n = self.numerators.len();
        let mut acc: u128 = 0;
        let mut i: usize = 0;
        while i < n
            invariant
                self.wf(),
                0 <= i <= n,
                n == self.numerators@.len(),
                acc == sum_squares(self.numerators@, i as int),
                acc <= i * 1_000_000_000_000u128,
            decreases n - i,
        {
            let v = self.numerators[i];
            proof {
                assert(v * v <= 1_000_000_000_000int) by (nonlinear_arith)
                    requires 0 <= v as int && v as int <= 1_000_000int;
            }
            acc = acc + v * v;
            i = i + 1;
        }
        proof {
            assert(self.denominator * self.denominator <= 1_000_000_000_000int)
                by (nonlinear_arith)
                requires 0 <= self.denominator as int && self.denominator as int <= 1_000_000int;
        }
        (acc, self.denominator * self.denominator)
    }

    /// The maximum possible variance, with every coefficient at the upper
    /// end of its interval: the exact rational
    /// `(sum of (n_i + 1)^2, denominator^2)`.
    pub fn max_variance(&self) -> (r: (u128, u128))
        requires
            self.wf(),
        ensures
            r.0 == sum_succ_squares(self.numerators@, self.numerators@.len() as int),
            r.1 == self.denominator * self.denominator,
            r.0 <= 60_000_000_000_000u128,
    {
        let n = self.numerators.len();
        let mut acc: u128 = 0;
        let mut i: usize = 0;
        while i < n
            invariant
                self.wf(),
                0 <= i <= n,
                n == self.numerators@.len(),
                acc == sum_succ_squares(self.numerators@, i as int),
                acc <= i * 2_000_000_000_000u128,
            decreases n - i,
        {
            let v = self.numerators[i] + 1;
            proof {
                assert(v * v <= 2_000_000_000_000int) by (nonlinear_arith)
                    requires 0 <= v as int && v as int <= 1_000_001int;
            }
            acc = acc + v * v;
            i = i + 1;
        }
        proof {
            assert(self.denominator * self.denominator <= 1_000_000_000_000int)
                by (nonlinear_arith)
                requires 0 <= self.denominator as int && self.denominator as int <= 1_000_000int;
        }
        (acc, self.denominator * self.denominator)
    }

    /// The minimum possible variance exceeds one: the squared-numerator
    /// sum exceeds the squared denominator.
    pub open spec fn min_variance_exceeds_one(self) -> bool {
        sum_squares(self.numerators@, self.numerators@.len() as int)
            > self.denominator * self.denominator
    }

    /// Sum of the numerators with indices in `[start, end)`.
    fn sum_numerators(&self, start: usize, end: usize) -> (r: u128)
        requires
            self.wf(),
            start <= end,
            end <= self.numerators@.len(),
        ensures
            r == sum_range(self.numerators@, start as int, end as int),
            r <= 30_000_000,
    {
        let mut acc: u128 = 0;
        let mut i: usize = start;
        while i < end
            invariant
                self.wf(),
                start <= i <= end,
                end <= self.numerators@.len(),
                acc == sum_range(self.numerators@, start as int, i as int),
                acc <= (i - start) * 1_000_000u128,
            decreases end - i,
        {
            proof {
                assert((i + 1 - start) * 1_000_000int
                    == (i - start) * 1_000_000int + 1_000_000int) by (nonlinear_arith);
            }
            acc = acc + self.numerators[i];
            i = i + 1;
        }
        proof {
            assert((end - start) * 1_000_000int <= 30_000_000int) by (nonlinear_arith)
                requires 0 <= end as int - start as int <= 30;
        }
        acc
    }

    /// Exact comparison `lhs / denom <= bound / SCALE`, decided by cross
    /// multiplication.
    fn scaled_le(lhs: i128, bound: i64, denom: u128) -> (r: bool)
        requires
            -100_000_000 <= lhs <= 100_000_000,
            denom <= 1_000_000,
        ensures
            r == (lhs * SCALE <= bound * denom),
    {
        proof {
            assert(-200_000_000_000_000_000_000int <= lhs * (SCALE as int)
                <= 200_000_000_000_000_000_000int) by (nonlinear_arith)
                requires -100_000_000 <= lhs as int <= 100_000_000
                    && (SCALE as int) == 1_000_000_000_000int;
            assert(-10_000_000_000_000_000_000_000_000int <= (bound as int) * (denom as int)
                <= 10_000_000_000_000_000_000_000_000int) by (nonlinear_arith)
                requires -10_000_000_000_000_000_000int <= bound as int
                    <= 10_000_000_000_000_000_000int && 0 <= denom as int <= 1_000_000int;
        }
        lhs * (SCALE as i128) <= (bound as i128) * (denom as i128)
    }

    /// Exact comparison `lhs / denom >= bound / SCALE`, decided by cross
    /// multiplication.
    fn scaled_ge(lhs: i128, bound: i64, denom: u128) -> (r: bool)
        requires
            -100_000_000 <= lhs <= 100_000_000,
            denom <= 1_000_000,
        ensures
            r == (lhs * SCALE >= bound * denom),
    {
        proof {
            assert(-200_000_000_000_000_000_000int <= lhs * (SCALE as int)
                <= 200_000_000_000_000_000_000int) by (nonlinear_arith)
                requires -100_000_000 <= lhs as int <= 100_000_000
                    && (SCALE as int) == 1_000_000_000_000int;
            assert(-10_000_000_000_000_000_000_000_000int <= (bound as int) * (denom as int)
                <= 10_000_000_000_000_000_000_000_000int) by (nonlinear_arith)
                requires -10_000_000_000_000_000_000int <= bound as int
                    <= 10_000_000_000_000_000_000int && 0 <= denom as int <= 1_000_000int;
        }
        lhs * (SCALE as i128) >= (bound as i128) * (denom as i128)
    }

    /// Whether one restriction holds of this sequence at the given search
    /// depth.  Restrictions whose indices lie at or beyond the depth are
    /// vacuously satisfied, per each restriction kind's own depth gate.
    pub open spec fn spec_restriction_ok(self, hint: Restriction, depth: int) -> bool {
        spec_restriction_holds(self.numerators@, self.denominator as int, hint, depth)
    }

    /// Whether every restriction in the list holds at the given depth.
    pub open spec fn spec_satisfies_restrictions(
        self,
        hints: Seq<Restriction>,
        depth: int,
    ) -> bool {
        spec_restrictions_hold(self.numerators@, self.denominator as int, hints, depth)
    }

    /// Tests this sequence against every restriction in `hints`, with the
    /// first `depth` coefficients considered fixed.
    pub fn satisfies_restrictions(&self, hints: &Vec<Restriction>, depth: usize) -> (r: bool)
        requires
            self.wf(),
            depth <= self.numerators@.len(),
        ensures
            r == self.spec_satisfies_restrictions(hints@, depth as int),
    {
        let n = hints.len();
        let mut j: usize = 0;
        while j < n
            invariant
                self.wf(),
                depth <= self.numerators@.len(),
                n == hints@.len(),
                0 <= j <= n,
                forall|t: int| 0 <= t < j
                    ==> self.spec_restriction_ok(#[trigger] hints@[t], depth as int),
            decreases n - j,
    {
        let ok = match hints[j] {
            Restriction::InitialSumUpperBound(sum_depth, bound) => {
                let e = if depth <= sum_depth {
                    depth
                } else {
                    sum_depth
                };
                let sum = self.sum_numerators(0, e);
                Self::scaled_le(sum as i128, bound, self.denominator)
            },
            Restriction::InitialSumLowerBound(sum_depth, bound) => {
                if depth >= sum_depth {
                    let sum = self.sum_numerators(0, sum_depth);
                    Self::scaled_ge(sum as i128 + sum_depth as i128, bound, self.denominator)
                } else {
                    true
                }
            },
            Restriction::MidSumUpperBound(start, end, bound) => {
                let e = if depth <= end {
                    depth
                } else {
                    end
                };
                let b = if start <= e {
                    start
                } else {
                    e
                };
                let sum = self.sum_numerators(b, e);
                Self::scaled_le(sum as i128, bound, self.denominator)
            },
            Restriction::Bounds(index, interval) => {
                if index < depth {
                    let v = self.numerators[index];
                    Self::scaled_ge((v as i128) + 1, interval.lb, self.denominator)
                        && Self::scaled_le(v as i128, interval.ub, self.denominator)
                } else {
                    true
                }
            },
        };
        if !ok {
            assert(!self.spec_restriction_ok(hints@[j as int], depth as int));
            return false;
        }
        j = j + 1;
    }
        true
    }
}

/// The signed threshold shift that one assignment of signs to the first
/// `i` fixed coefficients induces, in numerator units: entry `j` takes
/// bit `j` of `code`, contributing `numerator + 1` for a positive sign
/// (the coefficient's largest admissible value) and `-numerator` for a
/// negative one (its smallest), the sound direction for each.
pub open spec fn spec_adjustment(s: Seq<u128>, code: int, i: int) -> int
    decreases i,
{
    if i <= 0 {
        0
    } else {
        spec_adjustment(s, code, i - 1) + (
        if (code / pow2((i - 1) as nat) as int) % 2 == 1 {
            s[i - 1] + 1
        } else {
            -(s[i - 1] as int)
        })
    }
}

/// With every numerator at most `cap`, an adjustment over `i` entries
/// stays within `i * (cap + 1)` in magnitude.
proof fn lemma_adjustment_bound(s: Seq<u128>, code: int, i: int, cap: int)
    requires
        0 <= i <= s.len(),
        cap >= 0,
        forall|j: int| 0 <= j < s.len() ==> s[j] <= cap,
    ensures
        -(i * (cap + 1)) <= spec_adjustment(s, code, i) <= i * (cap + 1),
    decreases i,
{
    if i > 0 {
        lemma_adjustment_bound(s, code, i - 1, cap);
        assert(i * (cap + 1) == (i - 1) * (cap + 1) + (cap + 1)) by (nonlinear_arith);
    }
}

/// The minimum remaining variance once the coefficients are committed at
/// the tops of their intervals, as the exact fraction
/// `(d^2 - sum of (n_i + 1)^2) / d^2`.
pub open spec fn spec_min_rem_var(s: Seq<u128>, d: int) -> Frac {
    Frac {
        num: (d * d - sum_succ_squares(s, s.len() as int)) as i128,
        den: (d * d) as u128,
    }
}

/// The maximum remaining variance, with the coefficients at the bottoms
/// of their intervals.
pub open spec fn spec_max_rem_var(s: Seq<u128>, d: int) -> Frac {
    Frac {
        num: (d * d - sum_squares(s, s.len() as int)) as i128,
        den: (d * d) as u128,
    }
}

/// The shifted threshold for one sign assignment, as the exact fraction
/// `threshold + adjustment / d`.
pub open spec fn spec_sign_cutoff_at(s: Seq<u128>, d: int, case: Case, code: int, depth: int)
    -> Frac {
    Frac {
        num: (case.threshold * d + spec_adjustment(s, code, depth) * SCALE) as i128,
        den: (d * SCALE) as u128,
    }
}

/// The largest admissible value of the deepest fixed coefficient, as an
/// exact fraction.
pub open spec fn spec_last_max_at(s: Seq<u128>, d: int, depth: int) -> Frac {
    Frac {
        num: (s[depth - 1] + 1) as i128,
        den: d as u128,
    }
}

/// The sum, over the sign assignments `0 .. k`, of the table's lower
/// bound for the correspondingly shifted threshold.
pub open spec fn spec_sign_total_at(
    s: Seq<u128>,
    d: int,
    bounder: Bounder,
    case: Case,
    depth: int,
    k: int,
) -> int
    decreases k,
{
    if k <= 0 {
        0
    } else {
        spec_sign_total_at(s, d, bounder, case, depth, k - 1) + bounder.spec_get_with_var(
            spec_last_max_at(s, d, depth),
            spec_sign_cutoff_at(s, d, case, k - 1, depth),
            spec_min_rem_var(s, d),
            spec_max_rem_var(s, d),
        )
    }
}

/// Whether the numerators `s` over denominator `d` could still be a
/// counterexample to `Pr[X >= threshold] >= prob_cutoff`: impossible
/// when even the minimum variance exceeds one; otherwise the union-bound
/// average of the table's lower bounds over all `2^depth` sign
/// assignments must still fall below `prob_cutoff`, with a small slack
/// absorbing the table's rounding.  The average is compared exactly, by
/// cross multiplication with `2^depth`.
pub open spec fn spec_could_be_cex(
    s: Seq<u128>,
    d: int,
    bounder: Bounder,
    case: Case,
    depth: int,
) -> bool {
    if sum_squares(s, s.len() as int) > d * d {
        false
    } else {
        spec_sign_total_at(s, d, bounder, case, depth, pow2(depth as nat) as int)
            < (case.prob_cutoff + EPSILON) * pow2(depth as nat)
    }
}

impl CoefSeq {
    /// The minimum remaining variance of this sequence.
    pub open spec fn spec_min_remaining_var(self) -> Frac {
        spec_min_rem_var(self.numerators@, self.denominator as int)
    }

    /// The maximum remaining variance of this sequence.
    pub open spec fn spec_max_remaining_var(self) -> Frac {
        spec_max_rem_var(self.numerators@, self.denominator as int)
    }

    /// The shifted threshold for one sign assignment over this sequence.
    pub open spec fn spec_sign_cutoff(self, case: Case, code: int, depth: int) -> Frac {
        spec_sign_cutoff_at(self.numerators@, self.denominator as int, case, code, depth)
    }

    /// The largest admissible value of this sequence's deepest fixed
    /// coefficient.
    pub open spec fn spec_last_max(self, depth: int) -> Frac {
        spec_last_max_at(self.numerators@, self.denominator as int, depth)
    }

    /// The sum of the table's lower bounds over the sign assignments
    /// `0 .. k` of this sequence.
    pub open spec fn spec_sign_total(
        self,
        bounder: Bounder,
        case: Case,
        depth: int,
        k: int,
    ) -> int {
        spec_sign_total_at(self.numerators@, self.denominator as int, bounder, case, depth, k)
    }

    /// Whether this sequence could still be a counterexample.
    pub open spec fn spec_could_be_counterexample(
        self,
        bounder: Bounder,
        case: Case,
        depth: int,
    ) -> bool {
        spec_could_be_cex(self.numerators@, self.denominator as int, bounder, case, depth)
    }

    /// The threshold adjustment of one sign assignment, in numerator
    /// units.
    fn adjustment(&self, code: usize, depth: usize) -> (r: i128)
        requires
            self.wf(),
            depth <= self.numerators@.len(),
        ensures
            r == spec_adjustment(self.numerators@, code as int, depth as int),
            r + (depth as int) * (self.denominator + 1) >= 0,
            r <= (depth as int) * (self.denominator + 1),
            -31_000_000 <= r <= 31_000_000,
    {
        let mut adj: i128 = 0;
        let mut sta: usize = code;
        let mut j: usize = 0;
        proof {
            assert(code as int / pow2(0) as int == code as int) by {
                vstd::arithmetic::power2::lemma2_to64();
            }
            lemma_adjustment_bound(
                self.numerators@, code as int, depth as int, self.denominator as int);
            assert((depth as int) * (self.denominator + 1) <= 31_000_000int)
                by (nonlinear_arith)
                requires 0 <= depth as int <= 30 && 1 <= self.denominator as int <= 1_000_000;
        }
        while j < depth
            invariant
                self.wf(),
                depth <= self.numerators@.len(),
                0 <= j <= depth,
                sta == code as int / pow2(j as nat) as int,
                adj == spec_adjustment(self.numerators@, code as int, j as int),
            decreases depth - j,
        {
            proof {
                lemma_adjustment_bound(
                    self.numerators@, code as int, j as int, self.denominator as int);
                assert((j as int) * (self.denominator + 1) <= 31_000_000int)
                    by (nonlinear_arith)
                    requires 0 <= j as int <= 30 && 1 <= self.denominator as int <= 1_000_000;
                vstd::arithmetic::power2::lemma_pow2_adds(j as nat, 1);
                vstd::arithmetic::power2::lemma2_to64();
                vstd::arithmetic::power2::lemma_pow2_pos(j as nat);
                vstd::arithmetic::div_mod::lemma_div_denominator(
                    code as int, pow2(j as nat) as int, 2);
            }
            let numerator = self.numerators[j];
            if sta % 2 == 1 {
                adj = adj + (numerator as i128) + 1;
            } else {
                adj = adj - (numerator as i128);
            }
            sta = sta / 2;
            j = j + 1;
        }
        proof {
            lemma_adjustment_bound(
                self.numerators@, code as int, depth as int, self.denominator as int);
            assert((depth as int) * (self.denominator + 1) <= 31_000_000int)
                by (nonlinear_arith)
                requires 0 <= depth as int <= 30 && 1 <= self.denominator as int <= 1_000_000;
            assert(adj + (depth as int) * (self.denominator + 1) >= 0) by (nonlinear_arith)
                requires
                    -((depth as int) * (self.denominator as int + 1)) <= adj as int;
        }
        adj
    }

    /// Tests whether this sequence could still be a counterexample: the
    /// central pruning oracle of the search.  A `false` answer discards
    /// the whole subtree, which is sound because every bound queried is a
    /// lower bound on the tail probability of every sequence below it.
    /// In particular, a sequence whose minimum possible variance already
    /// exceeds one is never a counterexample.
    pub fn could_be_counterexample(&self, bounder: &Bounder, case: &Case, depth: usize)
        -> (r: bool)
        requires
            self.wf(),
            bounder.wf(),
            case.wf(),
            1 <= depth <= self.numerators@.len(),
            self.denominator == case.denominator,
        ensures
            r == self.spec_could_be_counterexample(*bounder, *case, depth as int),
            self.min_variance_exceeds_one() ==> !r,
    {
        let (sq_min, var_den) = self.min_variance();
        let (sq_max, _) = self.max_variance();
        let d = self.denominator;
        proof {
            assert(1 <= (d as int) * (d as int)
                && (d as int) * (d as int) <= 1_000_000_000_000int) by (nonlinear_arith)
                requires 1 <= d as int && d as int <= 1_000_000;
        }
        if sq_min > var_den {
            return false;
        }
        let minv = Frac {
            num: (var_den as i128) - (sq_max as i128),
            den: var_den,
        };
        let maxv = Frac {
            num: (var_den as i128) - (sq_min as i128),
            den: var_den,
        };
        let a = Frac {
            num: (self.numerators[depth - 1] as i128) + 1,
            den: d,
        };
        proof {
            assert((d as int) * (d as int) < (d as int + 1) * (d as int + 1))
                by (nonlinear_arith)
                requires d as int >= 0;
            crate::fixed::lemma_isqrt_is((d * d) as int, d as int);
            assert(self.numerators@[depth as int - 1] <= self.denominator);
            lemma_sum_squares_nonneg(self.numerators@, self.numerators@.len() as int);
            lemma_sum_succ_squares_nonneg(self.numerators@, self.numerators@.len() as int);
            assert(1 <= (d * d) as int <= 1_000_000_000_000int) by (nonlinear_arith)
                requires 1 <= d as int <= 1_000_000;
        }
        let mut count: usize = 1;
        let mut j: usize = 0;
        proof {
            vstd::arithmetic::power2::lemma2_to64();
        }
        while j < depth
            invariant
                0 <= j <= depth,
                depth <= 30,
                count == pow2(j as nat),
                count <= 0x4000_0000usize,
            decreases depth - j,
        {
            proof {
                vstd::arithmetic::power2::lemma_pow2_adds(j as nat, 1);
                vstd::arithmetic::power2::lemma2_to64();
                if j + 1 <= 30 {
                    vstd::arithmetic::power2::lemma_pow2_adds(j as nat + 1, (30 - j - 1) as nat);
                    vstd::arithmetic::power2::lemma_pow2_pos((30 - j - 1) as nat);
                    assert(pow2(j as nat + 1) <= pow2(30)) by (nonlinear_arith)
                        requires
                            pow2(30) == pow2(j as nat + 1) * pow2((30 - j - 1) as nat)
                                && pow2((30 - j - 1) as nat) >= 1 && pow2(j as nat + 1) >= 0;
                }
            }
            count = count * 2;
            j = j + 1;
        }
        let mut total: i128 = 0;
        let mut code: usize = 0;
        while code < count
            invariant
                self.wf(),
                bounder.wf(),
                case.wf(),
                1 <= depth <= self.numerators@.len(),
                self.denominator == case.denominator,
                d == self.denominator,
                var_den == (d * d) as u128,
                1 <= var_den <= 1_000_000_000_000u128,
                spec_isqrt(var_den as int) * spec_isqrt(var_den as int) == var_den,
                sq_min == sum_squares(self.numerators@, self.numerators@.len() as int),
                sq_max == sum_succ_squares(self.numerators@, self.numerators@.len() as int),
                sq_min <= var_den,
                sq_min <= 30_000_000_000_000u128,
                sq_max <= 60_000_000_000_000u128,
                minv == self.spec_min_remaining_var(),
                maxv == self.spec_max_remaining_var(),
                a == self.spec_last_max(depth as int),
                count == pow2(depth as nat),
                count <= 0x4000_0000usize,
                0 <= code <= count,
                total == self.spec_sign_total(*bounder, *case, depth as int, code as int),
                0 <= total <= (code as int) * (SCALE as int),
            decreases count - code,
        {
            let adj = self.adjustment(code, depth);
            proof {
                assert(1 <= (d as int) * (d as int)
                    && (d as int) * (d as int) <= 1_000_000_000_000int) by (nonlinear_arith)
                    requires 1 <= d as int && d as int <= 1_000_000;
                assert(-30 * (d as int + 1) <= adj as int
                    && adj as int <= 30 * (d as int + 1)) by (nonlinear_arith)
                    requires
                        adj as int + (depth as int) * (d as int + 1) >= 0
                            && adj as int <= (depth as int) * (d as int + 1)
                            && 0 <= depth as int <= 30 && d as int >= 0;
                assert(-2_000 * ((d as int) * (SCALE as int))
                    <= case.threshold * d + adj * SCALE
                    && case.threshold * d + adj * SCALE
                        <= 2_000 * ((d as int) * (SCALE as int)))
                    by (nonlinear_arith)
                    requires
                        -1_000_000_000_000_000i128 <= case.threshold as int
                            && case.threshold as int <= 1_000_000_000_000_000i128
                            && -30 * (d as int + 1) <= adj as int
                            && adj as int <= 30 * (d as int + 1)
                            && 1 <= d as int && d as int <= 1_000_000
                            && (SCALE as int) == 1_000_000_000_000int;
                assert(1 <= (d as int) * (SCALE as int)
                    && (d as int) * (SCALE as int) <= 1_000_000_000_000_000_000int)
                    by (nonlinear_arith)
                    requires 1 <= d as int && d as int <= 1_000_000
                        && (SCALE as int) == 1_000_000_000_000int;
            }
            let cutoff = Frac {
                num: (case.threshold as i128) * (d as i128) + adj * (SCALE as i128),
                den: d * (SCALE as u128),
            };
            let v = bounder.get_with_var(a, cutoff, minv, maxv);
            proof {
                assert((code as int + 1) * (SCALE as int)
                    == (code as int) * (SCALE as int) + SCALE) by (nonlinear_arith);
            }
            total = total + (v as i128);
            code = code + 1;
        }
        proof {
            assert((count as int) * (SCALE as int) <= 0x4000_0000i128 * 1_000_000_000_000i128)
                by (nonlinear_arith)
                requires 0 <= count as int <= 0x4000_0000int
                    && (SCALE as int) == 1_000_000_000_000int;
            assert(0 <= (case.prob_cutoff + EPSILON) * (count as int)
                && (case.prob_cutoff + EPSILON) * (count as int)
                    <= 2_000_000_000_000i128 * 0x4000_0000i128) by (nonlinear_arith)
                requires
                    0 <= case.prob_cutoff + EPSILON as int
                        && case.prob_cutoff + EPSILON as int <= 2_000_000_000_000int
                        && 0 <= count as int <= 0x4000_0000int;
        }
        total < ((case.prob_cutoff as i128) + (EPSILON as i128)) * (count as i128)
    }
}

proof fn lemma_sum_squares_nonneg(s: Seq<u128>, end: int)
    ensures
        sum_squares(s, end) >= 0,
    decreases end,
{
    if end > 0 {
        lemma_sum_squares_nonneg(s, end - 1);
        assert(s[end - 1] * s[end - 1] >= 0) by (nonlinear_arith);
    }
}

proof fn lemma_sum_succ_squares_nonneg(s: Seq<u128>, end: int)
    ensures
        sum_succ_squares(s, end) >= 0,
    decreases end,
{
    if end > 0 {
        lemma_sum_succ_squares_nonneg(s, end - 1);
        assert((s[end - 1] + 1) * (s[end - 1] + 1) >= 0) by (nonlinear_arith);
    }
}

/// For every index, the interval's lower end lies below its upper end,
/// and the width is exactly one denominator unit: with both ends written
/// over the shared denominator (as `get_min` and `get_max` return them),
/// the cross-multiplied comparison holds and the cross-multiplied
/// difference is exactly the denominator, so the rational width is
/// `1 / denominator`.
pub proof fn lemma_min_max_width(s: CoefSeq, i: int)
    requires
        s.wf(),
        0 <= i < s.numerators@.len(),
    ensures
        s.numerators@[i] * s.denominator <= (s.numerators@[i] + 1) * s.denominator,
        (s.numerators@[i] + 1) * s.denominator - s.numerators@[i] * s.denominator
            == s.denominator,
{
    assert((s.numerators@[i] + 1) * s.denominator
        == s.numerators@[i] * s.denominator + s.denominator) by (nonlinear_arith);
}


/// The sequence as one recursion frame at `depth` sees it: the fixed
/// prefix kept, every deeper slot reset to zero.
pub open spec fn spec_prefix_zero(s: Seq<u128>, depth: int) -> Seq<u128> {
    Seq::new(s.len(), |i: int| if i < depth { s[i] } else { 0u128 })
}

/// Both search gates pass at one depth: every restriction of the case
/// holds and the pruning oracle still admits the branch, both judged on
/// the sequence with slots at or past that depth reset to zero, which is
/// exactly what the search frame at that depth holds.
pub open spec fn spec_gates_pass(bounder: Bounder, case: Case, s: Seq<u128>, depth: int) -> bool {
    &&& spec_restrictions_hold(
        spec_prefix_zero(s, depth), case.denominator as int, case.restrictions@, depth)
    &&& spec_could_be_cex(
        spec_prefix_zero(s, depth), case.denominator as int, bounder, case, depth)
}

/// The terminal sequences that the subtree rooted at a frame with slots
/// `[0, depth)` fixed to `prefix` hands to the accumulator: they extend
/// the prefix, follow the case's numerator ranges in non-increasing order
/// below the frame, and pass both search gates at every depth from the
/// frame's own down to the leaves.
pub open spec fn spec_subtree_survivor(
    bounder: Bounder,
    case: Case,
    prefix: Seq<u128>,
    depth: int,
    s: Seq<u128>,
) -> bool {
    &&& s.len() == case.max_depth
    &&& forall|i: int| 0 <= i < depth ==> #[trigger] s[i] == prefix[i]
    &&& forall|d2: int| depth <= d2 < case.max_depth ==> {
        &&& case.spec_lower_bound(d2) <= #[trigger] s[d2]
        &&& s[d2] <= case.spec_upper_bound(d2)
        &&& s[d2] <= s[d2 - 1]
    }
    &&& forall|d2: int| depth <= d2 <= case.max_depth
        ==> #[trigger] spec_gates_pass(bounder, case, s, d2)
}

/// A terminal sequence that the whole search hands to the accumulator:
/// every numerator lies in the case's declared range, consecutive
/// numerators never increase, and both search gates pass at every depth
/// from one down to the leaves.
pub open spec fn spec_survivor(bounder: Bounder, case: Case, s: Seq<u128>) -> bool {
    &&& s.len() == case.max_depth
    &&& case.spec_lower_bound(0) <= s[0] <= case.spec_upper_bound(0)
    &&& forall|d2: int| 1 <= d2 < case.max_depth ==> {
        &&& case.spec_lower_bound(d2) <= #[trigger] s[d2]
        &&& s[d2] <= case.spec_upper_bound(d2)
        &&& s[d2] <= s[d2 - 1]
    }
    &&& forall|d2: int| 1 <= d2 <= case.max_depth
        ==> #[trigger] spec_gates_pass(bounder, case, s, d2)
}

/// The set of one frame's subtree survivors.
pub open spec fn spec_subtree_set(bounder: Bounder, case: Case, prefix: Seq<u128>, depth: int)
    -> spec_fn(Seq<u128>) -> bool {
    |s: Seq<u128>| spec_subtree_survivor(bounder, case, prefix, depth, s)
}

/// The subtree survivors whose own slot stays below `n`: what the
/// descent loop has already covered before trying numerator `n`.
pub open spec fn spec_subtree_below(
    bounder: Bounder,
    case: Case,
    prefix: Seq<u128>,
    depth: int,
    n: int,
) -> spec_fn(Seq<u128>) -> bool {
    |s: Seq<u128>| spec_subtree_survivor(bounder, case, prefix, depth, s) && s[depth] < n
}

/// The set of the whole search's survivors.
pub open spec fn spec_survivor_set(bounder: Bounder, case: Case) -> spec_fn(Seq<u128>) -> bool {
    |s: Seq<u128>| spec_survivor(bounder, case, s)
}

/// The survivors whose root slot stays below `n`: what the root loop has
/// already covered before trying numerator `n`.
pub open spec fn spec_survivor_below(bounder: Bounder, case: Case, n: int)
    -> spec_fn(Seq<u128>) -> bool {
    |s: Seq<u128>| spec_survivor(bounder, case, s) && s[0] < n
}

/// Whether `s` satisfies every restriction of declared subcase `k` at
/// full depth.
pub open spec fn spec_in_subcase(case: Case, s: Seq<u128>, k: int) -> bool {
    spec_restrictions_hold(
        s, case.denominator as int, case.subcases@[k]@, case.max_depth as int)
}

/// Whether `s` satisfies some declared subcase's restrictions.
pub open spec fn spec_in_some_subcase(case: Case, s: Seq<u128>) -> bool {
    exists|k: int| 0 <= k < case.subcases@.len() && spec_in_subcase(case, s, k)
}

/// The search's survivors that declared subcase `k` receives.
pub open spec fn spec_survivor_in_subcase(bounder: Bounder, case: Case, k: int)
    -> spec_fn(Seq<u128>) -> bool {
    |s: Seq<u128>| spec_survivor(bounder, case, s) && spec_in_subcase(case, s, k)
}

/// The search's survivors that the default envelope receives.
pub open spec fn spec_survivor_in_default(bounder: Bounder, case: Case)
    -> spec_fn(Seq<u128>) -> bool {
    |s: Seq<u128>| spec_survivor(bounder, case, s) && !spec_in_some_subcase(case, s)
}

/// What the search returns, stated exactly: every subcase envelope holds
/// exactly the survivors satisfying that subcase's restrictions, the
/// default envelope holds exactly the survivors satisfying none, and
/// each envelope's weighted-sum slots hold the exact minima over those
/// survivors.
pub open spec fn spec_simulate_exact(bounder: Bounder, case: Case, r: Results) -> bool {
    &&& forall|k: int| 0 <= k < r.spec_extremas().len() ==> spec_env_exact(
        #[trigger] r.spec_extremas()[k],
        case.denominator as int,
        case.max_depth as int,
        spec_sum_coefs(case.hypotheses@),
        spec_survivor_in_subcase(bounder, case, k),
    )
    &&& spec_env_exact(
        r.spec_default(),
        case.denominator as int,
        case.max_depth as int,
        spec_sum_coefs(case.hypotheses@),
        spec_survivor_in_default(bounder, case),
    )
}

/// A run in which no sequence at all survives the pruned search proves a
/// contradiction hypothesis: with nothing admitted anywhere, every
/// envelope keeps its fresh seed, whose minimum edge exceeds its maximum
/// edge whenever the denominator is at least two.
pub proof fn lemma_no_survivor_contradiction(bounder: Bounder, case: Case, r: Results)
    requires
        case.wf(),
        r.wf(),
        r.matches_case(case),
        case.denominator >= 2,
        spec_simulate_exact(bounder, case, r),
        forall|s: Seq<u128>| !spec_survivor(bounder, case, s),
    ensures
        r.spec_check_hypothesis(Hypothesis::Contradiction),
{
    lemma_no_survivor_contra_rec(bounder, case, r, r.spec_extremas().len() as int);
}

proof fn lemma_no_survivor_contra_rec(bounder: Bounder, case: Case, r: Results, k: int)
    requires
        case.wf(),
        r.wf(),
        r.matches_case(case),
        case.denominator >= 2,
        spec_simulate_exact(bounder, case, r),
        forall|s: Seq<u128>| !spec_survivor(bounder, case, s),
        0 <= k <= r.spec_extremas().len(),
    ensures
        r.spec_is_contradiction(k),
    decreases k,
{
    lemma_matches_case_facts(r, case);
    crate::extrema::lemma_wf_shape(r);
    if k <= 0 {
        assert forall|s: Seq<u128>| !(#[trigger] spec_survivor_in_default(bounder, case)(s)) by {
            assert(!spec_survivor(bounder, case, s));
        }
        crate::extrema::lemma_empty_env_contra(
            r.spec_default(),
            case.denominator as int,
            case.max_depth as int,
            spec_sum_coefs(case.hypotheses@),
            spec_survivor_in_default(bounder, case),
        );
    } else {
        lemma_no_survivor_contra_rec(bounder, case, r, k - 1);
        assert forall|s: Seq<u128>|
            !(#[trigger] spec_survivor_in_subcase(bounder, case, k - 1)(s)) by {
            assert(!spec_survivor(bounder, case, s));
        }
        crate::extrema::lemma_empty_env_contra(
            r.spec_extremas()[k - 1],
            case.denominator as int,
            case.max_depth as int,
            spec_sum_coefs(case.hypotheses@),
            spec_survivor_in_subcase(bounder, case, k - 1),
        );
    }
}

/// Fixing slot `depth` to `n` steps the subtree down one frame: a
/// completion of the extended prefix is exactly a completion of the
/// original prefix whose own slot holds `n`.
proof fn lemma_subtree_step(bounder: Bounder, case: Case, p: Seq<u128>, depth: int, n: u128)
    requires
        case.wf(),
        1 <= depth < case.max_depth,
        p.len() == case.max_depth,
        forall|i: int| depth <= i < p.len() ==> #[trigger] p[i] == 0,
        spec_restrictions_hold(p, case.denominator as int, case.restrictions@, depth),
        spec_could_be_cex(p, case.denominator as int, bounder, case, depth),
        case.spec_lower_bound(depth) <= n as int,
        n as int <= case.spec_upper_bound(depth),
        n <= p[depth - 1],
    ensures
        forall|s: Seq<u128>| #[trigger] spec_subtree_survivor(
            bounder, case, p.update(depth, n), depth + 1, s)
            <==> (spec_subtree_survivor(bounder, case, p, depth, s) && s[depth] == n),
{
    let pn = p.update(depth, n);
    assert forall|s: Seq<u128>| #[trigger] spec_subtree_survivor(bounder, case, pn, depth + 1, s)
        <==> (spec_subtree_survivor(bounder, case, p, depth, s) && s[depth] == n) by {
        if spec_subtree_survivor(bounder, case, pn, depth + 1, s) {
            assert(s[depth] == pn[depth]);
            assert(s[depth] == n);
            assert forall|i: int| 0 <= i < depth implies #[trigger] s[i] == p[i] by {
                assert(s[i] == pn[i]);
            }
            assert(spec_prefix_zero(s, depth) =~= p);
            assert(spec_gates_pass(bounder, case, s, depth));
            assert(spec_subtree_survivor(bounder, case, p, depth, s));
        }
        if spec_subtree_survivor(bounder, case, p, depth, s) && s[depth] == n {
            assert forall|i: int| 0 <= i < depth + 1 implies #[trigger] s[i] == pn[i] by {
                if i < depth {
                    assert(s[i] == p[i]);
                }
            }
            assert(spec_subtree_survivor(bounder, case, pn, depth + 1, s));
        }
    }
}

/// Fixing the root slot to `n` turns the whole search's survivor set at
/// root `n` into the subtree at depth one: a survivor whose root holds
/// `n` is exactly a completion of the prefix `[n, 0, ..., 0]`.
proof fn lemma_subtree_root(bounder: Bounder, case: Case, q: Seq<u128>, n: u128)
    requires
        case.wf(),
        q.len() == case.max_depth,
        q[0] == n,
        forall|i: int| 1 <= i < q.len() ==> #[trigger] q[i] == 0,
        case.spec_lower_bound(0) <= n as int,
        n as int <= case.spec_upper_bound(0),
    ensures
        forall|s: Seq<u128>| #[trigger] spec_subtree_survivor(bounder, case, q, 1, s)
            <==> (spec_survivor(bounder, case, s) && s[0] == n),
{
    assert forall|s: Seq<u128>| #[trigger] spec_subtree_survivor(bounder, case, q, 1, s)
        <==> (spec_survivor(bounder, case, s) && s[0] == n) by {
        if spec_subtree_survivor(bounder, case, q, 1, s) {
            assert(s[0] == q[0]);
            assert(spec_survivor(bounder, case, s));
        }
        if spec_survivor(bounder, case, s) && s[0] == n {
            assert forall|i: int| 0 <= i < 1 implies #[trigger] s[i] == q[i] by {
                assert(s[0] == n == q[0]);
            }
            assert(spec_subtree_survivor(bounder, case, q, 1, s));
        }
    }
}

/// One step of the depth-first descent.  The sequence arrives with every
/// slot at or past `depth` reset to zero and leaves the same way, so one
/// buffer serves the whole recursion.  A branch is explored only while it
/// satisfies the case's restrictions and could still be a counterexample;
/// at full depth the surviving sequence is folded into the results.  The
/// next coefficient ranges from the case's lower bound up to the previous
/// numerator (coefficients are non-increasing) capped by the case's upper
/// bound.  The accumulator leaves extended by exactly this subtree's
/// surviving terminal sequences.
fn simulate_rec(
    bounder: &Bounder,
    seq: &mut CoefSeq,
    results: &mut Results,
    case: &Case,
    depth: usize,
)
    requires
        bounder.wf(),
        case.wf(),
        old(seq).wf(),
        old(seq).denominator == case.denominator,
        old(seq).numerators@.len() == case.max_depth,
        old(results).wf(),
        old(results).matches_case(*case),
        1 <= depth <= case.max_depth,
        forall|i: int| depth <= i < case.max_depth ==> old(seq).numerators@[i] == 0,
    ensures
        final(seq).wf(),
        final(seq).denominator == old(seq).denominator,
        final(seq).numerators@.len() == old(seq).numerators@.len(),
        forall|i: int| 0 <= i < depth
            ==> #[trigger] final(seq).numerators@[i] == old(seq).numerators@[i],
        forall|i: int| depth <= i < case.max_depth ==> final(seq).numerators@[i] == 0,
        final(results).wf(),
        final(results).matches_case(*case),
        spec_results_extended(*old(results), *final(results),
            spec_subtree_set(*bounder, *case, old(seq).numerators@, depth as int)),
        old(results).envelopes_below_denominator()
            ==> final(results).envelopes_below_denominator(),
    decreases case.max_depth - depth,
{
    proof {
        lemma_matches_case_facts(*results, *case);
    }
    let gate_restrictions = seq.satisfies_restrictions(&case.restrictions, depth);
    let gate_oracle = if gate_restrictions {
        seq.could_be_counterexample(bounder, case, depth)
    } else {
        false
    };
    if gate_restrictions && gate_oracle {
        if depth < case.max_depth {
            let min = case.get_lower_bound(depth);
            let prev = seq.get_min_numerator(depth - 1);
            let ub = case.get_upper_bound(depth);
            let max = if prev < ub {
                prev
            } else {
                ub
            };
            if min <= max {
                proof {
                    assert forall|s: Seq<u128>| !(#[trigger] spec_subtree_below(
                        *bounder, *case, old(seq).numerators@, depth as int, min as int)(s)) by {
                        if spec_subtree_survivor(
                            *bounder, *case, old(seq).numerators@, depth as int, s) {
                            assert(case.spec_lower_bound(depth as int) <= s[depth as int]);
                        }
                    }
                    lemma_results_extended_refl(*results, spec_subtree_below(
                        *bounder, *case, old(seq).numerators@, depth as int, min as int));
                }
                let mut numerator: u128 = min;
                while numerator <= max
                    invariant
                        bounder.wf(),
                        case.wf(),
                        seq.wf(),
                        seq.denominator == case.denominator,
                        seq.numerators@.len() == case.max_depth,
                        old(seq).wf(),
                        old(seq).denominator == case.denominator,
                        old(seq).numerators@.len() == case.max_depth,
                        forall|i: int| depth <= i < case.max_depth
                            ==> old(seq).numerators@[i] == 0,
                        results.wf(),
                        results.matches_case(*case),
                        1 <= depth < case.max_depth,
                        spec_restrictions_hold(old(seq).numerators@,
                            case.denominator as int, case.restrictions@, depth as int),
                        spec_could_be_cex(old(seq).numerators@,
                            case.denominator as int, *bounder, *case, depth as int),
                        min == case.spec_lower_bound(depth as int),
                        ub == case.spec_upper_bound(depth as int),
                        prev == old(seq).numerators@[depth as int - 1],
                        max == if prev < ub { prev } else { ub },
                        max < case.denominator,
                        min <= numerator <= max + 1,
                        forall|i: int| 0 <= i < depth
                            ==> #[trigger] seq.numerators@[i] == old(seq).numerators@[i],
                        forall|i: int| depth + 1 <= i < case.max_depth
                            ==> seq.numerators@[i] == 0,
                        spec_results_extended(*old(results), *results,
                            spec_subtree_below(*bounder, *case, old(seq).numerators@,
                                depth as int, numerator as int)),
                        old(results).envelopes_below_denominator()
                            ==> results.envelopes_below_denominator(),
                    decreases max - numerator + 1,
                {
                    let ghost pre_iter = *results;
                    seq.set(depth, numerator);
                    proof {
                        assert(seq.numerators@
                            =~= old(seq).numerators@.update(depth as int, numerator));
                    }
                    simulate_rec(bounder, seq, results, case, depth + 1);
                    proof {
                        lemma_subtree_step(
                            *bounder, *case, old(seq).numerators@, depth as int, numerator);
                        assert forall|s: Seq<u128>| (#[trigger] spec_subtree_below(
                            *bounder, *case, old(seq).numerators@, depth as int,
                            numerator as int + 1)(s))
                            <==> (spec_subtree_below(*bounder, *case, old(seq).numerators@,
                                depth as int, numerator as int)(s)
                                || spec_subtree_set(*bounder, *case,
                                    old(seq).numerators@.update(depth as int, numerator),
                                    depth as int + 1)(s)) by {
                        }
                        lemma_results_extended_compose(
                            *old(results),
                            pre_iter,
                            *results,
                            spec_subtree_below(*bounder, *case, old(seq).numerators@,
                                depth as int, numerator as int),
                            spec_subtree_set(*bounder, *case,
                                old(seq).numerators@.update(depth as int, numerator),
                                depth as int + 1),
                            spec_subtree_below(*bounder, *case, old(seq).numerators@,
                                depth as int, numerator as int + 1),
                        );
                    }
                    numerator = numerator + 1;
                }
                proof {
                    assert forall|s: Seq<u128>| (#[trigger] spec_subtree_below(
                        *bounder, *case, old(seq).numerators@, depth as int, numerator as int)(s))
                        <==> spec_subtree_set(
                            *bounder, *case, old(seq).numerators@, depth as int)(s) by {
                        if spec_subtree_survivor(
                            *bounder, *case, old(seq).numerators@, depth as int, s) {
                            assert(s[depth as int] <= case.spec_upper_bound(depth as int));
                            assert(s[depth as int] <= s[depth as int - 1]);
                            assert(s[depth as int - 1] == old(seq).numerators@[depth as int - 1]);
                        }
                    }
                    lemma_results_extended_equiv(
                        *old(results),
                        *results,
                        spec_subtree_below(*bounder, *case, old(seq).numerators@,
                            depth as int, numerator as int),
                        spec_subtree_set(*bounder, *case, old(seq).numerators@, depth as int),
                    );
                }
            } else {
                proof {
                    assert forall|s: Seq<u128>| !(#[trigger] spec_subtree_set(
                        *bounder, *case, old(seq).numerators@, depth as int)(s)) by {
                        if spec_subtree_survivor(
                            *bounder, *case, old(seq).numerators@, depth as int, s) {
                            assert(case.spec_lower_bound(depth as int) <= s[depth as int]);
                            assert(s[depth as int] <= case.spec_upper_bound(depth as int));
                            assert(s[depth as int] <= s[depth as int - 1]);
                            assert(s[depth as int - 1] == old(seq).numerators@[depth as int - 1]);
                        }
                    }
                    lemma_results_extended_refl(*results, spec_subtree_set(
                        *bounder, *case, old(seq).numerators@, depth as int));
                }
            }
            seq.set(depth, 0);
        } else {
            proof {
                lemma_matches_case_facts(*results, *case);
            }
            let ghost pre_results = *results;
            results.include_seq(seq, depth);
            proof {
                lemma_matches_case_preserved(pre_results, *results, *case);
                assert forall|s: Seq<u128>| (#[trigger] spec_single_seq(seq.numerators@)(s))
                    <==> spec_subtree_set(
                        *bounder, *case, old(seq).numerators@, depth as int)(s) by {
                    if s == seq.numerators@ {
                        assert(spec_prefix_zero(s, depth as int) =~= s);
                        assert(spec_gates_pass(*bounder, *case, s, depth as int));
                        assert(spec_subtree_survivor(
                            *bounder, *case, old(seq).numerators@, depth as int, s));
                    }
                    if spec_subtree_survivor(
                        *bounder, *case, old(seq).numerators@, depth as int, s) {
                        assert(s =~= seq.numerators@);
                    }
                }
                lemma_results_extended_equiv(
                    pre_results,
                    *results,
                    spec_single_seq(seq.numerators@),
                    spec_subtree_set(*bounder, *case, old(seq).numerators@, depth as int),
                );
            }
        }
    } else {
        proof {
            assert forall|s: Seq<u128>| !(#[trigger] spec_subtree_set(
                *bounder, *case, old(seq).numerators@, depth as int)(s)) by {
                if spec_subtree_survivor(
                    *bounder, *case, old(seq).numerators@, depth as int, s) {
                    assert(spec_gates_pass(*bounder, *case, s, depth as int));
                    assert(spec_prefix_zero(s, depth as int) =~= old(seq).numerators@);
                }
            }
            lemma_results_extended_refl(*results, spec_subtree_set(
                *bounder, *case, old(seq).numerators@, depth as int));
        }
    }
}

/// Runs the whole branch-and-bound search for one case: the root
/// coefficient ranges over the case's declared bounds, and each root
/// value spawns an independent descent.  Returns the accumulated
/// envelopes and weighted-sum minima, ready for hypothesis checking:
/// every envelope holds exactly the sequences that survived the search
/// and were routed to it, and every envelope value stays below the
/// denominator.
pub fn simulate(bounder: &Bounder, case: &Case) -> (r: Results)
    requires
        bounder.wf(),
        case.wf(),
    ensures
        r.wf(),
        r.matches_case(*case),
        r.envelopes_below_denominator(),
        spec_simulate_exact(*bounder, *case, r),
{
    let mut seq = CoefSeq::new(0, case.denominator, case.max_depth);
    let mut results = Results::new(case);
    let ghost fresh = results;
    let min = case.get_lower_bound(0);
    let max = case.get_upper_bound(0);
    proof {
        lemma_matches_case_facts(results, *case);
        assert forall|i: int| 0 <= i < results.spec_depth()
            implies #[trigger] results.spec_default().spec_max()[i]
                < results.spec_denominator() by {
            assert(results.spec_default().spec_max()[i] == 0u128);
        }
        assert forall|k: int, i: int|
            0 <= k < results.spec_extremas().len() && 0 <= i < results.spec_depth()
            implies #[trigger] results.spec_extremas()[k].spec_max()[i]
                < results.spec_denominator() by {
            assert(results.spec_extremas()[k].spec_max()[i] == 0u128);
        }
        assert(results.envelopes_below_denominator());
    }
    if min <= max {
        proof {
            assert forall|s: Seq<u128>| !(#[trigger] spec_survivor_below(
                *bounder, *case, min as int)(s)) by {
                if spec_survivor(*bounder, *case, s) {
                    assert(case.spec_lower_bound(0) <= s[0]);
                }
            }
            lemma_results_extended_refl(results, spec_survivor_below(*bounder, *case, min as int));
        }
        let mut numerator: u128 = min;
        while numerator <= max
            invariant
                bounder.wf(),
                case.wf(),
                seq.wf(),
                seq.denominator == case.denominator,
                seq.numerators@.len() == case.max_depth,
                results.wf(),
                results.matches_case(*case),
                min == case.spec_lower_bound(0),
                max == case.spec_upper_bound(0),
                max < case.denominator,
                min <= numerator <= max + 1,
                forall|i: int| 1 <= i < case.max_depth ==> seq.numerators@[i] == 0,
                fresh.wf(),
                fresh.matches_case(*case),
                spec_results_extended(fresh, results,
                    spec_survivor_below(*bounder, *case, numerator as int)),
                results.envelopes_below_denominator(),
            decreases max - numerator + 1,
        {
            proof {
                lemma_matches_case_facts(results, *case);
            }
            let ghost pre_iter = results;
            seq.set(0, numerator);
            if case.max_depth > 1 {
                let ghost q = seq.numerators@;
                simulate_rec(bounder, &mut seq, &mut results, case, 1);
                proof {
                    lemma_subtree_root(*bounder, *case, q, numerator);
                    assert forall|s: Seq<u128>| (#[trigger] spec_survivor_below(
                        *bounder, *case, numerator as int + 1)(s))
                        <==> (spec_survivor_below(*bounder, *case, numerator as int)(s)
                            || spec_subtree_set(*bounder, *case, q, 1)(s)) by {
                    }
                    lemma_results_extended_compose(
                        fresh,
                        pre_iter,
                        results,
                        spec_survivor_below(*bounder, *case, numerator as int),
                        spec_subtree_set(*bounder, *case, q, 1),
                        spec_survivor_below(*bounder, *case, numerator as int + 1),
                    );
                }
            } else {
                let gate_restrictions = seq.satisfies_restrictions(&case.restrictions, 1);
                let gate_oracle = if gate_restrictions {
                    seq.could_be_counterexample(bounder, case, 1)
                } else {
                    false
                };
                if gate_restrictions && gate_oracle {
                    let ghost pre_results = results;
                    results.include_seq(&seq, 1);
                    proof {
                        lemma_matches_case_preserved(pre_results, results, *case);
                        assert forall|s: Seq<u128>|
                            (#[trigger] spec_single_seq(seq.numerators@)(s))
                            <==> (spec_survivor(*bounder, *case, s)
                                && s[0] == numerator) by {
                            if s == seq.numerators@ {
                                assert(spec_prefix_zero(s, 1) =~= s);
                                assert(spec_gates_pass(*bounder, *case, s, 1));
                                assert(spec_survivor(*bounder, *case, s));
                            }
                            if spec_survivor(*bounder, *case, s) && s[0] == numerator {
                                assert(s =~= seq.numerators@);
                            }
                        }
                        assert forall|s: Seq<u128>| (#[trigger] spec_survivor_below(
                            *bounder, *case, numerator as int + 1)(s))
                            <==> (spec_survivor_below(*bounder, *case, numerator as int)(s)
                                || spec_single_seq(seq.numerators@)(s)) by {
                        }
                        lemma_results_extended_compose(
                            fresh,
                            pre_results,
                            results,
                            spec_survivor_below(*bounder, *case, numerator as int),
                            spec_single_seq(seq.numerators@),
                            spec_survivor_below(*bounder, *case, numerator as int + 1),
                        );
                    }
                } else {
                    proof {
                        assert forall|s: Seq<u128>| (#[trigger] spec_survivor_below(
                            *bounder, *case, numerator as int)(s))
                            <==> spec_survivor_below(*bounder, *case, numerator as int + 1)(s) by {
                            if spec_survivor(*bounder, *case, s) && s[0] == numerator {
                                assert(spec_gates_pass(*bounder, *case, s, 1));
                                assert(spec_prefix_zero(s, 1) =~= seq.numerators@);
                            }
                        }
                        lemma_results_extended_equiv(
                            fresh,
                            results,
                            spec_survivor_below(*bounder, *case, numerator as int),
                            spec_survivor_below(*bounder, *case, numerator as int + 1),
                        );
                    }
                }
            }
            numerator = numerator + 1;
        }
        proof {
            assert forall|s: Seq<u128>| (#[trigger] spec_survivor_below(
                *bounder, *case, numerator as int)(s))
                <==> spec_survivor_set(*bounder, *case)(s) by {
                if spec_survivor(*bounder, *case, s) {
                    assert(s[0] <= case.spec_upper_bound(0));
                }
            }
            lemma_results_extended_equiv(
                fresh,
                results,
                spec_survivor_below(*bounder, *case, numerator as int),
                spec_survivor_set(*bounder, *case),
            );
        }
    } else {
        proof {
            assert forall|s: Seq<u128>| !(#[trigger] spec_survivor_set(*bounder, *case)(s)) by {
                if spec_survivor(*bounder, *case, s) {
                    assert(case.spec_lower_bound(0) <= s[0]);
                    assert(s[0] <= case.spec_upper_bound(0));
                }
            }
            lemma_results_extended_refl(results, spec_survivor_set(*bounder, *case));
        }
    }
    proof {
        lemma_matches_case_facts(fresh, *case);
        crate::extrema::lemma_wf_shape(fresh);
        lemma_results_extended_exact(fresh, results, spec_survivor_set(*bounder, *case));
        let d = case.denominator as int;
        let md = case.max_depth as int;
        assert(fresh.spec_coefs() == spec_sum_coefs(case.hypotheses@));
        assert forall|k: int| 0 <= k < results.spec_extremas().len() implies spec_env_exact(
            #[trigger] results.spec_extremas()[k],
            d,
            md,
            spec_sum_coefs(case.hypotheses@),
            spec_survivor_in_subcase(*bounder, *case, k),
        ) by {
            assert(fresh.spec_subcase_hints()[k] == case.subcases@[k]@);
            assert forall|s: Seq<u128>| (#[trigger] spec_added_routed(
                fresh, spec_survivor_set(*bounder, *case), k)(s))
                <==> spec_survivor_in_subcase(*bounder, *case, k)(s) by {
            }
            lemma_env_exact_equiv(
                results.spec_extremas()[k],
                d,
                md,
                spec_sum_coefs(case.hypotheses@),
                spec_added_routed(fresh, spec_survivor_set(*bounder, *case), k),
                spec_survivor_in_subcase(*bounder, *case, k),
            );
        }
        assert forall|s: Seq<u128>| (#[trigger] spec_routed_somewhere(fresh, s))
            <==> spec_in_some_subcase(*case, s) by {
            if spec_routed_somewhere(fresh, s) {
                let k = choose|k: int| 0 <= k < fresh.spec_subcase_hints().len()
                    && spec_routed_to(fresh, s, k);
                assert(fresh.spec_subcase_hints()[k] == case.subcases@[k]@);
                assert(spec_in_subcase(*case, s, k));
            }
            if spec_in_some_subcase(*case, s) {
                let k = choose|k: int| 0 <= k < case.subcases@.len()
                    && spec_in_subcase(*case, s, k);
                assert(fresh.spec_subcase_hints()[k] == case.subcases@[k]@);
                assert(spec_routed_to(fresh, s, k));
            }
        }
        assert forall|s: Seq<u128>| (#[trigger] spec_added_default(
            fresh, spec_survivor_set(*bounder, *case))(s))
            <==> spec_survivor_in_default(*bounder, *case)(s) by {
        }
        lemma_env_exact_equiv(
            results.spec_default(),
            d,
            md,
            spec_sum_coefs(case.hypotheses@),
            spec_added_default(fresh, spec_survivor_set(*bounder, *case)),
            spec_survivor_in_default(*bounder, *case),
        );
    }
    results
}

} // verus!
