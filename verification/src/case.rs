//! One problem instance: the inequality parameters, the coefficient
//! bounds and restrictions, the declared subcases and the hypotheses to
//! verify.  Immutable once built; read-only through the whole search.

use vstd::prelude::*;
use crate::fixed::SCALE;
use crate::restriction::{Interval, Restriction};

verus! {

/// One statement the run is asked to prove from the search's results.
#[derive(Clone, PartialEq, Debug)]
pub enum Hypothesis {
    /// Every surviving envelope edge lies within the given delta of one of
    /// the canonical targets `{0, target, 2 * target}`.
    DeltaBound(i64, i64),
    /// The weighted numerator sum with the given coefficients stays at or
    /// above the given bound on every surviving sequence.
    SumLowerBound(Vec<i32>, i64),
    /// No sequence at all survives the search.
    Contradiction,
}

/// A problem instance.  `threshold` and `prob_cutoff` are fixed-point
/// scalars; coefficient `i` ranges over numerators of the shared
/// `denominator`, confined by `bounds[i]` where present.
#[derive(Clone, PartialEq, Debug)]
pub struct Case {
    pub threshold: i64,
    pub prob_cutoff: i64,
    pub max_depth: usize,
    pub denominator: u128,
    pub bounds: Vec<Interval>,
    pub restrictions: Vec<Restriction>,
    pub subcases: Vec<Vec<Restriction>>,
    pub hypotheses: Vec<Hypothesis>,
}

impl Hypothesis {
    /// The ranges under which hypothesis arithmetic cannot overflow.
    pub open spec fn wf(self) -> bool {
        match self {
            Hypothesis::DeltaBound(target, delta) =>
                0 <= target <= SCALE && 0 <= delta <= 1000 * (SCALE as int),
            Hypothesis::SumLowerBound(_, _) => true,
            Hypothesis::Contradiction => true,
        }
    }
}

impl Case {
    /// The shape limits under which the whole engine is free of overflow:
    /// a positive denominator of at most a million, a search depth of at
    /// most thirty, scalars of moderate size, and coefficient bounds
    /// inside the unit interval.
    pub open spec fn wf(self) -> bool {
        &&& 1 <= self.denominator <= 1_000_000
        &&& 1 <= self.max_depth <= 30
        &&& -1000 * (SCALE as int) <= self.threshold <= 1000 * (SCALE as int)
        &&& 0 <= self.prob_cutoff <= SCALE
        &&& forall|i: int| 0 <= i < self.bounds@.len()
            ==> 0 <= (#[trigger] self.bounds@[i]).lb <= self.bounds@[i].ub <= SCALE
        &&& forall|i: int| 0 <= i < self.hypotheses@.len()
            ==> (#[trigger] self.hypotheses@[i]).wf()
    }

    /// The numerator floor of `bounds[depth].lb`, or zero past the
    /// declared bounds.
    pub open spec fn spec_lower_bound(self, depth: int) -> int {
        if 0 <= depth < self.bounds@.len() {
            self.bounds@[depth].lb * self.denominator / (SCALE as int)
        } else {
            0
        }
    }

    /// The numerator floor of `bounds[depth].ub`, capped at
    /// `denominator - 1` so that every admissible numerator stays below
    /// the denominator, or `denominator - 1` past the declared bounds.
    pub open spec fn spec_upper_bound(self, depth: int) -> int {
        if 0 <= depth < self.bounds@.len() {
            let v = self.bounds@[depth].ub * self.denominator / (SCALE as int);
            if v < self.denominator {
                v
            } else {
                self.denominator - 1
            }
        } else {
            self.denominator - 1
        }
    }

    /// Smallest admissible numerator for the coefficient at `depth`.
    pub fn get_lower_bound(&self, depth: usize) -> (r: u128)
        requires
            self.wf(),
        ensures
            r == self.spec_lower_bound(depth as int),
            r <= self.denominator,
    {
        if depth < self.bounds.len() {
            let lb = self.bounds[depth].lb;
            proof {
                let v = lb as int;
                let d = self.denominator as int;
                assert(0 <= v <= SCALE as int);
                assert(v * d <= SCALE as int * d && 0 <= v * d) by (nonlinear_arith)
                    requires 0 <= v && v <= SCALE as int && d >= 0;
                assert(SCALE as int * d <= 1_000_000_000_000_000_000int) by (nonlinear_arith)
                    requires 0 <= d && d <= 1_000_000int;
                vstd::arithmetic::div_mod::lemma_div_is_ordered(
                    v * d, SCALE as int * d, SCALE as int);
                vstd::arithmetic::div_mod::lemma_div_multiples_vanish(d, SCALE as int);
            }
            (lb as u128) * self.denominator / (SCALE as u128)
        } else {
            0
        }
    }

    /// Largest admissible numerator for the coefficient at `depth`,
    /// always below the denominator.
    pub fn get_upper_bound(&self, depth: usize) -> (r: u128)
        requires
            self.wf(),
        ensures
            r == self.spec_upper_bound(depth as int),
            r < self.denominator,
    {
        if depth < self.bounds.len() {
            let ub = self.bounds[depth].ub;
            proof {
                let v = ub as int;
                let d = self.denominator as int;
                assert(0 <= v <= SCALE as int);
                assert(v * d <= SCALE as int * d && 0 <= v * d) by (nonlinear_arith)
                    requires 0 <= v && v <= SCALE as int && d >= 0;
                assert(SCALE as int * d <= 1_000_000_000_000_000_000int) by (nonlinear_arith)
                    requires 0 <= d && d <= 1_000_000int;
                vstd::arithmetic::div_mod::lemma_div_is_ordered(
                    v * d, SCALE as int * d, SCALE as int);
                vstd::arithmetic::div_mod::lemma_div_multiples_vanish(d, SCALE as int);
            }
            let raw = (ub as u128) * self.denominator / (SCALE as u128);
            if raw < self.denominator {
                raw
            } else {
                self.denominator - 1
            }
        } else {
            self.denominator - 1
        }
    }
}

} // verus!
