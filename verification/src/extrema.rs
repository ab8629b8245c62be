//! The results accumulator: per-subcase envelopes of all coefficient
//! sequences that survived the search, the running minima of declared
//! weighted sums, and the verdicts on the declared hypotheses.
//!
//! Scalar results carry exact rational meanings: an envelope edge is a
//! numerator over the shared `denominator`, a delta is a numerator over
//! `denominator * SCALE`, and a weighted-sum minimum is a numerator over
//! `denominator`.

use vstd::prelude::*;
use vstd::math::abs;
use crate::fixed::{SCALE, DELTA_ERROR};
use crate::restriction::{Interval, Restriction};
use crate::case::{Case, Hypothesis};
use crate::prover::{CoefSeq, spec_restrictions_hold};

verus! {

/// The worst-case (minimum) value of the weighted numerator sum over a
/// sequence's intervals: a non-negative coefficient takes the interval's
/// lower numerator, a negative one takes `numerator + 1`, so the result
/// never overstates the sum.
pub open spec fn spec_weighted_sum(s: Seq<u128>, coefs: Seq<i32>) -> int
    decreases coefs.len(),
{
    if coefs.len() == 0 {
        0
    } else {
        let j = coefs.len() - 1;
        spec_weighted_sum(s, coefs.take(j)) + (
        if coefs[j] >= 0 {
            s[j] * coefs[j]
        } else {
            (s[j] + 1) * coefs[j]
        })
    }
}

/// A freshly observed weighted sum merged into the running minimum.
pub open spec fn spec_merged_sum(prev: Option<i128>, ws: int) -> Option<i128> {
    match prev {
        Some(p) => if ws < p {
            Some(ws as i128)
        } else {
            Some(p)
        },
        None => Some(ws as i128),
    }
}

/// Whether one of the lists equals `c`.
pub open spec fn spec_contains_coefs(cs: Seq<Seq<i32>>, c: Seq<i32>) -> bool {
    exists|j: int| 0 <= j < cs.len() && cs[j] == c
}

/// The coefficient lists of the declared weighted-sum hypotheses, in
/// declaration order and deduplicated: a list equal to an earlier one is
/// not recorded again.
pub open spec fn spec_sum_coefs(hyps: Seq<Hypothesis>) -> Seq<Seq<i32>>
    decreases hyps.len(),
{
    if hyps.len() == 0 {
        Seq::empty()
    } else {
        let rest = spec_sum_coefs(hyps.take(hyps.len() - 1));
        match hyps[hyps.len() - 1] {
            Hypothesis::SumLowerBound(c, _) => if spec_contains_coefs(rest, c@) {
                rest
            } else {
                rest + seq![c@]
            },
            _ => rest,
        }
    }
}

/// Stores the extreme values encountered during a run, for one subcase.
pub struct Extrema {
    min_as: Vec<u128>,
    max_as: Vec<u128>,
    sum_lower_bounds: Vec<Option<i128>>,
    denominator: u128,
}

impl Extrema {
    /// The per-index minimum numerators observed so far.
    pub closed spec fn spec_min(self) -> Seq<u128> {
        self.min_as@
    }

    /// The per-index maximum numerators observed so far.
    pub closed spec fn spec_max(self) -> Seq<u128> {
        self.max_as@
    }

    /// The running weighted-sum minima, one per declared sum hypothesis.
    pub closed spec fn spec_sums(self) -> Seq<Option<i128>> {
        self.sum_lower_bounds@
    }

    pub closed spec fn spec_denominator(self) -> int {
        self.denominator as int
    }

    /// The envelope depth.
    pub closed spec fn spec_depth(self) -> int {
        self.min_as@.len() as int
    }

    pub closed spec fn wf(self) -> bool {
        &&& 1 <= self.denominator <= 1_000_000
        &&& self.min_as@.len() == self.max_as@.len()
        &&& self.min_as@.len() <= 30
        &&& forall|i: int| 0 <= i < self.min_as@.len()
            ==> (#[trigger] self.min_as@[i]) <= self.denominator
        &&& forall|i: int| 0 <= i < self.max_as@.len()
            ==> (#[trigger] self.max_as@[i]) <= self.denominator
        &&& forall|j: int| 0 <= j < self.sum_lower_bounds@.len()
            ==> ((#[trigger] self.sum_lower_bounds@[j]) matches Some(p)
                ==> -100_000_000_000_000_000i128 <= p <= 100_000_000_000_000_000i128)
    }

    /// A fresh envelope: minima seeded at the denominator, maxima at
    /// zero, and no weighted sum observed yet.
    pub fn new(denominator: u128, max_depth: usize, num_sums: usize) -> (r: Extrema)
        requires
            1 <= denominator <= 1_000_000,
            max_depth <= 30,
        ensures
            r.wf(),
            r.spec_denominator() == denominator,
            r.spec_depth() == max_depth,
            r.spec_min() =~= Seq::new(max_depth as nat, |i: int| denominator),
            r.spec_max() =~= Seq::new(max_depth as nat, |i: int| 0u128),
            r.spec_sums() =~= Seq::new(num_sums as nat, |i: int| None::<i128>),
    {
        let mut sums: Vec<Option<i128>> = Vec::new();
        let mut i: usize = 0;
        while i < num_sums
            invariant
                0 <= i <= num_sums,
                sums@.len() == i,
                forall|j: int| 0 <= j < i ==> (#[trigger] sums@[j]) is None,
            decreases num_sums - i,
        {
            sums.push(None);
            i = i + 1;
        }
        let mut min_as: Vec<u128> = Vec::new();
        let mut max_as: Vec<u128> = Vec::new();
        let mut k: usize = 0;
        while k < max_depth
            invariant
                0 <= k <= max_depth,
                min_as@.len() == k,
                max_as@.len() == k,
                forall|j: int| 0 <= j < k ==> (#[trigger] min_as@[j]) == denominator,
                forall|j: int| 0 <= j < k ==> (#[trigger] max_as@[j]) == 0u128,
            decreases max_depth - k,
        {
            min_as.push(denominator);
            max_as.push(0);
            k = k + 1;
        }
        let r = Extrema {
            min_as,
            max_as,
            sum_lower_bounds: sums,
            denominator,
        };
        proof {
            assert(r.spec_min() =~= Seq::new(max_depth as nat, |i: int| denominator));
            assert(r.spec_max() =~= Seq::new(max_depth as nat, |i: int| 0u128));
            assert(r.spec_sums() =~= Seq::new(num_sums as nat, |i: int| None::<i128>));
        }
        r
    }

    /// Widens the envelope by one sequence, and folds the sequence's
    /// worst-case weighted sums into the running minima of every
    /// hypothesis whose coefficient list is fully covered at `depth`.
    /// The envelope only ever widens: minima never rise, maxima never
    /// fall, and including the same sequence again changes nothing.
    pub fn include_seq(
        &mut self,
        seq: &CoefSeq,
        sum_lower_bounds_coefs: &Vec<Vec<i32>>,
        depth: usize,
    )
        requires
            old(self).wf(),
            seq.wf(),
            seq.denominator == old(self).spec_denominator(),
            seq.numerators@.len() == old(self).spec_depth(),
            depth <= seq.numerators@.len(),
            sum_lower_bounds_coefs@.len() == old(self).spec_sums().len(),
        ensures
            final(self).wf(),
            final(self).spec_denominator() == old(self).spec_denominator(),
            final(self).spec_depth() == old(self).spec_depth(),
            final(self).spec_sums().len() == old(self).spec_sums().len(),
            forall|i: int| 0 <= i < old(self).spec_depth()
                ==> #[trigger] final(self).spec_min()[i] == if seq.numerators@[i]
                    < old(self).spec_min()[i] {
                    seq.numerators@[i]
                } else {
                    old(self).spec_min()[i]
                },
            forall|i: int| 0 <= i < old(self).spec_depth()
                ==> #[trigger] final(self).spec_max()[i] == if seq.numerators@[i]
                    > old(self).spec_max()[i] {
                    seq.numerators@[i]
                } else {
                    old(self).spec_max()[i]
                },
            forall|j: int| 0 <= j < old(self).spec_sums().len()
                ==> #[trigger] final(self).spec_sums()[j] == if depth
                    >= (#[trigger] sum_lower_bounds_coefs@[j])@.len() {
                    spec_merged_sum(
                        old(self).spec_sums()[j],
                        spec_weighted_sum(seq.numerators@, sum_lower_bounds_coefs@[j]@),
                    )
                } else {
                    old(self).spec_sums()[j]
                },
    {
        let n = self.min_as.len();
        let mut i: usize = 0;
        while i < n
            invariant
                self.wf(),
                seq.wf(),
                seq.denominator == self.spec_denominator(),
                seq.numerators@.len() == self.spec_depth(),
                n == self.spec_depth(),
                self.spec_denominator() == old(self).spec_denominator(),
                self.spec_depth() == old(self).spec_depth(),
                self.spec_sums() == old(self).spec_sums(),
                0 <= i <= n,
                forall|k: int| i <= k < n
                    ==> #[trigger] self.spec_min()[k] == old(self).spec_min()[k],
                forall|k: int| i <= k < n
                    ==> #[trigger] self.spec_max()[k] == old(self).spec_max()[k],
                forall|k: int| 0 <= k < i
                    ==> #[trigger] self.spec_min()[k] == if seq.numerators@[k]
                        < old(self).spec_min()[k] {
                        seq.numerators@[k]
                    } else {
                        old(self).spec_min()[k]
                    },
                forall|k: int| 0 <= k < i
                    ==> #[trigger] self.spec_max()[k] == if seq.numerators@[k]
                        > old(self).spec_max()[k] {
                        seq.numerators@[k]
                    } else {
                        old(self).spec_max()[k]
                    },
            decreases n - i,
        {
            let ghost prev_min = self.spec_min();
            let ghost prev_max = self.spec_max();
            let v = seq.get_min_numerator(i);
            let old_min = self.min_as[i];
            let old_max = self.max_as[i];
            if v < old_min {
                self.min_as.set(i, v);
            }
            if v > old_max {
                self.max_as.set(i, v);
            }
            proof {
                assert(forall|k: int| 0 <= k < n && k != i as int
                    ==> #[trigger] self.spec_min()[k] == prev_min[k]);
                assert(forall|k: int| 0 <= k < n && k != i as int
                    ==> #[trigger] self.spec_max()[k] == prev_max[k]);
                assert(self.spec_min()[i as int] == if v < old_min { v } else { old_min });
                assert(self.spec_max()[i as int] == if v > old_max { v } else { old_max });
            }
            i = i + 1;
        }
        let m = sum_lower_bounds_coefs.len();
        let mut j: usize = 0;
        while j < m
            invariant
                self.wf(),
                seq.wf(),
                seq.denominator == self.spec_denominator(),
                seq.numerators@.len() == self.spec_depth(),
                depth <= seq.numerators@.len(),
                m == sum_lower_bounds_coefs@.len(),
                m == self.spec_sums().len(),
                self.spec_denominator() == old(self).spec_denominator(),
                self.spec_depth() == old(self).spec_depth(),
                self.spec_min() == old(self).spec_min().map(
                    |k: int, x: u128| if seq.numerators@[k] < x { seq.numerators@[k] } else { x }),
                self.spec_max() == old(self).spec_max().map(
                    |k: int, x: u128| if seq.numerators@[k] > x { seq.numerators@[k] } else { x }),
                old(self).spec_sums().len() == m,
                0 <= j <= m,
                forall|k: int| j <= k < m
                    ==> #[trigger] self.spec_sums()[k] == old(self).spec_sums()[k],
                forall|k: int| 0 <= k < j
                    ==> #[trigger] self.spec_sums()[k] == if depth
                        >= (#[trigger] sum_lower_bounds_coefs@[k])@.len() {
                        spec_merged_sum(
                            old(self).spec_sums()[k],
                            spec_weighted_sum(seq.numerators@, sum_lower_bounds_coefs@[k]@),
                        )
                    } else {
                        old(self).spec_sums()[k]
                    },
            decreases m - j,
        {
            let coefs = &sum_lower_bounds_coefs[j];
            if depth >= coefs.len() {
                let ws = weighted_sum(seq, coefs);
                let prev = self.sum_lower_bounds[j];
                let merged = match prev {
                    Some(p) => if ws < p {
                        Some(ws)
                    } else {
                        Some(p)
                    },
                    None => Some(ws),
                };
                self.sum_lower_bounds.set(j, merged);
            }
            j = j + 1;
        }
        proof {
            assert(forall|i: int| 0 <= i < old(self).spec_depth()
                ==> #[trigger] self.spec_min()[i] == if seq.numerators@[i]
                    < old(self).spec_min()[i] {
                    seq.numerators@[i]
                } else {
                    old(self).spec_min()[i]
                });
        }
    }

    /// The running minimum of weighted sum `index`, as a numerator over
    /// the denominator; absent while no sequence has reached the
    /// hypothesis's depth.
    pub fn get_sum_lower_bound(&self, index: usize) -> (r: Option<i128>)
        requires
            index < self.spec_sums().len(),
        ensures
            r == self.spec_sums()[index as int],
    {
        self.sum_lower_bounds[index]
    }

    /// Whether no sequence at all was included: the minimum envelope edge
    /// still lies above the maximum one.
    pub open spec fn spec_is_contradiction(self) -> bool {
        self.spec_min()[0] > self.spec_max()[0] + 1
    }

    /// Whether the envelope is still empty, so no surviving sequence
    /// exists and the subcase is resolved by contradiction.
    pub fn is_contradiction(&self) -> (r: bool)
        requires
            self.wf(),
            self.spec_depth() >= 1,
        ensures
            r == self.spec_is_contradiction(),
    {
        let mn = self.min_as[0];
        let mx = self.max_as[0];
        mn > mx + 1
    }

    /// The distance, in units of `1 / (denominator * SCALE)`, from the
    /// envelope at index `i` to the nearest of the three canonical
    /// targets `{0, target, 2 * target}`: for each target the farther of
    /// the two envelope edges counts, and the nearest target wins.
    pub open spec fn spec_delta_at(self, target: int, i: int) -> int {
        let mn = self.spec_min()[i] * SCALE;
        let mx = (self.spec_max()[i] + 1) * SCALE;
        let d = self.spec_denominator();
        let d0 = spec_edge_delta(0, mn, mx);
        let d1 = spec_edge_delta(target * d, mn, mx);
        let d2 = spec_edge_delta(2 * target * d, mn, mx);
        spec_min3(d0, d1, d2)
    }

    /// The largest per-index delta over the first `depth` indices.
    pub open spec fn spec_max_delta(self, target: int, depth: int) -> int
        decreases depth,
    {
        if depth <= 0 {
            0
        } else {
            let rest = self.spec_max_delta(target, depth - 1);
            let here = self.spec_delta_at(target, depth - 1);
            if here > rest {
                here
            } else {
                rest
            }
        }
    }

    /// The maximum distance of any envelope index from the nearest
    /// canonical target, as a numerator over `denominator * SCALE`.
    pub fn get_max_delta(&self, target: i64, depth: usize) -> (r: i128)
        requires
            self.wf(),
            depth <= self.spec_depth(),
            0 <= target <= SCALE,
        ensures
            r == self.spec_max_delta(target as int, depth as int),
            0 <= r <= 4_000_000_000_000_000_000i128,
    {
        let mut max_delta: i128 = 0;
        let mut i: usize = 0;
        while i < depth
            invariant
                self.wf(),
                depth <= self.spec_depth(),
                0 <= target <= SCALE,
                0 <= i <= depth,
                max_delta == self.spec_max_delta(target as int, i as int),
                0 <= max_delta <= 4_000_000_000_000_000_000i128,
            decreases depth - i,
        {
            let mn_num = self.min_as[i];
            let mx_num = self.max_as[i];
            proof {
                assert(mn_num * SCALE <= 1_000_000_000_000_000_000int
                    && (mx_num + 1) * SCALE <= 2_000_000_000_000_000_000int)
                    by (nonlinear_arith)
                    requires
                        0 <= mn_num as int <= 1_000_000 && 0 <= mx_num as int <= 1_000_000
                            && (SCALE as int) == 1_000_000_000_000int;
                assert(0 <= (target as int) * self.spec_denominator()
                    && (target as int) * self.spec_denominator()
                        <= 1_000_000_000_000_000_000int) by (nonlinear_arith)
                    requires
                        0 <= target as int && target as int <= 1_000_000_000_000int
                            && 1 <= self.spec_denominator() <= 1_000_000;
            }
            let mn = (mn_num as i128) * (SCALE as i128);
            let mx = ((mx_num as i128) + 1) * (SCALE as i128);
            let t1 = (target as i128) * (self.denominator as i128);
            proof {
                assert(2 * ((target as int) * self.spec_denominator())
                    == (2 * (target as int)) * self.spec_denominator()) by (nonlinear_arith);
            }
            let d0 = edge_delta(0, mn, mx);
            let d1 = edge_delta(t1, mn, mx);
            let d2 = edge_delta(2 * t1, mn, mx);
            let here = if d0 <= d1 && d0 <= d2 {
                d0
            } else if d1 <= d2 {
                d1
            } else {
                d2
            };
            if here > max_delta {
                max_delta = here;
            }
            i = i + 1;
        }
        max_delta
    }
}

/// The farther of a target's distances to the two envelope edges.
pub open spec fn spec_edge_delta(t: int, mn: int, mx: int) -> int {
    let a = abs(t - mn) as int;
    let b = abs(mx - t) as int;
    if a >= b {
        a
    } else {
        b
    }
}

pub open spec fn spec_min3(a: int, b: int, c: int) -> int {
    if a <= b && a <= c {
        a
    } else if b <= c {
        b
    } else {
        c
    }
}

fn edge_delta(t: i128, mn: i128, mx: i128) -> (r: i128)
    requires
        -4_000_000_000_000_000_000i128 <= t <= 4_000_000_000_000_000_000i128,
        -4_000_000_000_000_000_000i128 <= mn <= 4_000_000_000_000_000_000i128,
        -4_000_000_000_000_000_000i128 <= mx <= 4_000_000_000_000_000_000i128,
    ensures
        r == spec_edge_delta(t as int, mn as int, mx as int),
        0 <= r <= 8_000_000_000_000_000_000i128,
{
    let a = if t >= mn {
        t - mn
    } else {
        mn - t
    };
    let b = if mx >= t {
        mx - t
    } else {
        t - mx
    };
    if a >= b {
        a
    } else {
        b
    }
}

/// The worst-case weighted numerator sum of one sequence.
fn weighted_sum(seq: &CoefSeq, coefs: &Vec<i32>) -> (r: i128)
    requires
        seq.wf(),
        coefs@.len() <= seq.numerators@.len(),
    ensures
        r == spec_weighted_sum(seq.numerators@, coefs@),
        -100_000_000_000_000_000i128 <= r <= 100_000_000_000_000_000i128,
{
    let n = coefs.len();
    let mut acc: i128 = 0;
    let mut j: usize = 0;
    while j < n
        invariant
            seq.wf(),
            n == coefs@.len(),
            n <= seq.numerators@.len(),
            0 <= j <= n,
            acc == spec_weighted_sum(seq.numerators@, coefs@.take(j as int)),
            -(j as int) * 3_000_000_000_000_000i128 <= acc,
            acc <= (j as int) * 3_000_000_000_000_000i128,
        decreases n - j,
    {
        let c = coefs[j];
        let v = seq.numerators[j];
        proof {
            assert(coefs@.take(j as int + 1).take(j as int) =~= coefs@.take(j as int));
            assert(coefs@.take(j as int + 1)[j as int] == coefs@[j as int]);
            assert(-3_000_000_000_000_000i128 <= (v as i128) * (c as i128)
                && (v as i128) * (c as i128) <= 3_000_000_000_000_000i128
                && -3_000_000_000_000_000i128 <= ((v as i128) + 1) * (c as i128)
                && ((v as i128) + 1) * (c as i128) <= 3_000_000_000_000_000i128)
                by (nonlinear_arith)
                requires
                    0 <= v as int && v as int <= 1_000_000
                        && -2_147_483_648 <= c as int && c as int <= 2_147_483_647;
            assert((j as int + 1) * 3_000_000_000_000_000i128
                == (j as int) * 3_000_000_000_000_000i128 + 3_000_000_000_000_000i128)
                by (nonlinear_arith);
            assert(-((j as int + 1) * 3_000_000_000_000_000int)
                == -((j as int) * 3_000_000_000_000_000int) - 3_000_000_000_000_000int)
                by (nonlinear_arith);
        }
        if c >= 0 {
            acc = acc + (v as i128) * (c as i128);
        } else {
            acc = acc + ((v as i128) + 1) * (c as i128);
        }
        j = j + 1;
    }
    proof {
        assert(coefs@.take(n as int) =~= coefs@);
        assert((n as int) * 3_000_000_000_000_000i128 <= 100_000_000_000_000_000i128)
            by (nonlinear_arith)
            requires 0 <= n as int <= 30;
    }
    acc
}


/// The elementwise relation between an envelope before and after one
/// sequence is folded in: minima take the smaller value, maxima the
/// larger, and each fully covered weighted sum takes the running minimum.
pub open spec fn spec_env_updated(
    pre: Extrema,
    post: Extrema,
    s: Seq<u128>,
    coefs: Seq<Seq<i32>>,
    depth: int,
) -> bool {
    &&& post.spec_denominator() == pre.spec_denominator()
    &&& post.spec_depth() == pre.spec_depth()
    &&& post.spec_sums().len() == pre.spec_sums().len()
    &&& forall|i: int| 0 <= i < pre.spec_depth()
        ==> #[trigger] post.spec_min()[i] == if s[i] < pre.spec_min()[i] {
            s[i]
        } else {
            pre.spec_min()[i]
        }
    &&& forall|i: int| 0 <= i < pre.spec_depth()
        ==> #[trigger] post.spec_max()[i] == if s[i] > pre.spec_max()[i] {
            s[i]
        } else {
            pre.spec_max()[i]
        }
    &&& forall|j: int| 0 <= j < pre.spec_sums().len()
        ==> #[trigger] post.spec_sums()[j] == if depth >= (#[trigger] coefs[j]).len() {
            spec_merged_sum(pre.spec_sums()[j], spec_weighted_sum(s, coefs[j]))
        } else {
            pre.spec_sums()[j]
        }
}

/// Inclusion only widens the envelope: minima never rise and maxima never
/// fall, and a covered weighted-sum slot never grows.
pub proof fn lemma_include_monotonic(
    pre: Extrema,
    post: Extrema,
    s: Seq<u128>,
    coefs: Seq<Seq<i32>>,
    depth: int,
)
    requires
        spec_env_updated(pre, post, s, coefs, depth),
    ensures
        forall|i: int| 0 <= i < pre.spec_depth()
            ==> #[trigger] post.spec_min()[i] <= pre.spec_min()[i],
        forall|i: int| 0 <= i < pre.spec_depth()
            ==> #[trigger] post.spec_max()[i] >= pre.spec_max()[i],
{
}

/// Including the same sequence twice is idempotent: the second inclusion
/// changes neither envelope edge nor any weighted-sum minimum.
pub proof fn lemma_include_idempotent(
    pre: Extrema,
    mid: Extrema,
    post: Extrema,
    s: Seq<u128>,
    coefs: Seq<Seq<i32>>,
    depth: int,
)
    requires
        mid.wf(),
        post.wf(),
        spec_env_updated(pre, mid, s, coefs, depth),
        spec_env_updated(mid, post, s, coefs, depth),
        forall|j: int| 0 <= j < pre.spec_sums().len()
            ==> -100_000_000_000_000_000int <= spec_weighted_sum(s, #[trigger] coefs[j])
                <= 100_000_000_000_000_000int,
    ensures
        post.spec_min() =~= mid.spec_min(),
        post.spec_max() =~= mid.spec_max(),
        post.spec_sums() =~= mid.spec_sums(),
{
    assert forall|j: int| 0 <= j < mid.spec_sums().len()
        implies #[trigger] post.spec_sums()[j] == mid.spec_sums()[j] by {
        let ws = spec_weighted_sum(s, coefs[j]);
        if depth >= coefs[j].len() {
            assert(mid.spec_sums()[j] == spec_merged_sum(pre.spec_sums()[j], ws));
            assert(post.spec_sums()[j] == spec_merged_sum(mid.spec_sums()[j], ws));
        }
    }
}

/// A freshly seeded envelope: minima at the denominator, maxima at zero,
/// every weighted-sum slot empty.
pub open spec fn spec_env_fresh(e: Extrema, d: int, depth: int, nsums: int) -> bool {
    &&& e.spec_denominator() == d
    &&& e.spec_depth() == depth
    &&& e.spec_min().len() == depth
    &&& e.spec_max().len() == depth
    &&& e.spec_sums().len() == nsums
    &&& forall|i: int| 0 <= i < depth ==> (#[trigger] e.spec_min()[i]) as int == d
    &&& forall|i: int| 0 <= i < depth ==> (#[trigger] e.spec_max()[i]) == 0u128
    &&& forall|j: int| 0 <= j < nsums ==> (#[trigger] e.spec_sums()[j]) is None
}

/// One weighted-sum slot of `post` is the same slot of `pre` lowered by
/// exactly the sums of the admitted sequences: while the slot is active
/// (the inclusion depth covers the coefficient list) it holds the running
/// minimum over the previous value and every admitted sequence's
/// worst-case sum, and it is filled as soon as any sequence is admitted.
pub open spec fn spec_sum_slot_extended(
    pre: Option<i128>,
    post: Option<i128>,
    active: bool,
    cs: Seq<i32>,
    added: spec_fn(Seq<u128>) -> bool,
) -> bool {
    if !active {
        post == pre
    } else {
        match post {
            Some(m) => {
                &&& (pre matches Some(p) ==> m <= p)
                &&& (post == pre || (exists|s: Seq<u128>| #[trigger] added(s)
                    && spec_weighted_sum(s, cs) == m))
                &&& (forall|s: Seq<u128>| #[trigger] added(s) ==> m <= spec_weighted_sum(s, cs))
            },
            None => pre is None && (forall|s: Seq<u128>| !(#[trigger] added(s))),
        }
    }
}

/// Envelope `post` is envelope `pre` widened by exactly the admitted
/// sequences: every admitted sequence lies inside the new envelope, an
/// edge moves only onto a value attained by an admitted sequence, and
/// every weighted-sum slot follows `spec_sum_slot_extended`.  `depth` is
/// the inclusion depth, deciding which slots are active.
pub open spec fn spec_env_extended(
    pre: Extrema,
    post: Extrema,
    depth: int,
    coefs: Seq<Seq<i32>>,
    added: spec_fn(Seq<u128>) -> bool,
) -> bool {
    &&& post.spec_denominator() == pre.spec_denominator()
    &&& post.spec_depth() == pre.spec_depth()
    &&& post.spec_max().len() == pre.spec_max().len()
    &&& post.spec_sums().len() == pre.spec_sums().len()
    &&& forall|i: int| 0 <= i < pre.spec_depth() ==> {
        &&& (#[trigger] post.spec_min()[i]) <= pre.spec_min()[i]
        &&& post.spec_max()[i] >= pre.spec_max()[i]
        &&& (forall|s: Seq<u128>| #[trigger] added(s)
            ==> post.spec_min()[i] <= s[i] && s[i] <= post.spec_max()[i])
        &&& (post.spec_min()[i] == pre.spec_min()[i] || (exists|s: Seq<u128>| #[trigger] added(s)
            && s[i] == post.spec_min()[i]))
        &&& (post.spec_max()[i] == pre.spec_max()[i] || (exists|s: Seq<u128>| #[trigger] added(s)
            && s[i] == post.spec_max()[i]))
    }
    &&& forall|j: int| 0 <= j < pre.spec_sums().len() ==> spec_sum_slot_extended(
        pre.spec_sums()[j],
        #[trigger] post.spec_sums()[j],
        depth >= coefs[j].len(),
        coefs[j],
        added,
    )
}

/// The envelope holds exactly the admitted sequences, judged from the
/// fresh seed: minima still at the denominator unless an admitted
/// sequence attains them, maxima still at zero likewise, every admitted
/// sequence inside the envelope, and each weighted-sum slot the exact
/// minimum over the admitted sequences or absent when there is none (or
/// its list is uncovered).
pub open spec fn spec_env_exact(
    e: Extrema,
    d: int,
    depth: int,
    coefs: Seq<Seq<i32>>,
    added: spec_fn(Seq<u128>) -> bool,
) -> bool {
    &&& forall|i: int| 0 <= i < e.spec_depth() ==> {
        &&& (#[trigger] e.spec_min()[i]) as int <= d
        &&& (forall|s: Seq<u128>| #[trigger] added(s)
            ==> e.spec_min()[i] <= s[i] && s[i] <= e.spec_max()[i])
        &&& ((e.spec_min()[i] as int == d) || (exists|s: Seq<u128>| #[trigger] added(s)
            && s[i] == e.spec_min()[i]))
        &&& (e.spec_max()[i] == 0u128 || (exists|s: Seq<u128>| #[trigger] added(s)
            && s[i] == e.spec_max()[i]))
    }
    &&& forall|j: int| 0 <= j < e.spec_sums().len() ==> match #[trigger] e.spec_sums()[j] {
        Some(m) => depth >= coefs[j].len()
            && (exists|s: Seq<u128>| #[trigger] added(s) && spec_weighted_sum(s, coefs[j]) == m)
            && (forall|s: Seq<u128>| #[trigger] added(s) ==> m <= spec_weighted_sum(s, coefs[j])),
        None => depth < coefs[j].len() || (forall|s: Seq<u128>| !(#[trigger] added(s))),
    }
}

/// Nothing admitted, nothing changed.
pub proof fn lemma_env_extended_refl(
    e: Extrema,
    depth: int,
    coefs: Seq<Seq<i32>>,
    added: spec_fn(Seq<u128>) -> bool,
)
    requires
        forall|s: Seq<u128>| !(#[trigger] added(s)),
    ensures
        spec_env_extended(e, e, depth, coefs, added),
{
    assert forall|j: int| 0 <= j < e.spec_sums().len() implies spec_sum_slot_extended(
        e.spec_sums()[j],
        e.spec_sums()[j],
        depth >= coefs[j].len(),
        coefs[j],
        added,
    ) by {
        match e.spec_sums()[j] {
            Some(m) => {
                assert(e.spec_sums()[j] == e.spec_sums()[j]);
            },
            None => {},
        }
    }
}

/// Widening by one set and then another is widening by their union.
pub proof fn lemma_env_extended_compose(
    pre: Extrema,
    mid: Extrema,
    post: Extrema,
    depth: int,
    coefs: Seq<Seq<i32>>,
    a: spec_fn(Seq<u128>) -> bool,
    b: spec_fn(Seq<u128>) -> bool,
    c: spec_fn(Seq<u128>) -> bool,
)
    requires
        spec_env_extended(pre, mid, depth, coefs, a),
        spec_env_extended(mid, post, depth, coefs, b),
        forall|s: Seq<u128>| #[trigger] c(s) <==> (a(s) || b(s)),
    ensures
        spec_env_extended(pre, post, depth, coefs, c),
{
    assert forall|i: int| 0 <= i < pre.spec_depth() implies {
        &&& (#[trigger] post.spec_min()[i]) <= pre.spec_min()[i]
        &&& post.spec_max()[i] >= pre.spec_max()[i]
        &&& (forall|s: Seq<u128>| #[trigger] c(s)
            ==> post.spec_min()[i] <= s[i] && s[i] <= post.spec_max()[i])
        &&& (post.spec_min()[i] == pre.spec_min()[i] || (exists|s: Seq<u128>| #[trigger] c(s)
            && s[i] == post.spec_min()[i]))
        &&& (post.spec_max()[i] == pre.spec_max()[i] || (exists|s: Seq<u128>| #[trigger] c(s)
            && s[i] == post.spec_max()[i]))
    } by {
        assert forall|s: Seq<u128>| #[trigger] c(s)
            implies post.spec_min()[i] <= s[i] && s[i] <= post.spec_max()[i] by {
            if a(s) {
                assert(mid.spec_min()[i] <= s[i] && s[i] <= mid.spec_max()[i]);
            } else {
                assert(b(s));
            }
        }
        if post.spec_min()[i] != pre.spec_min()[i] {
            if post.spec_min()[i] == mid.spec_min()[i] {
                let s = choose|s: Seq<u128>| #[trigger] a(s) && s[i] == mid.spec_min()[i];
                assert(c(s) && s[i] == post.spec_min()[i]);
            } else {
                let s = choose|s: Seq<u128>| #[trigger] b(s) && s[i] == post.spec_min()[i];
                assert(c(s) && s[i] == post.spec_min()[i]);
            }
        }
        if post.spec_max()[i] != pre.spec_max()[i] {
            if post.spec_max()[i] == mid.spec_max()[i] {
                let s = choose|s: Seq<u128>| #[trigger] a(s) && s[i] == mid.spec_max()[i];
                assert(c(s) && s[i] == post.spec_max()[i]);
            } else {
                let s = choose|s: Seq<u128>| #[trigger] b(s) && s[i] == post.spec_max()[i];
                assert(c(s) && s[i] == post.spec_max()[i]);
            }
        }
    }
    assert forall|j: int| 0 <= j < pre.spec_sums().len() implies spec_sum_slot_extended(
        pre.spec_sums()[j],
        post.spec_sums()[j],
        depth >= coefs[j].len(),
        coefs[j],
        c,
    ) by {
        let sp = pre.spec_sums()[j];
        let sm = mid.spec_sums()[j];
        let so = post.spec_sums()[j];
        if depth >= coefs[j].len() {
            match so {
                Some(m) => {
                    match sm {
                        Some(q) => {
                            assert(m <= q);
                            assert forall|s: Seq<u128>| #[trigger] c(s)
                                implies m <= spec_weighted_sum(s, coefs[j]) by {
                                if a(s) {
                                    assert(q <= spec_weighted_sum(s, coefs[j]));
                                } else {
                                    assert(b(s));
                                }
                            }
                            if so != sp {
                                if so == sm {
                                    if sm != sp {
                                        let s = choose|s: Seq<u128>| #[trigger] a(s)
                                            && spec_weighted_sum(s, coefs[j]) == q;
                                        assert(c(s) && spec_weighted_sum(s, coefs[j]) == m);
                                    }
                                } else {
                                    let s = choose|s: Seq<u128>| #[trigger] b(s)
                                        && spec_weighted_sum(s, coefs[j]) == m;
                                    assert(c(s));
                                }
                            }
                        },
                        None => {
                            assert(sp is None);
                            let s = choose|s: Seq<u128>| #[trigger] b(s)
                                && spec_weighted_sum(s, coefs[j]) == m;
                            assert(c(s));
                            assert forall|s2: Seq<u128>| #[trigger] c(s2)
                                implies m <= spec_weighted_sum(s2, coefs[j]) by {
                                if a(s2) {
                                    assert(false);
                                } else {
                                    assert(b(s2));
                                }
                            }
                        },
                    }
                },
                None => {
                    assert(sm is None);
                    assert(sp is None);
                    assert forall|s: Seq<u128>| !(#[trigger] c(s)) by {
                        if a(s) {
                            assert(false);
                        }
                        if b(s) {
                            assert(false);
                        }
                    }
                },
            }
        }
    }
}

/// Widening by pointwise-equal sets is the same widening.
pub proof fn lemma_env_extended_equiv(
    pre: Extrema,
    post: Extrema,
    depth: int,
    coefs: Seq<Seq<i32>>,
    a: spec_fn(Seq<u128>) -> bool,
    b: spec_fn(Seq<u128>) -> bool,
)
    requires
        spec_env_extended(pre, post, depth, coefs, a),
        forall|s: Seq<u128>| #[trigger] a(s) <==> b(s),
    ensures
        spec_env_extended(pre, post, depth, coefs, b),
{
    assert forall|i: int| 0 <= i < pre.spec_depth() implies {
        &&& (#[trigger] post.spec_min()[i]) <= pre.spec_min()[i]
        &&& post.spec_max()[i] >= pre.spec_max()[i]
        &&& (forall|s: Seq<u128>| #[trigger] b(s)
            ==> post.spec_min()[i] <= s[i] && s[i] <= post.spec_max()[i])
        &&& (post.spec_min()[i] == pre.spec_min()[i] || (exists|s: Seq<u128>| #[trigger] b(s)
            && s[i] == post.spec_min()[i]))
        &&& (post.spec_max()[i] == pre.spec_max()[i] || (exists|s: Seq<u128>| #[trigger] b(s)
            && s[i] == post.spec_max()[i]))
    } by {
        assert forall|s: Seq<u128>| #[trigger] b(s)
            implies post.spec_min()[i] <= s[i] && s[i] <= post.spec_max()[i] by {
            assert(a(s));
        }
        if post.spec_min()[i] != pre.spec_min()[i] {
            let s = choose|s: Seq<u128>| #[trigger] a(s) && s[i] == post.spec_min()[i];
            assert(b(s) && s[i] == post.spec_min()[i]);
        }
        if post.spec_max()[i] != pre.spec_max()[i] {
            let s = choose|s: Seq<u128>| #[trigger] a(s) && s[i] == post.spec_max()[i];
            assert(b(s) && s[i] == post.spec_max()[i]);
        }
    }
    assert forall|j: int| 0 <= j < pre.spec_sums().len() implies spec_sum_slot_extended(
        pre.spec_sums()[j],
        post.spec_sums()[j],
        depth >= coefs[j].len(),
        coefs[j],
        b,
    ) by {
        if depth >= coefs[j].len() {
            match post.spec_sums()[j] {
                Some(m) => {
                    assert forall|s: Seq<u128>| #[trigger] b(s)
                        implies m <= spec_weighted_sum(s, coefs[j]) by {
                        assert(a(s));
                    }
                    if post.spec_sums()[j] != pre.spec_sums()[j] {
                        let s = choose|s: Seq<u128>| #[trigger] a(s)
                            && spec_weighted_sum(s, coefs[j]) == m;
                        assert(b(s));
                    }
                },
                None => {
                    assert forall|s: Seq<u128>| !(#[trigger] b(s)) by {
                        if b(s) {
                            assert(a(s));
                        }
                    }
                },
            }
        }
    }
}

/// The worst-case weighted sum of a bounded sequence stays within the
/// range the engine's arithmetic assumes.
proof fn lemma_weighted_sum_bound(s: Seq<u128>, cs: Seq<i32>)
    requires
        cs.len() <= s.len(),
        s.len() <= 30,
        forall|i: int| 0 <= i < s.len() ==> #[trigger] s[i] <= 1_000_000,
    ensures
        -(cs.len() as int) * 3_000_000_000_000_000 <= spec_weighted_sum(s, cs),
        spec_weighted_sum(s, cs) <= (cs.len() as int) * 3_000_000_000_000_000,
    decreases cs.len(),
{
    if cs.len() > 0 {
        let j = cs.len() - 1;
        lemma_weighted_sum_bound(s, cs.take(j as int));
        let c = cs[j as int];
        let v = s[j as int];
        assert(-3_000_000_000_000_000 <= (v as int) * c && (v as int) * c
            <= 3_000_000_000_000_000
            && -3_000_000_000_000_000 <= (v as int + 1) * c && (v as int + 1) * c
                <= 3_000_000_000_000_000) by (nonlinear_arith)
            requires 0 <= v as int && v as int <= 1_000_000
                && -2_147_483_648 <= c as int && c as int <= 2_147_483_647;
        assert((j as int + 1) * 3_000_000_000_000_000
            == (j as int) * 3_000_000_000_000_000 + 3_000_000_000_000_000)
            by (nonlinear_arith);
        assert(-((j as int + 1) * 3_000_000_000_000_000)
            == -((j as int) * 3_000_000_000_000_000) - 3_000_000_000_000_000)
            by (nonlinear_arith);
    }
}

/// One inclusion is widening by the one included sequence.
pub proof fn lemma_env_updated_is_extended(
    pre: Extrema,
    post: Extrema,
    s0: Seq<u128>,
    depth: int,
    coefs: Seq<Seq<i32>>,
    one: spec_fn(Seq<u128>) -> bool,
)
    requires
        pre.wf(),
        post.wf(),
        spec_env_updated(pre, post, s0, coefs, depth),
        forall|s: Seq<u128>| #[trigger] one(s) <==> s == s0,
        s0.len() <= 30,
        forall|i: int| 0 <= i < s0.len() ==> #[trigger] s0[i] <= 1_000_000,
        forall|j: int| 0 <= j < pre.spec_sums().len()
            ==> (depth >= (#[trigger] coefs[j]).len() ==> coefs[j].len() <= s0.len()),
    ensures
        spec_env_extended(pre, post, depth, coefs, one),
{
    assert(one(s0));
    assert forall|j: int| 0 <= j < pre.spec_sums().len() implies spec_sum_slot_extended(
        pre.spec_sums()[j],
        post.spec_sums()[j],
        depth >= coefs[j].len(),
        coefs[j],
        one,
    ) by {
        if depth >= coefs[j].len() {
            lemma_weighted_sum_bound(s0, coefs[j]);
            let ws = spec_weighted_sum(s0, coefs[j]);
            assert(-100_000_000_000_000_000 <= ws <= 100_000_000_000_000_000) by {
                assert((coefs[j].len() as int) * 3_000_000_000_000_000
                    <= 100_000_000_000_000_000) by (nonlinear_arith)
                    requires 0 <= coefs[j].len() as int <= 30;
            }
            assert(post.spec_sums()[j] == spec_merged_sum(pre.spec_sums()[j], ws));
            match post.spec_sums()[j] {
                Some(m) => {
                    assert forall|s: Seq<u128>| #[trigger] one(s)
                        implies m <= spec_weighted_sum(s, coefs[j]) by {
                        assert(s == s0);
                    }
                    if post.spec_sums()[j] != pre.spec_sums()[j] {
                        assert(m == ws);
                    }
                },
                None => {
                    assert(false);
                },
            }
        }
    }
}

/// Widening a fresh envelope by a set makes the envelope hold exactly
/// that set.
pub proof fn lemma_env_fresh_extended_exact(
    seed: Extrema,
    e: Extrema,
    d: int,
    depth: int,
    coefs: Seq<Seq<i32>>,
    added: spec_fn(Seq<u128>) -> bool,
)
    requires
        spec_env_fresh(seed, d, depth, coefs.len() as int),
        spec_env_extended(seed, e, depth, coefs, added),
    ensures
        spec_env_exact(e, d, depth, coefs, added),
{
    assert forall|j: int| 0 <= j < e.spec_sums().len() implies match #[trigger] e.spec_sums()[j] {
        Some(m) => depth >= coefs[j].len()
            && (exists|s: Seq<u128>| #[trigger] added(s) && spec_weighted_sum(s, coefs[j]) == m)
            && (forall|s: Seq<u128>| #[trigger] added(s) ==> m <= spec_weighted_sum(s, coefs[j])),
        None => depth < coefs[j].len() || (forall|s: Seq<u128>| !(#[trigger] added(s))),
    } by {
        assert(seed.spec_sums()[j] is None);
        assert(spec_sum_slot_extended(
            seed.spec_sums()[j],
            e.spec_sums()[j],
            depth >= coefs[j].len(),
            coefs[j],
            added,
        ));
        if depth >= coefs[j].len() {
            match e.spec_sums()[j] {
                Some(m) => {
                    assert(e.spec_sums()[j] != seed.spec_sums()[j]);
                },
                None => {},
            }
        }
    }
}

/// Holding a set exactly transfers to any pointwise-equal set.
pub proof fn lemma_env_exact_equiv(
    e: Extrema,
    d: int,
    depth: int,
    coefs: Seq<Seq<i32>>,
    a: spec_fn(Seq<u128>) -> bool,
    b: spec_fn(Seq<u128>) -> bool,
)
    requires
        spec_env_exact(e, d, depth, coefs, a),
        forall|s: Seq<u128>| #[trigger] a(s) <==> b(s),
    ensures
        spec_env_exact(e, d, depth, coefs, b),
{
    assert forall|i: int| 0 <= i < e.spec_depth() implies {
        &&& (#[trigger] e.spec_min()[i]) as int <= d
        &&& (forall|s: Seq<u128>| #[trigger] b(s)
            ==> e.spec_min()[i] <= s[i] && s[i] <= e.spec_max()[i])
        &&& ((e.spec_min()[i] as int == d) || (exists|s: Seq<u128>| #[trigger] b(s)
            && s[i] == e.spec_min()[i]))
        &&& (e.spec_max()[i] == 0u128 || (exists|s: Seq<u128>| #[trigger] b(s)
            && s[i] == e.spec_max()[i]))
    } by {
        assert forall|s: Seq<u128>| #[trigger] b(s)
            implies e.spec_min()[i] <= s[i] && s[i] <= e.spec_max()[i] by {
            assert(a(s));
        }
        if e.spec_min()[i] as int != d {
            let s = choose|s: Seq<u128>| #[trigger] a(s) && s[i] == e.spec_min()[i];
            assert(b(s) && s[i] == e.spec_min()[i]);
        }
        if e.spec_max()[i] != 0u128 {
            let s = choose|s: Seq<u128>| #[trigger] a(s) && s[i] == e.spec_max()[i];
            assert(b(s) && s[i] == e.spec_max()[i]);
        }
    }
    assert forall|j: int| 0 <= j < e.spec_sums().len() implies match #[trigger] e.spec_sums()[j] {
        Some(m) => depth >= coefs[j].len()
            && (exists|s: Seq<u128>| #[trigger] b(s) && spec_weighted_sum(s, coefs[j]) == m)
            && (forall|s: Seq<u128>| #[trigger] b(s) ==> m <= spec_weighted_sum(s, coefs[j])),
        None => depth < coefs[j].len() || (forall|s: Seq<u128>| !(#[trigger] b(s))),
    } by {
        match e.spec_sums()[j] {
            Some(m) => {
                let s = choose|s: Seq<u128>| #[trigger] a(s)
                    && spec_weighted_sum(s, coefs[j]) == m;
                assert(b(s));
                assert forall|s2: Seq<u128>| #[trigger] b(s2)
                    implies m <= spec_weighted_sum(s2, coefs[j]) by {
                    assert(a(s2));
                }
            },
            None => {
                if depth >= coefs[j].len() {
                    assert forall|s: Seq<u128>| !(#[trigger] b(s)) by {
                        if b(s) {
                            assert(a(s));
                        }
                    }
                }
            },
        }
    }
}

/// Widening a freshly built accumulator by a set leaves every envelope
/// holding exactly the sequences routed to it.
pub proof fn lemma_results_extended_exact(
    fresh: Results,
    post: Results,
    added: spec_fn(Seq<u128>) -> bool,
)
    requires
        fresh.wf(),
        fresh.spec_fresh(),
        spec_results_extended(fresh, post, added),
    ensures
        forall|k: int| 0 <= k < post.spec_extremas().len() ==> spec_env_exact(
            #[trigger] post.spec_extremas()[k],
            fresh.spec_denominator(),
            fresh.spec_depth(),
            fresh.spec_coefs(),
            spec_added_routed(fresh, added, k),
        ),
        spec_env_exact(
            post.spec_default(),
            fresh.spec_denominator(),
            fresh.spec_depth(),
            fresh.spec_coefs(),
            spec_added_default(fresh, added),
        ),
{
    assert forall|k: int| 0 <= k < post.spec_extremas().len() implies spec_env_exact(
        #[trigger] post.spec_extremas()[k],
        fresh.spec_denominator(),
        fresh.spec_depth(),
        fresh.spec_coefs(),
        spec_added_routed(fresh, added, k),
    ) by {
        lemma_env_fresh_extended_exact(
            fresh.spec_extremas()[k],
            post.spec_extremas()[k],
            fresh.spec_denominator(),
            fresh.spec_depth(),
            fresh.spec_coefs(),
            spec_added_routed(fresh, added, k),
        );
    }
    lemma_env_fresh_extended_exact(
        fresh.spec_default(),
        post.spec_default(),
        fresh.spec_denominator(),
        fresh.spec_depth(),
        fresh.spec_coefs(),
        spec_added_default(fresh, added),
    );
}

/// The set holding exactly one sequence.
pub open spec fn spec_single_seq(s0: Seq<u128>) -> spec_fn(Seq<u128>) -> bool {
    |s: Seq<u128>| s == s0
}

/// Whether `s` satisfies the restrictions of declared subcase `k` at full
/// depth: the accumulator's routing test.
pub open spec fn spec_routed_to(r: Results, s: Seq<u128>, k: int) -> bool {
    spec_restrictions_hold(s, r.spec_denominator(), r.spec_subcase_hints()[k], r.spec_depth())
}

/// Whether `s` satisfies some declared subcase's restrictions.
pub open spec fn spec_routed_somewhere(r: Results, s: Seq<u128>) -> bool {
    exists|k: int| 0 <= k < r.spec_subcase_hints().len() && spec_routed_to(r, s, k)
}

/// The admitted sequences that subcase `k` receives: those satisfying
/// its restrictions.
pub open spec fn spec_added_routed(
    r: Results,
    added: spec_fn(Seq<u128>) -> bool,
    k: int,
) -> spec_fn(Seq<u128>) -> bool {
    |s: Seq<u128>| added(s) && spec_routed_to(r, s, k)
}

/// The admitted sequences that the default envelope receives: those
/// satisfying no declared subcase's restrictions.
pub open spec fn spec_added_default(
    r: Results,
    added: spec_fn(Seq<u128>) -> bool,
) -> spec_fn(Seq<u128>) -> bool {
    |s: Seq<u128>| added(s) && !spec_routed_somewhere(r, s)
}

/// Accumulator `post` is accumulator `pre` with exactly the admitted
/// sequences folded in: each is routed to every declared subcase whose
/// restrictions it satisfies at full depth, and to the default envelope
/// when it satisfies none.
pub open spec fn spec_results_extended(
    pre: Results,
    post: Results,
    added: spec_fn(Seq<u128>) -> bool,
) -> bool {
    &&& post.spec_subcase_hints() == pre.spec_subcase_hints()
    &&& post.spec_coefs() == pre.spec_coefs()
    &&& post.spec_extremas().len() == pre.spec_extremas().len()
    &&& post.spec_denominator() == pre.spec_denominator()
    &&& post.spec_depth() == pre.spec_depth()
    &&& (forall|k: int| 0 <= k < pre.spec_extremas().len() ==> spec_env_extended(
        pre.spec_extremas()[k],
        #[trigger] post.spec_extremas()[k],
        pre.spec_depth(),
        pre.spec_coefs(),
        spec_added_routed(pre, added, k),
    ))
    &&& spec_env_extended(
        pre.spec_default(),
        post.spec_default(),
        pre.spec_depth(),
        pre.spec_coefs(),
        spec_added_default(pre, added),
    )
}

/// Nothing admitted, nothing changed, for the whole accumulator.
pub proof fn lemma_results_extended_refl(r: Results, added: spec_fn(Seq<u128>) -> bool)
    requires
        forall|s: Seq<u128>| !(#[trigger] added(s)),
    ensures
        spec_results_extended(r, r, added),
{
    assert forall|k: int| 0 <= k < r.spec_extremas().len() implies spec_env_extended(
        r.spec_extremas()[k],
        #[trigger] r.spec_extremas()[k],
        r.spec_depth(),
        r.spec_coefs(),
        spec_added_routed(r, added, k),
    ) by {
        assert forall|s: Seq<u128>| !(#[trigger] spec_added_routed(r, added, k)(s)) by {
            assert(!added(s));
        }
        lemma_env_extended_refl(
            r.spec_extremas()[k],
            r.spec_depth(),
            r.spec_coefs(),
            spec_added_routed(r, added, k),
        );
    }
    assert forall|s: Seq<u128>| !(#[trigger] spec_added_default(r, added)(s)) by {
        assert(!added(s));
    }
    lemma_env_extended_refl(
        r.spec_default(),
        r.spec_depth(),
        r.spec_coefs(),
        spec_added_default(r, added),
    );
}

/// Folding in one set and then another folds in their union, for the
/// whole accumulator.
pub proof fn lemma_results_extended_compose(
    pre: Results,
    mid: Results,
    post: Results,
    a: spec_fn(Seq<u128>) -> bool,
    b: spec_fn(Seq<u128>) -> bool,
    c: spec_fn(Seq<u128>) -> bool,
)
    requires
        spec_results_extended(pre, mid, a),
        spec_results_extended(mid, post, b),
        forall|s: Seq<u128>| #[trigger] c(s) <==> (a(s) || b(s)),
    ensures
        spec_results_extended(pre, post, c),
{
    assert forall|k: int| 0 <= k < pre.spec_extremas().len() implies spec_env_extended(
        pre.spec_extremas()[k],
        #[trigger] post.spec_extremas()[k],
        pre.spec_depth(),
        pre.spec_coefs(),
        spec_added_routed(pre, c, k),
    ) by {
        assert forall|s: Seq<u128>| (#[trigger] spec_added_routed(mid, b, k)(s))
            <==> spec_added_routed(pre, b, k)(s) by {
            assert(spec_routed_to(mid, s, k) == spec_routed_to(pre, s, k));
        }
        lemma_env_extended_equiv(
            mid.spec_extremas()[k],
            post.spec_extremas()[k],
            mid.spec_depth(),
            mid.spec_coefs(),
            spec_added_routed(mid, b, k),
            spec_added_routed(pre, b, k),
        );
        assert forall|s: Seq<u128>| (#[trigger] spec_added_routed(pre, c, k)(s))
            <==> (spec_added_routed(pre, a, k)(s) || spec_added_routed(pre, b, k)(s)) by {
            assert(c(s) <==> (a(s) || b(s)));
        }
        lemma_env_extended_compose(
            pre.spec_extremas()[k],
            mid.spec_extremas()[k],
            post.spec_extremas()[k],
            pre.spec_depth(),
            pre.spec_coefs(),
            spec_added_routed(pre, a, k),
            spec_added_routed(pre, b, k),
            spec_added_routed(pre, c, k),
        );
    }
    assert forall|s: Seq<u128>| (#[trigger] spec_routed_somewhere(mid, s))
        == spec_routed_somewhere(pre, s) by {
        if spec_routed_somewhere(mid, s) {
            let k = choose|k: int| 0 <= k < mid.spec_subcase_hints().len()
                && spec_routed_to(mid, s, k);
            assert(spec_routed_to(pre, s, k));
        }
        if spec_routed_somewhere(pre, s) {
            let k = choose|k: int| 0 <= k < pre.spec_subcase_hints().len()
                && spec_routed_to(pre, s, k);
            assert(spec_routed_to(mid, s, k));
        }
    }
    assert forall|s: Seq<u128>| (#[trigger] spec_added_default(mid, b)(s))
        <==> spec_added_default(pre, b)(s) by {
        assert(spec_routed_somewhere(mid, s) == spec_routed_somewhere(pre, s));
    }
    lemma_env_extended_equiv(
        mid.spec_default(),
        post.spec_default(),
        mid.spec_depth(),
        mid.spec_coefs(),
        spec_added_default(mid, b),
        spec_added_default(pre, b),
    );
    assert forall|s: Seq<u128>| (#[trigger] spec_added_default(pre, c)(s))
        <==> (spec_added_default(pre, a)(s) || spec_added_default(pre, b)(s)) by {
        assert(c(s) <==> (a(s) || b(s)));
    }
    lemma_env_extended_compose(
        pre.spec_default(),
        mid.spec_default(),
        post.spec_default(),
        pre.spec_depth(),
        pre.spec_coefs(),
        spec_added_default(pre, a),
        spec_added_default(pre, b),
        spec_added_default(pre, c),
    );
}

/// Folding in pointwise-equal sets is the same fold, for the whole
/// accumulator.
pub proof fn lemma_results_extended_equiv(
    pre: Results,
    post: Results,
    a: spec_fn(Seq<u128>) -> bool,
    b: spec_fn(Seq<u128>) -> bool,
)
    requires
        spec_results_extended(pre, post, a),
        forall|s: Seq<u128>| #[trigger] a(s) <==> b(s),
    ensures
        spec_results_extended(pre, post, b),
{
    assert forall|k: int| 0 <= k < pre.spec_extremas().len() implies spec_env_extended(
        pre.spec_extremas()[k],
        #[trigger] post.spec_extremas()[k],
        pre.spec_depth(),
        pre.spec_coefs(),
        spec_added_routed(pre, b, k),
    ) by {
        assert forall|s: Seq<u128>| (#[trigger] spec_added_routed(pre, a, k)(s))
            <==> spec_added_routed(pre, b, k)(s) by {
            assert(a(s) <==> b(s));
        }
        lemma_env_extended_equiv(
            pre.spec_extremas()[k],
            post.spec_extremas()[k],
            pre.spec_depth(),
            pre.spec_coefs(),
            spec_added_routed(pre, a, k),
            spec_added_routed(pre, b, k),
        );
    }
    assert forall|s: Seq<u128>| (#[trigger] spec_added_default(pre, a)(s))
        <==> spec_added_default(pre, b)(s) by {
        assert(a(s) <==> b(s));
    }
    lemma_env_extended_equiv(
        pre.spec_default(),
        post.spec_default(),
        pre.spec_depth(),
        pre.spec_coefs(),
        spec_added_default(pre, a),
        spec_added_default(pre, b),
    );
}

/// One entry of the running minimum over all subcase envelopes.
pub open spec fn spec_merge_opt(a: Option<i128>, b: Option<i128>) -> Option<i128> {
    match (a, b) {
        (Some(x), Some(y)) => if x <= y {
            Some(x)
        } else {
            Some(y)
        },
        (Some(x), None) => Some(x),
        (None, Some(y)) => Some(y),
        (None, None) => None,
    }
}

/// The first index holding exactly the list `c`, or `-1`.
pub open spec fn spec_find_coefs(cs: Seq<Seq<i32>>, c: Seq<i32>, i: int) -> int
    decreases cs.len() - i when 0 <= i <= cs.len()
{
    if i >= cs.len() {
        -1
    } else if cs[i] == c {
        i
    } else {
        spec_find_coefs(cs, c, i + 1)
    }
}

proof fn lemma_find_coefs_range(cs: Seq<Seq<i32>>, c: Seq<i32>, i: int)
    requires
        0 <= i <= cs.len(),
    ensures
        spec_find_coefs(cs, c, i) == -1 || i <= spec_find_coefs(cs, c, i) < cs.len(),
        spec_find_coefs(cs, c, i) >= 0 ==> cs[spec_find_coefs(cs, c, i)] == c,
        (exists|j: int| i <= j < cs.len() && cs[j] == c) ==> spec_find_coefs(cs, c, i) >= 0,
    decreases cs.len() - i,
{
    if i < cs.len() && cs[i] != c {
        lemma_find_coefs_range(cs, c, i + 1);
    }
}

/// Owns one envelope per declared subcase, one for sequences matching no
/// subcase, and the deduplicable list of weighted-sum coefficient lists.
pub struct Results {
    subcase_hints: Vec<Vec<Restriction>>,
    subcase_extrema: Vec<Extrema>,
    sum_lower_bound_coefs: Vec<Vec<i32>>,
    default_subcase: Extrema,
}

impl Results {
    pub closed spec fn spec_subcase_hints(self) -> Seq<Seq<Restriction>> {
        self.subcase_hints@.map_values(|v: Vec<Restriction>| v@)
    }

    pub closed spec fn spec_extremas(self) -> Seq<Extrema> {
        self.subcase_extrema@
    }

    pub closed spec fn spec_default(self) -> Extrema {
        self.default_subcase
    }

    pub closed spec fn spec_coefs(self) -> Seq<Seq<i32>> {
        self.sum_lower_bound_coefs@.map_values(|v: Vec<i32>| v@)
    }

    pub open spec fn spec_denominator(self) -> int {
        self.spec_default().spec_denominator()
    }

    pub open spec fn spec_depth(self) -> int {
        self.spec_default().spec_depth()
    }

    /// One envelope per subcase, all envelopes over the same denominator
    /// and depth with one weighted-sum slot per declared coefficient
    /// list, and a slot is filled only once a sequence has covered its
    /// list (so a list longer than the depth stays empty forever).
    pub closed spec fn wf(self) -> bool {
        &&& self.subcase_hints@.len() == self.subcase_extrema@.len()
        &&& self.default_subcase.wf()
        &&& 1 <= self.spec_denominator() <= 1_000_000
        &&& 1 <= self.spec_depth() <= 30
        &&& self.default_subcase.spec_sums().len() == self.spec_coefs().len()
        &&& forall|k: int| 0 <= k < self.spec_extremas().len() ==> {
            let e = #[trigger] self.spec_extremas()[k];
            e.wf() && e.spec_denominator() == self.spec_denominator()
                && e.spec_depth() == self.spec_depth()
                && e.spec_sums().len() == self.spec_coefs().len()
        }
        &&& forall|j: int| 0 <= j < self.spec_coefs().len()
            ==> ((#[trigger] self.default_subcase.spec_sums()[j]) is Some
                ==> self.spec_coefs()[j].len() <= self.spec_depth())
        &&& forall|k: int, j: int|
            0 <= k < self.spec_extremas().len() && 0 <= j < self.spec_coefs().len()
                ==> ((#[trigger] self.spec_extremas()[k].spec_sums()[j]) is Some
                    ==> self.spec_coefs()[j].len() <= self.spec_depth())
    }

    /// This accumulator belongs to the given case: same denominator and
    /// depth, the declared subcases in order, and exactly the coefficient
    /// lists of the declared weighted-sum hypotheses.
    pub closed spec fn matches_case(self, case: Case) -> bool {
        &&& self.spec_denominator() == case.denominator
        &&& self.spec_depth() == case.max_depth
        &&& self.spec_subcase_hints() == case.subcases@.map_values(|v: Vec<Restriction>| v@)
        &&& self.spec_coefs() == spec_sum_coefs(case.hypotheses@)
    }

    /// A freshly built accumulator: the default envelope and every
    /// subcase envelope freshly seeded.
    pub open spec fn spec_fresh(self) -> bool {
        &&& spec_env_fresh(
            self.spec_default(),
            self.spec_denominator(),
            self.spec_depth(),
            self.spec_coefs().len() as int,
        )
        &&& forall|k: int| 0 <= k < self.spec_extremas().len() ==> spec_env_fresh(
            #[trigger] self.spec_extremas()[k],
            self.spec_denominator(),
            self.spec_depth(),
            self.spec_coefs().len() as int,
        )
    }

    /// Fresh accumulators for one case: one empty envelope per declared
    /// subcase plus the default one, every envelope seeded with minima at
    /// the denominator, maxima at zero and no weighted sum observed.
    pub fn new(case: &Case) -> (r: Results)
        requires
            case.wf(),
        ensures
            r.wf(),
            r.matches_case(*case),
            r.spec_fresh(),
            r.spec_default().spec_is_contradiction() || case.denominator == 1,
            forall|j: int| 0 <= j < r.spec_coefs().len()
                ==> (#[trigger] r.spec_default().spec_sums()[j]) is None,
    {
        let mut sum_lower_bound_coefs: Vec<Vec<i32>> = Vec::new();
        let nh = case.hypotheses.len();
        let mut i: usize = 0;
        while i < nh
            invariant
                0 <= i <= nh,
                nh == case.hypotheses@.len(),
                sum_lower_bound_coefs@.map_values(|v: Vec<i32>| v@)
                    =~= spec_sum_coefs(case.hypotheses@.take(i as int)),
            decreases nh - i,
        {
            let ghost prefix = case.hypotheses@.take(i as int);
            match &case.hypotheses[i] {
                Hypothesis::SumLowerBound(coefs, _) => {
                    let ghost mv = sum_lower_bound_coefs@.map_values(|v: Vec<i32>| v@);
                    let m = sum_lower_bound_coefs.len();
                    let mut t: usize = 0;
                    let mut seen: bool = false;
                    while t < m
                        invariant
                            0 <= t <= m,
                            m == sum_lower_bound_coefs@.len(),
                            mv == sum_lower_bound_coefs@.map_values(|v: Vec<i32>| v@),
                            seen == exists|x: int| 0 <= x < t && (#[trigger] mv[x]) == coefs@,
                        decreases m - t,
                    {
                        if vec_i32_eq(&sum_lower_bound_coefs[t], coefs) {
                            proof {
                                assert(mv[t as int] == coefs@);
                            }
                            seen = true;
                        } else {
                            proof {
                                assert(mv[t as int] != coefs@);
                            }
                        }
                        t = t + 1;
                    }
                    proof {
                        if seen {
                            assert(spec_contains_coefs(mv, coefs@));
                        }
                        if spec_contains_coefs(mv, coefs@) {
                            let x = choose|x: int| 0 <= x < mv.len() && mv[x] == coefs@;
                            assert(0 <= x < m && mv[x] == coefs@);
                            assert(seen);
                        }
                    }
                    if !seen {
                        let copy = copy_vec_i32(coefs);
                        sum_lower_bound_coefs.push(copy);
                        proof {
                            assert(sum_lower_bound_coefs@.map_values(|v: Vec<i32>| v@)
                                =~= mv.push(coefs@));
                        }
                    }
                },
                _ => {},
            }
            proof {
                let next = case.hypotheses@.take(i as int + 1);
                assert(next.take(next.len() - 1) =~= prefix);
                assert(next[next.len() - 1] == case.hypotheses@[i as int]);
                assert(sum_lower_bound_coefs@.map_values(|v: Vec<i32>| v@)
                    =~= spec_sum_coefs(next));
            }
            i = i + 1;
        }
        proof {
            assert(case.hypotheses@.take(nh as int) =~= case.hypotheses@);
        }
        let num_sums = sum_lower_bound_coefs.len();
        let mut subcase_hints: Vec<Vec<Restriction>> = Vec::new();
        let mut subcase_extrema: Vec<Extrema> = Vec::new();
        let ns = case.subcases.len();
        let mut k: usize = 0;
        while k < ns
            invariant
                case.wf(),
                0 <= k <= ns,
                ns == case.subcases@.len(),
                subcase_hints@.len() == k,
                subcase_extrema@.len() == k,
                forall|t: int| 0 <= t < k
                    ==> (#[trigger] subcase_hints@[t])@ == case.subcases@[t]@,
                forall|t: int| 0 <= t < k ==> {
                    let e = #[trigger] subcase_extrema@[t];
                    e.wf() && e.spec_denominator() == case.denominator
                        && e.spec_depth() == case.max_depth
                        && e.spec_sums().len() == num_sums
                        && e.spec_sums() =~= Seq::new(num_sums as nat, |x: int| None::<i128>)
                        && spec_env_fresh(
                            e, case.denominator as int, case.max_depth as int, num_sums as int)
                },
            decreases ns - k,
        {
            let hints = copy_restrictions(&case.subcases[k]);
            subcase_hints.push(hints);
            let fresh_env = Extrema::new(case.denominator, case.max_depth, num_sums);
            proof {
                assert(spec_env_fresh(
                    fresh_env, case.denominator as int, case.max_depth as int, num_sums as int));
            }
            subcase_extrema.push(fresh_env);
            k = k + 1;
        }
        let r = Results {
            subcase_hints,
            subcase_extrema,
            sum_lower_bound_coefs,
            default_subcase: Extrema::new(case.denominator, case.max_depth, num_sums),
        };
        proof {
            assert(r.spec_subcase_hints()
                =~= case.subcases@.map_values(|v: Vec<Restriction>| v@));
            assert(r.spec_coefs() =~= spec_sum_coefs(case.hypotheses@));
            if case.denominator >= 2 {
                assert(r.spec_default().spec_min()[0] == case.denominator);
                assert(r.spec_default().spec_max()[0] == 0u128);
            }
            assert(spec_env_fresh(
                r.spec_default(), r.spec_denominator(), r.spec_depth(),
                r.spec_coefs().len() as int));
        }
        r
    }

    /// Routes a terminal sequence: it is folded into every declared
    /// subcase whose restrictions it satisfies at the given depth, and
    /// into the default envelope when it satisfies none.  (The strict
    /// satisfaction test decides membership; a sequence can feed several
    /// subcases at once.)
    pub fn include_seq(&mut self, seq: &CoefSeq, depth: usize)
        requires
            old(self).wf(),
            seq.wf(),
            seq.denominator == old(self).spec_denominator(),
            seq.numerators@.len() == old(self).spec_depth(),
            depth <= old(self).spec_depth(),
        ensures
            final(self).wf(),
            final(self).spec_subcase_hints() == old(self).spec_subcase_hints(),
            final(self).spec_coefs() == old(self).spec_coefs(),
            final(self).spec_denominator() == old(self).spec_denominator(),
            final(self).spec_depth() == old(self).spec_depth(),
            final(self).spec_extremas().len() == old(self).spec_extremas().len(),
            forall|k: int| 0 <= k < old(self).spec_extremas().len()
                ==> if seq.spec_satisfies_restrictions(
                    old(self).spec_subcase_hints()[k], depth as int) {
                    spec_env_updated(
                        old(self).spec_extremas()[k],
                        #[trigger] final(self).spec_extremas()[k],
                        seq.numerators@,
                        old(self).spec_coefs(),
                        depth as int,
                    )
                } else {
                    final(self).spec_extremas()[k] == old(self).spec_extremas()[k]
                },
            (exists|k: int| 0 <= k < old(self).spec_extremas().len()
                && seq.spec_satisfies_restrictions(
                    #[trigger] old(self).spec_subcase_hints()[k], depth as int))
                ==> final(self).spec_default() == old(self).spec_default(),
            !(exists|k: int| 0 <= k < old(self).spec_extremas().len()
                && seq.spec_satisfies_restrictions(
                    #[trigger] old(self).spec_subcase_hints()[k], depth as int))
                ==> spec_env_updated(
                    old(self).spec_default(),
                    final(self).spec_default(),
                    seq.numerators@,
                    old(self).spec_coefs(),
                    depth as int,
                ),
            depth == old(self).spec_depth() ==> spec_results_extended(
                *old(self),
                *final(self),
                spec_single_seq(seq.numerators@),
            ),
            old(self).envelopes_below_denominator()
                ==> final(self).envelopes_below_denominator(),
    {
        let ghost coefs_view = self.spec_coefs();
        let n = self.subcase_hints.len();
        let mut any: bool = false;
        let mut k: usize = 0;
        while k < n
            invariant
                seq.wf(),
                self.wf(),
                seq.denominator == self.spec_denominator(),
                seq.numerators@.len() == self.spec_depth(),
                depth <= self.spec_depth(),
                n == self.subcase_hints@.len(),
                n == self.spec_extremas().len(),
                self.spec_subcase_hints() == old(self).spec_subcase_hints(),
                self.spec_coefs() == old(self).spec_coefs(),
                coefs_view == self.spec_coefs(),
                self.spec_default() == old(self).spec_default(),
                self.spec_denominator() == old(self).spec_denominator(),
                self.spec_depth() == old(self).spec_depth(),
                self.spec_extremas().len() == old(self).spec_extremas().len(),
                0 <= k <= n,
                any == exists|t: int| 0 <= t < k
                    && seq.spec_satisfies_restrictions(
                        #[trigger] old(self).spec_subcase_hints()[t], depth as int),
                forall|t: int| k <= t < n
                    ==> #[trigger] self.spec_extremas()[t] == old(self).spec_extremas()[t],
                forall|t: int| 0 <= t < k
                    ==> if seq.spec_satisfies_restrictions(
                        old(self).spec_subcase_hints()[t], depth as int) {
                        spec_env_updated(
                            old(self).spec_extremas()[t],
                            #[trigger] self.spec_extremas()[t],
                            seq.numerators@,
                            old(self).spec_coefs(),
                            depth as int,
                        )
                    } else {
                        self.spec_extremas()[t] == old(self).spec_extremas()[t]
                    },
            decreases n - k,
        {
            let ghost pre = *self;
            if seq.satisfies_restrictions(&self.subcase_hints[k], depth) {
                let e = &mut self.subcase_extrema[k];
                e.include_seq(seq, &self.sum_lower_bound_coefs, depth);
                any = true;
                proof {
                    assert(seq.spec_satisfies_restrictions(
                        old(self).spec_subcase_hints()[k as int], depth as int));
                    assert(forall|t: int| 0 <= t < n && t != k as int
                        ==> #[trigger] self.spec_extremas()[t] == pre.spec_extremas()[t]);
                    assert(spec_env_updated(
                        pre.spec_extremas()[k as int],
                        self.spec_extremas()[k as int],
                        seq.numerators@,
                        coefs_view,
                        depth as int,
                    ));
                }
            } else {
                proof {
                    assert(!seq.spec_satisfies_restrictions(
                        old(self).spec_subcase_hints()[k as int], depth as int));
                }
            }
            k = k + 1;
        }
        if !any {
            let e = &mut self.default_subcase;
            e.include_seq(seq, &self.sum_lower_bound_coefs, depth);
        }
        proof {
            let s0 = seq.numerators@;
            let nsub = old(self).spec_extremas().len() as int;
            if depth == old(self).spec_depth() {
                let one = spec_single_seq(s0);
                assert(one(s0));
                assert forall|k: int| 0 <= k < nsub implies spec_env_extended(
                    old(self).spec_extremas()[k],
                    #[trigger] self.spec_extremas()[k],
                    old(self).spec_depth(),
                    old(self).spec_coefs(),
                    spec_added_routed(*old(self), one, k),
                ) by {
                    if seq.spec_satisfies_restrictions(
                        old(self).spec_subcase_hints()[k], depth as int) {
                        assert(spec_routed_to(*old(self), s0, k));
                        assert forall|s: Seq<u128>|
                            (#[trigger] spec_added_routed(*old(self), one, k)(s))
                                <==> s == s0 by {
                        }
                        lemma_env_updated_is_extended(
                            old(self).spec_extremas()[k],
                            self.spec_extremas()[k],
                            s0,
                            old(self).spec_depth(),
                            old(self).spec_coefs(),
                            spec_added_routed(*old(self), one, k),
                        );
                    } else {
                        assert(!spec_routed_to(*old(self), s0, k));
                        assert forall|s: Seq<u128>|
                            !(#[trigger] spec_added_routed(*old(self), one, k)(s)) by {
                            if s == s0 {
                                assert(!spec_routed_to(*old(self), s, k));
                            }
                        }
                        lemma_env_extended_refl(
                            old(self).spec_extremas()[k],
                            old(self).spec_depth(),
                            old(self).spec_coefs(),
                            spec_added_routed(*old(self), one, k),
                        );
                    }
                }
                if any {
                    let t = choose|t: int| 0 <= t < nsub && seq.spec_satisfies_restrictions(
                        #[trigger] old(self).spec_subcase_hints()[t], depth as int);
                    assert(spec_routed_to(*old(self), s0, t));
                    assert(spec_routed_somewhere(*old(self), s0));
                    assert forall|s: Seq<u128>|
                        !(#[trigger] spec_added_default(*old(self), one)(s)) by {
                        if s == s0 {
                            assert(spec_routed_somewhere(*old(self), s));
                        }
                    }
                    lemma_env_extended_refl(
                        old(self).spec_default(),
                        old(self).spec_depth(),
                        old(self).spec_coefs(),
                        spec_added_default(*old(self), one),
                    );
                } else {
                    assert(!spec_routed_somewhere(*old(self), s0)) by {
                        if spec_routed_somewhere(*old(self), s0) {
                            let t = choose|t: int| 0 <= t < old(self).spec_subcase_hints().len()
                                && spec_routed_to(*old(self), s0, t);
                            assert(seq.spec_satisfies_restrictions(
                                old(self).spec_subcase_hints()[t], depth as int));
                        }
                    }
                    assert forall|s: Seq<u128>|
                        (#[trigger] spec_added_default(*old(self), one)(s)) <==> s == s0 by {
                    }
                    lemma_env_updated_is_extended(
                        old(self).spec_default(),
                        self.spec_default(),
                        s0,
                        old(self).spec_depth(),
                        old(self).spec_coefs(),
                        spec_added_default(*old(self), one),
                    );
                }
            }
            if old(self).envelopes_below_denominator() {
                assert forall|i: int| 0 <= i < self.spec_depth()
                    implies #[trigger] self.spec_default().spec_max()[i]
                        < self.spec_denominator() by {
                    if !any {
                        assert(self.spec_default().spec_max()[i] == if s0[i]
                            > old(self).spec_default().spec_max()[i] {
                            s0[i]
                        } else {
                            old(self).spec_default().spec_max()[i]
                        });
                    }
                }
                assert forall|k: int, i: int|
                    0 <= k < self.spec_extremas().len() && 0 <= i < self.spec_depth()
                    implies #[trigger] self.spec_extremas()[k].spec_max()[i]
                        < self.spec_denominator() by {
                    if seq.spec_satisfies_restrictions(
                        old(self).spec_subcase_hints()[k], depth as int) {
                        assert(self.spec_extremas()[k].spec_max()[i] == if s0[i]
                            > old(self).spec_extremas()[k].spec_max()[i] {
                            s0[i]
                        } else {
                            old(self).spec_extremas()[k].spec_max()[i]
                        });
                    } else {
                        assert(self.spec_extremas()[k] == old(self).spec_extremas()[k]);
                    }
                }
            }
        }
    }

    /// The largest per-index delta over the default envelope and every
    /// subcase envelope, for indices below `depth`.
    pub open spec fn spec_results_max_delta(self, target: int, depth: int, k: int) -> int
        decreases k,
    {
        if k <= 0 {
            self.spec_default().spec_max_delta(target, depth)
        } else {
            let rest = self.spec_results_max_delta(target, depth, k - 1);
            let here = self.spec_extremas()[k - 1].spec_max_delta(target, depth);
            if here > rest {
                here
            } else {
                rest
            }
        }
    }

    /// The largest distance, over every envelope and index, to the
    /// nearest canonical target, as a numerator over
    /// `denominator * SCALE`.
    pub fn get_max_delta(&self, target: i64, depth: usize) -> (r: i128)
        requires
            self.wf(),
            depth <= self.spec_depth(),
            0 <= target <= SCALE,
        ensures
            r == self.spec_results_max_delta(
                target as int, depth as int, self.spec_extremas().len() as int),
            0 <= r <= 4_000_000_000_000_000_000i128,
    {
        let mut max_delta: i128 = self.default_subcase.get_max_delta(target, depth);
        let n = self.subcase_extrema.len();
        let mut k: usize = 0;
        while k < n
            invariant
                self.wf(),
                depth <= self.spec_depth(),
                0 <= target <= SCALE,
                n == self.spec_extremas().len(),
                0 <= k <= n,
                max_delta == self.spec_results_max_delta(target as int, depth as int, k as int),
                0 <= max_delta <= 4_000_000_000_000_000_000i128,
            decreases n - k,
        {
            let here = self.subcase_extrema[k].get_max_delta(target, depth);
            if here > max_delta {
                max_delta = here;
            }
            k = k + 1;
        }
        max_delta
    }

    /// The running minimum of the weighted sum with list index `j`, over
    /// the default envelope and the first `k` subcase envelopes.
    pub open spec fn spec_results_sum_bound(self, j: int, k: int) -> Option<i128>
        decreases k,
    {
        if k <= 0 {
            self.spec_default().spec_sums()[j]
        } else {
            spec_merge_opt(
                self.spec_results_sum_bound(j, k - 1),
                self.spec_extremas()[k - 1].spec_sums()[j],
            )
        }
    }

    /// The smallest weighted-sum value observed for the given coefficient
    /// list across all envelopes, as a numerator over the denominator;
    /// absent while no sequence has covered the list.  The list must be
    /// one of the declared weighted-sum hypotheses' lists.
    pub fn get_sum_lower_bound(&self, coefs: &Vec<i32>) -> (r: Option<i128>)
        requires
            self.wf(),
            exists|j: int| 0 <= j < self.spec_coefs().len()
                && #[trigger] self.spec_coefs()[j] == coefs@,
        ensures
            ({
                let j = spec_find_coefs(self.spec_coefs(), coefs@, 0);
                r == self.spec_results_sum_bound(j, self.spec_extremas().len() as int)
            }),
            coefs@.len() > self.spec_depth() ==> r is None,
    {
        proof {
            lemma_find_coefs_range(self.spec_coefs(), coefs@, 0);
        }
        let m = self.sum_lower_bound_coefs.len();
        let mut index: usize = 0;
        let mut found: bool = false;
        let mut i: usize = 0;
        while i < m
            invariant
                self.wf(),
                m == self.spec_coefs().len(),
                0 <= i <= m,
                !found ==> forall|t: int| 0 <= t < i
                    ==> #[trigger] self.spec_coefs()[t] != coefs@,
                found ==> index < m && spec_find_coefs(self.spec_coefs(), coefs@, 0)
                    == index as int,
            decreases m - i,
        {
            if !found {
                if vec_i32_eq(&self.sum_lower_bound_coefs[i], coefs) {
                    proof {
                        lemma_find_coefs_prefix(self.spec_coefs(), coefs@, i as int);
                    }
                    index = i;
                    found = true;
                }
            }
            i = i + 1;
        }
        proof {
            if !found {
                lemma_find_coefs_none(self.spec_coefs(), coefs@);
                assert(false);
            }
        }
        let mut best: Option<i128> = self.default_subcase.get_sum_lower_bound(index);
        let n = self.subcase_extrema.len();
        let mut k: usize = 0;
        while k < n
            invariant
                self.wf(),
                index < self.spec_coefs().len(),
                n == self.spec_extremas().len(),
                0 <= k <= n,
                best == self.spec_results_sum_bound(index as int, k as int),
            decreases n - k,
        {
            let other = self.subcase_extrema[k].get_sum_lower_bound(index);
            best = match (best, other) {
                (Some(x), Some(y)) => if x <= y {
                    Some(x)
                } else {
                    Some(y)
                },
                (Some(x), None) => Some(x),
                (None, Some(y)) => Some(y),
                (None, None) => None,
            };
            k = k + 1;
        }
        proof {
            if coefs@.len() > self.spec_depth() {
                lemma_sum_bound_none(*self, index as int, n as int);
            }
        }
        best
    }

    /// Whether every envelope is still empty: no sequence at all survived
    /// the search, in any subcase.
    pub open spec fn spec_is_contradiction(self, k: int) -> bool
        decreases k,
    {
        if k <= 0 {
            self.spec_default().spec_is_contradiction()
        } else {
            self.spec_is_contradiction(k - 1)
                && self.spec_extremas()[k - 1].spec_is_contradiction()
        }
    }

    /// Whether the whole run resolved by contradiction: the default
    /// envelope and every subcase envelope are empty.
    pub fn is_contradiction(&self) -> (r: bool)
        requires
            self.wf(),
        ensures
            r == self.spec_is_contradiction(self.spec_extremas().len() as int),
    {
        let mut r = self.default_subcase.is_contradiction();
        let n = self.subcase_extrema.len();
        let mut k: usize = 0;
        while k < n
            invariant
                self.wf(),
                n == self.spec_extremas().len(),
                0 <= k <= n,
                r == self.spec_is_contradiction(k as int),
            decreases n - k,
        {
            if !self.subcase_extrema[k].is_contradiction() {
                r = false;
            }
            k = k + 1;
        }
        r
    }
}

/// All weighted-sum slots for list `j` are empty when the list is longer
/// than the search depth, so the merged minimum is absent.
proof fn lemma_sum_bound_none(r: Results, j: int, k: int)
    requires
        r.wf(),
        0 <= j < r.spec_coefs().len(),
        0 <= k <= r.spec_extremas().len(),
        r.spec_coefs()[j].len() > r.spec_depth(),
    ensures
        r.spec_results_sum_bound(j, k) is None,
    decreases k,
{
    if k > 0 {
        lemma_sum_bound_none(r, j, k - 1);
        assert(r.spec_extremas()[k - 1].spec_sums()[j] is None);
    } else {
        assert(r.spec_default().spec_sums()[j] is None);
    }
}

proof fn lemma_find_coefs_prefix(cs: Seq<Seq<i32>>, c: Seq<i32>, i: int)
    requires
        0 <= i < cs.len(),
        cs[i] == c,
        forall|t: int| 0 <= t < i ==> #[trigger] cs[t] != c,
    ensures
        spec_find_coefs(cs, c, 0) == i,
{
    lemma_find_coefs_step(cs, c, 0, i);
}

proof fn lemma_find_coefs_step(cs: Seq<Seq<i32>>, c: Seq<i32>, s: int, i: int)
    requires
        0 <= s <= i < cs.len(),
        cs[i] == c,
        forall|t: int| s <= t < i ==> #[trigger] cs[t] != c,
    ensures
        spec_find_coefs(cs, c, s) == i,
    decreases i - s,
{
    if s < i {
        lemma_find_coefs_step(cs, c, s + 1, i);
    }
}

proof fn lemma_find_coefs_none(cs: Seq<Seq<i32>>, c: Seq<i32>)
    requires
        forall|t: int| 0 <= t < cs.len() ==> #[trigger] cs[t] != c,
    ensures
        spec_find_coefs(cs, c, 0) == -1,
{
    lemma_find_coefs_none_step(cs, c, 0);
}

proof fn lemma_find_coefs_none_step(cs: Seq<Seq<i32>>, c: Seq<i32>, s: int)
    requires
        0 <= s <= cs.len(),
        forall|t: int| s <= t < cs.len() ==> #[trigger] cs[t] != c,
    ensures
        spec_find_coefs(cs, c, s) == -1,
    decreases cs.len() - s,
{
    if s < cs.len() {
        lemma_find_coefs_none_step(cs, c, s + 1);
    }
}

fn copy_vec_i32(v: &Vec<i32>) -> (r: Vec<i32>)
    ensures
        r@ == v@,
{
    let mut out: Vec<i32> = Vec::new();
    let mut i: usize = 0;
    let n = v.len();
    while i < n
        invariant
            0 <= i <= n,
            n == v@.len(),
            out@ == v@.take(i as int),
        decreases n - i,
    {
        out.push(v[i]);
        proof {
            assert(out@ =~= v@.take(i as int + 1));
        }
        i = i + 1;
    }
    proof {
        assert(v@.take(n as int) =~= v@);
    }
    out
}

fn copy_restrictions(v: &Vec<Restriction>) -> (r: Vec<Restriction>)
    ensures
        r@ == v@,
{
    let mut out: Vec<Restriction> = Vec::new();
    let mut i: usize = 0;
    let n = v.len();
    while i < n
        invariant
            0 <= i <= n,
            n == v@.len(),
            out@ == v@.take(i as int),
        decreases n - i,
    {
        out.push(v[i]);
        proof {
            assert(out@ =~= v@.take(i as int + 1));
        }
        i = i + 1;
    }
    proof {
        assert(v@.take(n as int) =~= v@);
    }
    out
}

fn vec_i32_eq(a: &Vec<i32>, b: &Vec<i32>) -> (r: bool)
    ensures
        r == (a@ == b@),
{
    let n = a.len();
    if n != b.len() {
        proof {
            assert(a@.len() != b@.len());
        }
        return false;
    }
    let mut i: usize = 0;
    while i < n
        invariant
            n == a@.len(),
            n == b@.len(),
            0 <= i <= n,
            forall|j: int| 0 <= j < i ==> #[trigger] a@[j] == b@[j],
        decreases n - i,
    {
        if a[i] != b[i] {
            return false;
        }
        i = i + 1;
    }
    proof {
        assert(a@ =~= b@);
    }
    true
}


impl Results {
    /// The verdict on one declared hypothesis, from the accumulated
    /// results:
    /// - a delta bound is proved when the largest distance to the nearest
    ///   canonical target, plus the fixed error tolerance, stays within
    ///   the declared delta (all terms as numerators over
    ///   `denominator * SCALE`);
    /// - a weighted-sum lower bound is proved when a minimum was recorded
    ///   and it reaches the declared bound; an absent minimum (no
    ///   sequence ever covered the list) proves nothing;
    /// - a contradiction is proved when every envelope stayed empty.
    pub open spec fn spec_check_hypothesis(self, h: Hypothesis) -> bool {
        let d = self.spec_denominator();
        let nsub = self.spec_extremas().len() as int;
        match h {
            Hypothesis::DeltaBound(target, delta) => self.spec_results_max_delta(
                target as int, self.spec_depth(), nsub) + DELTA_ERROR * d <= delta * d,
            Hypothesis::SumLowerBound(coefs, bound) => {
                let j = spec_find_coefs(self.spec_coefs(), coefs@, 0);
                j >= 0 && match self.spec_results_sum_bound(j, nsub) {
                    Some(m) => m * SCALE >= bound * d,
                    None => false,
                }
            },
            Hypothesis::Contradiction => self.spec_is_contradiction(nsub),
        }
    }

    /// Decides one declared hypothesis from the accumulated results.
    pub fn check_hypothesis(&self, h: &Hypothesis) -> (r: bool)
        requires
            self.wf(),
            h.wf(),
            h matches Hypothesis::SumLowerBound(coefs, _) ==> exists|j: int|
                0 <= j < self.spec_coefs().len() && #[trigger] self.spec_coefs()[j] == coefs@,
        ensures
            r == self.spec_check_hypothesis(*h),
    {
        match h {
            Hypothesis::DeltaBound(target, delta) => {
                let depth = self.default_subcase.depth_len();
                let md = self.get_max_delta(*target, depth);
                let d = self.default_subcase.denominator_value() as i128;
                proof {
                    assert(0 <= (DELTA_ERROR as int) * d && (DELTA_ERROR as int) * d
                        <= 1_000_000_000_000_000_000int) by (nonlinear_arith)
                        requires 1 <= d as int <= 1_000_000
                            && (DELTA_ERROR as int) == 1_000_000int;
                    assert(0 <= (*delta as int) * d && (*delta as int) * d
                        <= 1_000_000_000_000_000_000_000_000int) by (nonlinear_arith)
                        requires 1 <= d as int <= 1_000_000
                            && 0 <= *delta as int <= 1_000_000_000_000_000int;
                }
                md + (DELTA_ERROR as i128) * d <= (*delta as i128) * d
            },
            Hypothesis::SumLowerBound(coefs, bound) => {
                match self.get_sum_lower_bound(coefs) {
                    Some(m) => {
                        let d = self.default_subcase.denominator_value() as i128;
                        proof {
                            lemma_find_coefs_range(self.spec_coefs(), coefs@, 0);
                            lemma_results_sum_in_range(
                                *self,
                                spec_find_coefs(self.spec_coefs(), coefs@, 0),
                                self.spec_extremas().len() as int,
                            );
                            assert(-200_000_000_000_000_000_000_000_000_000i128 <= m * SCALE
                                && m * SCALE <= 200_000_000_000_000_000_000_000_000_000i128)
                                by (nonlinear_arith)
                                requires
                                    -100_000_000_000_000_000i128 <= m as int
                                        && m as int <= 100_000_000_000_000_000i128
                                        && (SCALE as int) == 1_000_000_000_000int;
                            assert(-100_000_000_000_000_000_000_000_000i128 <= (*bound as i128) * d
                                && (*bound as i128) * d
                                    <= 100_000_000_000_000_000_000_000_000i128)
                                by (nonlinear_arith)
                                requires
                                    -10_000_000_000_000_000_000i128 <= *bound as int
                                        && *bound as int <= 10_000_000_000_000_000_000i128
                                        && 1 <= d as int && d as int <= 1_000_000;
                        }
                        m * (SCALE as i128) >= (*bound as i128) * d
                    },
                    None => false,
                }
            },
            Hypothesis::Contradiction => self.is_contradiction(),
        }
    }

    /// No envelope records a numerator at or above the denominator, so
    /// every envelope value lies inside the unit interval.
    pub open spec fn envelopes_below_denominator(self) -> bool {
        &&& forall|i: int| 0 <= i < self.spec_depth()
            ==> #[trigger] self.spec_default().spec_max()[i] < self.spec_denominator()
        &&& forall|k: int, i: int|
            0 <= k < self.spec_extremas().len() && 0 <= i < self.spec_depth()
                ==> #[trigger] self.spec_extremas()[k].spec_max()[i] < self.spec_denominator()
    }
}

impl Extrema {
    /// The minimum envelope numerator at `index`.
    pub fn min_numerator_at(&self, index: usize) -> (r: u128)
        requires
            index < self.spec_depth(),
        ensures
            r == self.spec_min()[index as int],
    {
        self.min_as[index]
    }

    /// The maximum envelope numerator at `index`.
    pub fn max_numerator_at(&self, index: usize) -> (r: u128)
        requires
            self.wf(),
            index < self.spec_depth(),
        ensures
            r == self.spec_max()[index as int],
    {
        self.max_as[index]
    }

    /// The envelope depth, as a machine integer.
    pub fn depth_len(&self) -> (r: usize)
        ensures
            r == self.spec_depth(),
    {
        self.min_as.len()
    }

    /// The shared denominator, as a machine integer.
    pub fn denominator_value(&self) -> (r: u128)
        ensures
            r == self.spec_denominator(),
    {
        self.denominator
    }
}

/// A recorded weighted-sum minimum always lies in the range the envelopes
/// keep, so the merged minimum does too.
proof fn lemma_results_sum_in_range(r: Results, j: int, k: int)
    requires
        r.wf(),
        0 <= j < r.spec_coefs().len(),
        0 <= k <= r.spec_extremas().len(),
    ensures
        r.spec_results_sum_bound(j, k) matches Some(m)
            ==> -100_000_000_000_000_000i128 <= m <= 100_000_000_000_000_000i128,
    decreases k,
{
    if k > 0 {
        lemma_results_sum_in_range(r, j, k - 1);
    }
}

/// With every envelope value inside the unit interval, the distance at
/// any index to the nearest of `{0, 1/2, 1}` is at most one half: the
/// target one half alone is within a half of both envelope edges.
proof fn lemma_half_delta_at(e: Extrema, i: int)
    requires
        e.wf(),
        1 <= e.spec_denominator() <= 1_000_000,
        0 <= i < e.spec_depth(),
        e.spec_max()[i] < e.spec_denominator(),
    ensures
        e.spec_delta_at(SCALE / 2, i) <= e.spec_denominator() * (SCALE / 2),
{
    let d = e.spec_denominator();
    let mn = e.spec_min()[i] * SCALE;
    let mx = (e.spec_max()[i] + 1) * SCALE;
    let t = (SCALE / 2) * d;
    assert(e.spec_min()[i] <= d);
    assert(e.spec_max()[i] + 1 <= d);
    assert(0 <= mn && mn <= d * SCALE) by (nonlinear_arith)
        requires mn == e.spec_min()[i] * SCALE && 0 <= e.spec_min()[i]
            && e.spec_min()[i] <= d && (SCALE as int) > 0;
    assert(0 <= mx && mx <= d * SCALE) by (nonlinear_arith)
        requires mx == (e.spec_max()[i] + 1) * SCALE && 0 <= e.spec_max()[i] + 1
            && e.spec_max()[i] + 1 <= d && (SCALE as int) > 0;
    assert(2 * t == d * SCALE) by (nonlinear_arith)
        requires t == (SCALE / 2) * d && 2 * (SCALE / 2) == SCALE;
    assert(spec_edge_delta(t, mn, mx) <= d * (SCALE / 2)) by {
        assert(abs(t - mn) <= t || abs(t - mn) <= d * SCALE - t);
        assert(abs(mx - t) <= t || abs(mx - t) <= d * SCALE - t);
        assert(d * (SCALE / 2) == t) by (nonlinear_arith)
            requires t == (SCALE / 2) * d;
    }
}

/// Over a whole envelope the maximum such distance stays at most one
/// half.
proof fn lemma_half_delta_env(e: Extrema, depth: int)
    requires
        e.wf(),
        1 <= e.spec_denominator() <= 1_000_000,
        0 <= depth <= e.spec_depth(),
        forall|i: int| 0 <= i < e.spec_depth()
            ==> #[trigger] e.spec_max()[i] < e.spec_denominator(),
    ensures
        e.spec_max_delta(SCALE / 2, depth) <= e.spec_denominator() * (SCALE / 2),
    decreases depth,
{
    assert(e.spec_denominator() * (SCALE / 2) >= 0) by (nonlinear_arith)
        requires e.spec_denominator() >= 1;
    if depth > 0 {
        lemma_half_delta_env(e, depth - 1);
        lemma_half_delta_at(e, depth - 1);
    }
}

/// A delta-bound hypothesis with target one half and delta one is always
/// proved, for any results whose envelopes lie inside the unit interval:
/// every value in `[0, 1]` is within one half of one of `{0, 1/2, 1}`.
pub proof fn lemma_half_delta_always_proved(r: Results)
    requires
        r.wf(),
        r.envelopes_below_denominator(),
    ensures
        r.spec_check_hypothesis(Hypothesis::DeltaBound((SCALE / 2) as i64, SCALE)),
{
    let d = r.spec_denominator();
    let n = r.spec_extremas().len() as int;
    lemma_half_delta_results(r, n);
    assert(r.spec_results_max_delta(SCALE / 2, r.spec_depth(), n) + DELTA_ERROR * d
        <= (SCALE as int) * d) by (nonlinear_arith)
        requires
            r.spec_results_max_delta(SCALE / 2, r.spec_depth(), n) <= d * ((SCALE as int) / 2)
                && 1 <= d && (SCALE as int) == 1_000_000_000_000int
                && (DELTA_ERROR as int) == 1_000_000int;
}

proof fn lemma_half_delta_results(r: Results, k: int)
    requires
        r.wf(),
        r.envelopes_below_denominator(),
        0 <= k <= r.spec_extremas().len(),
    ensures
        r.spec_results_max_delta(SCALE / 2, r.spec_depth(), k)
            <= r.spec_denominator() * (SCALE / 2),
    decreases k,
{
    if k == 0 {
        lemma_half_delta_env(r.spec_default(), r.spec_depth());
    } else {
        lemma_half_delta_results(r, k - 1);
        lemma_half_delta_env(r.spec_extremas()[k - 1], r.spec_depth());
    }
}

/// A weighted-sum hypothesis whose coefficient list is longer than the
/// search depth is never proved: no sequence can cover the list, so its
/// recorded minimum stays absent rather than zero.
pub proof fn lemma_long_sum_never_proved(r: Results, coefs: Seq<i32>, bound: i64, v: Vec<i32>)
    requires
        r.wf(),
        v@ == coefs,
        coefs.len() > r.spec_depth(),
    ensures
        !r.spec_check_hypothesis(Hypothesis::SumLowerBound(v, bound)),
{
    let j = spec_find_coefs(r.spec_coefs(), coefs, 0);
    lemma_find_coefs_range(r.spec_coefs(), coefs, 0);
    if j >= 0 {
        lemma_sum_bound_none(r, j, r.spec_extremas().len() as int);
    }
}


impl Results {
    /// How many declared subcases this accumulator tracks.
    pub fn num_subcases(&self) -> (r: usize)
        ensures
            r == self.spec_extremas().len(),
    {
        self.subcase_extrema.len()
    }

    /// The envelope of declared subcase `k`.
    pub fn subcase_extrema(&self, k: usize) -> (r: &Extrema)
        requires
            k < self.spec_extremas().len(),
        ensures
            *r == self.spec_extremas()[k as int],
    {
        &self.subcase_extrema[k]
    }

    /// The restrictions of declared subcase `k`.
    pub fn subcase_restrictions(&self, k: usize) -> (r: &Vec<Restriction>)
        requires
            self.wf(),
            k < self.spec_extremas().len(),
        ensures
            r@ == self.spec_subcase_hints()[k as int],
    {
        proof {
            assert(self.spec_subcase_hints()[k as int] == self.subcase_hints@[k as int]@);
        }
        &self.subcase_hints[k]
    }

    /// The envelope of the implicit default subcase.
    pub fn default_extrema(&self) -> (r: &Extrema)
        ensures
            *r == self.spec_default(),
    {
        &self.default_subcase
    }
}

/// What well-formedness guarantees about the accumulator's shape.
pub proof fn lemma_wf_shape(r: Results)
    requires
        r.wf(),
    ensures
        r.spec_subcase_hints().len() == r.spec_extremas().len(),
        1 <= r.spec_denominator() <= 1_000_000,
        1 <= r.spec_depth() <= 30,
        r.spec_default().wf(),
        forall|k: int| 0 <= k < r.spec_extremas().len() ==> {
            let e = #[trigger] r.spec_extremas()[k];
            e.wf() && e.spec_denominator() == r.spec_denominator()
                && e.spec_depth() == r.spec_depth()
        },
{
}

/// An envelope that exactly holds the empty set keeps its fresh seed, so
/// it is resolved by contradiction whenever the denominator is at least
/// two.
pub proof fn lemma_empty_env_contra(
    e: Extrema,
    d: int,
    depth: int,
    coefs: Seq<Seq<i32>>,
    added: spec_fn(Seq<u128>) -> bool,
)
    requires
        spec_env_exact(e, d, depth, coefs, added),
        forall|s: Seq<u128>| !(#[trigger] added(s)),
        e.spec_depth() >= 1,
        d >= 2,
    ensures
        e.spec_is_contradiction(),
{
    assert((e.spec_min()[0] as int == d) || (exists|s: Seq<u128>| #[trigger] added(s)
        && s[0] == e.spec_min()[0]));
    if !(e.spec_min()[0] as int == d) {
        let s = choose|s: Seq<u128>| #[trigger] added(s) && s[0] == e.spec_min()[0];
        assert(false);
    }
    if !(e.spec_max()[0] == 0u128) {
        let s = choose|s: Seq<u128>| #[trigger] added(s) && s[0] == e.spec_max()[0];
        assert(false);
    }
}

/// What belonging to a case guarantees about the accumulator's shape.
pub proof fn lemma_matches_case_facts(r: Results, case: Case)
    requires
        r.matches_case(case),
    ensures
        r.spec_denominator() == case.denominator,
        r.spec_depth() == case.max_depth,
        r.spec_subcase_hints() == case.subcases@.map_values(|v: Vec<Restriction>| v@),
        r.spec_subcase_hints().len() == case.subcases@.len(),
        forall|k: int| 0 <= k < case.subcases@.len()
            ==> r.spec_subcase_hints()[k] == (#[trigger] case.subcases@[k])@,
        r.spec_coefs() == spec_sum_coefs(case.hypotheses@),
{
}

/// Belonging to a case survives any update that keeps the accumulator's
/// shape.
pub proof fn lemma_matches_case_preserved(pre: Results, post: Results, case: Case)
    requires
        pre.matches_case(case),
        post.spec_subcase_hints() == pre.spec_subcase_hints(),
        post.spec_coefs() == pre.spec_coefs(),
        post.spec_denominator() == pre.spec_denominator(),
        post.spec_depth() == pre.spec_depth(),
    ensures
        post.matches_case(case),
{
}

} // verus!
