//! The dynamic-programming table of tail-probability lower bounds.
//!
//! Cell `[a][y]` lower-bounds `Pr[X >= t]` for any admissible normalized
//! Rademacher sum whose leading coefficient is at most
//! `(a + 1) / coef_gran`, where `t = (y - max_bound + 1) / thresh_gran`.
//! Values are probabilities in fixed-point units of `1 / SCALE`.
//!
//! The table is seeded from an analytic oracle (numeric integration of a
//! characteristic-function bound, which lives outside this library), has a
//! trivial symmetry floor of one half applied for non-positive thresholds,
//! and is then tightened by a fixed number of refinement sweeps.  Each
//! sweep reads the previous table only, and a cell never decreases.
//!
//! All lookups round conservatively: coefficient arguments round up to the
//! next bin, thresholds round up, and square roots of variances round in
//! the direction that weakens the requested bound.

use vstd::prelude::*;
use crate::fixed::{SCALE, Frac, spec_ceil_div, spec_isqrt, spec_isqrt_ceil, ceil_div, isqrt};

verus! {

/// Number of coefficient and threshold bins of the full-size table.
pub const N: usize = 2000;

/// Number of refinement sweeps of the full-size table build.
pub const D_ITERATIONS: usize = 1000;

/// The coefficient row that a fixed-point coefficient argument selects
/// in a table of `cg` rows: its ceiling bin, clamped into the table.
pub open spec fn spec_row_index_t(cg: int, af: int) -> int {
    let i = spec_ceil_div(af * cg, SCALE as int);
    if i < 0 {
        0
    } else if i >= cg {
        cg - 1
    } else {
        i
    }
}

/// The threshold column that a fixed-point cutoff argument selects under
/// granularity `tg` and offset `mb`: its ceiling bin shifted by `mb`,
/// clamped below at zero.
pub open spec fn spec_col_index_t(tg: int, mb: int, cf: int) -> int {
    let i = spec_ceil_div(cf * tg, SCALE as int) + mb;
    if i < 0 {
        0
    } else {
        i
    }
}

/// The raw lookup in a table of shape `(cg, tg, mb)` for a fixed-point
/// coefficient bound `af` and cutoff `cf`: the selected cell, or zero when
/// the cutoff falls past the last column.
pub open spec fn spec_table_value_t(
    tbl: Seq<Seq<i64>>,
    cg: int,
    tg: int,
    mb: int,
    af: int,
    cf: int,
) -> int {
    if spec_col_index_t(tg, mb, cf) >= 2 * mb {
        0
    } else {
        tbl[spec_row_index_t(cg, af)][spec_col_index_t(tg, mb, cf)] as int
    }
}

/// One refinement of cell `(a, y)`, reading table `tbl` only.  The cell's
/// threshold is `t = (y - mb + 1) / tg` and its coefficient bin covers
/// `a_1 <= (a + 1) / cg`.  Three lower bounds compete with the current
/// value, and the best wins:
/// - a trivial quarter whenever `t` cannot exceed the bin's smallest
///   leading coefficient (positive leading sign and a positive remainder
///   each cost at most a factor two);
/// - the average of two lookups against the sub-problem with the leading
///   coefficient eliminated, rescaled by the residual standard deviation
///   `sqrt(1 - ((a + 1) / cg)^2)` with reflected thresholds for the two
///   leading signs (unavailable in the last bin, which contains `a_1 = 1`);
/// - the value one coefficient bin below, since a smaller cap can only
///   raise the probability (monotonicity).
pub open spec fn spec_refined_cell_t(
    tbl: Seq<Seq<i64>>,
    cg: int,
    tg: int,
    mb: int,
    a: int,
    y: int,
) -> int {
    let s = SCALE as int;
    let tn = y - mb + 1;
    let base = if tn * cg <= a * tg {
        s / 4
    } else {
        0
    };
    let cand0 = if a + 1 < cg {
        let w = spec_isqrt(cg * cg - (a + 1) * (a + 1));
        let af = spec_ceil_div((a + 1) * s, w);
        let cf1 = spec_ceil_div((tn * cg - a * tg) * s, tg * w);
        let cf2 = spec_ceil_div((tn * cg + (a + 1) * tg) * s, tg * w);
        let avg = (spec_table_value_t(tbl, cg, tg, mb, af, cf1)
            + spec_table_value_t(tbl, cg, tg, mb, af, cf2)) / 2;
        if avg > base {
            avg
        } else {
            base
        }
    } else {
        base
    };
    let cand = if a > 0 && tbl[a - 1][y] < cand0 {
        tbl[a - 1][y] as int
    } else {
        cand0
    };
    if cand > tbl[a][y] {
        cand
    } else {
        tbl[a][y] as int
    }
}

/// One full refinement sweep: every cell refined against the given table.
pub open spec fn spec_pass_table(tbl: Seq<Seq<i64>>, cg: int, tg: int, mb: int) -> Seq<Seq<i64>> {
    Seq::new(
        tbl.len(),
        |a: int|
            Seq::new(
                tbl[a].len(),
                |y: int| spec_refined_cell_t(tbl, cg, tg, mb, a, y) as i64,
            ),
    )
}

/// `n` refinement sweeps in sequence.
pub open spec fn spec_iter_table(
    tbl: Seq<Seq<i64>>,
    cg: int,
    tg: int,
    mb: int,
    n: nat,
) -> Seq<Seq<i64>>
    decreases n,
{
    if n == 0 {
        tbl
    } else {
        spec_pass_table(spec_iter_table(tbl, cg, tg, mb, (n - 1) as nat), cg, tg, mb)
    }
}

/// A valid table for shape `(cg, tg, mb)`: one row per coefficient bin,
/// `2 * mb` columns per row, every value a probability in `[0, SCALE]`,
/// and shape parameters of moderate size so that index arithmetic cannot
/// overflow.
pub open spec fn spec_table_ok(tbl: Seq<Seq<i64>>, cg: int, tg: int, mb: int) -> bool {
    &&& 1 <= cg <= 100_000
    &&& 1 <= tg <= 100_000
    &&& 1 <= mb <= 300_000
    &&& tbl.len() == cg
    &&& forall|a: int| 0 <= a < tbl.len() ==> (#[trigger] tbl[a]).len() == 2 * mb
    &&& forall|a: int, y: int|
        0 <= a < tbl.len() && 0 <= y < tbl[a].len() ==> 0 <= #[trigger] tbl[a][y] <= SCALE
}

/// The DP table with its three shape parameters.
pub struct Bounder {
    bounds: Vec<Vec<i64>>,
    coef_gran: usize,
    thresh_gran: usize,
    max_bound: usize,
}

impl Bounder {
    /// The table's rows as mathematical sequences.
    pub closed spec fn table(self) -> Seq<Seq<i64>> {
        self.bounds@.map_values(|row: Vec<i64>| row@)
    }

    pub closed spec fn spec_coef_gran(self) -> int {
        self.coef_gran as int
    }

    pub closed spec fn spec_thresh_gran(self) -> int {
        self.thresh_gran as int
    }

    pub closed spec fn spec_max_bound(self) -> int {
        self.max_bound as int
    }

    /// The stored table is valid for the stored shape.
    pub closed spec fn wf(self) -> bool {
        spec_table_ok(
            self.table(),
            self.spec_coef_gran(),
            self.spec_thresh_gran(),
            self.spec_max_bound(),
        )
    }

    /// The stored value at a pair of bin indices.
    pub closed spec fn cell(self, a: int, y: int) -> int {
        self.table()[a][y] as int
    }

    /// The raw table lookup for fixed-point arguments.
    pub closed spec fn spec_table_value(self, af: int, cf: int) -> int {
        spec_table_value_t(
            self.table(),
            self.spec_coef_gran(),
            self.spec_thresh_gran(),
            self.spec_max_bound(),
            af,
            cf,
        )
    }

    /// The full lookup: the raw table value, improved by the Bernstein
    /// bound for cutoffs below minus three.
    pub closed spec fn spec_get(self, af: int, cf: int) -> int {
        let d = self.spec_table_value(af, cf);
        if cf < -3 * (SCALE as int) {
            let b = spec_bernstein(af, cf);
            if b > d {
                b
            } else {
                d
            }
        } else {
            d
        }
    }

    /// Raw table lookup on fixed-point arguments.
    fn lookup_fixed(&self, af: i128, cf: i128) -> (r: i64)
        requires
            self.wf(),
            -0x10_0000_0000_0000_0000_0000_0000i128 <= af
                <= 0x10_0000_0000_0000_0000_0000_0000i128,
            -0x10_0000_0000_0000_0000_0000_0000i128 <= cf
                <= 0x10_0000_0000_0000_0000_0000_0000i128,
        ensures
            r == self.spec_table_value(af as int, cf as int),
            0 <= r <= SCALE,
    {
        proof {
            lemma_mul_cap(af as int, self.coef_gran as int);
            lemma_mul_cap(cf as int, self.thresh_gran as int);
        }
        let ia = ceil_div(af * (self.coef_gran as i128), SCALE as i128);
        let row: usize = if ia < 0 {
            0
        } else if ia >= self.coef_gran as i128 {
            self.coef_gran - 1
        } else {
            ia as usize
        };
        let ic = ceil_div(cf * (self.thresh_gran as i128), SCALE as i128)
            + (self.max_bound as i128);
        let col0: i128 = if ic < 0 {
            0
        } else {
            ic
        };
        if col0 >= 2 * (self.max_bound as i128) {
            0
        } else {
            let col = col0 as usize;
            proof {
                assert(self.table()[row as int] == self.bounds@[row as int]@);
                assert(self.table()[row as int].len() == 2 * self.spec_max_bound());
            }
            self.bounds[row][col]
        }
    }
}

/// Saturation cap for the exponential series terms.  With arguments below
/// `28` the true terms never reach it, so the cap only serves to bound the
/// arithmetic; saturating downward keeps the sum a lower bound.
pub const EXP_TERM_CAP: u128 = 2_000_000_000_000_000_000_000_000;

/// Term `j` of the series for `exp(z / SCALE)`, in units of `1 / SCALE`:
/// term 0 is one, and each term multiplies the previous one by `z / j`,
/// rounding down and saturating at `EXP_TERM_CAP`.
pub open spec fn spec_exp_term(z: int, j: nat) -> int
    decreases j,
{
    if j == 0 {
        SCALE as int
    } else {
        let t = spec_exp_term(z, (j - 1) as nat) * z / ((SCALE as int) * j);
        if t > EXP_TERM_CAP {
            EXP_TERM_CAP as int
        } else {
            t
        }
    }
}

/// Partial sum of the first `j + 1` series terms: a lower bound of
/// `exp(z / SCALE)` in units of `1 / SCALE`, since every term is rounded
/// down and the true series has only non-negative terms.
pub open spec fn spec_exp_sum(z: int, j: nat) -> int
    decreases j,
{
    if j == 0 {
        spec_exp_term(z, 0)
    } else {
        spec_exp_sum(z, (j - 1) as nat) + spec_exp_term(z, j)
    }
}

proof fn lemma_exp_term_range(z: int, j: nat)
    requires
        z >= 0,
    ensures
        0 <= spec_exp_term(z, j) <= EXP_TERM_CAP,
    decreases j,
{
    if j > 0 {
        lemma_exp_term_range(z, (j - 1) as nat);
        assert(spec_exp_term(z, (j - 1) as nat) * z >= 0) by (nonlinear_arith)
            requires spec_exp_term(z, (j - 1) as nat) >= 0 && z >= 0;
        assert((SCALE as int) * j >= 1) by (nonlinear_arith)
            requires j >= 1 && (SCALE as int) >= 1;
        vstd::arithmetic::div_mod::lemma_div_is_ordered(
            0, spec_exp_term(z, (j - 1) as nat) * z, (SCALE as int) * j);
    }
}

proof fn lemma_exp_sum_range(z: int, j: nat)
    requires
        z >= 0,
    ensures
        SCALE <= spec_exp_sum(z, j) <= (j + 1) * (EXP_TERM_CAP as int),
    decreases j,
{
    lemma_exp_term_range(z, j);
    if j == 0 {
    } else {
        lemma_exp_sum_range(z, (j - 1) as nat);
        assert((j + 1) * (EXP_TERM_CAP as int)
            == j * (EXP_TERM_CAP as int) + EXP_TERM_CAP) by (nonlinear_arith);
    }
}

/// The truncated-series lower bound of `exp(z / SCALE)`, sixty terms.
fn exp_lower(z: u128) -> (r: u128)
    requires
        z <= 30_000_000_000_000u128,
    ensures
        r == spec_exp_sum(z as int, 60),
        SCALE <= r <= 122_000_000_000_000_000_000_000_000u128,
{
    let mut term: u128 = SCALE as u128;
    let mut sum: u128 = SCALE as u128;
    let mut j: usize = 1;
    proof {
        lemma_exp_sum_range(z as int, 60);
    }
    while j <= 60
        invariant
            z <= 30_000_000_000_000u128,
            1 <= j <= 61,
            term == spec_exp_term(z as int, (j - 1) as nat),
            0 <= term <= EXP_TERM_CAP,
            sum == spec_exp_sum(z as int, (j - 1) as nat),
            sum <= (j as int) * (EXP_TERM_CAP as int),
        decreases 61 - j,
    {
        proof {
            lemma_exp_term_range(z as int, (j - 1) as nat);
            lemma_exp_term_range(z as int, j as nat);
            assert(term * z <= EXP_TERM_CAP * 30_000_000_000_000u128) by (nonlinear_arith)
                requires 0 <= term <= EXP_TERM_CAP && 0 <= z as int <= 30_000_000_000_000int;
            assert(1 <= (SCALE as u128) * (j as u128)
                && (SCALE as u128) * (j as u128) <= 61_000_000_000_000u128) by (nonlinear_arith)
                requires 1 <= j as int <= 61 && (SCALE as int) == 1_000_000_000_000int;
            assert((j + 1) * (EXP_TERM_CAP as int)
                == j * (EXP_TERM_CAP as int) + EXP_TERM_CAP) by (nonlinear_arith);
        }
        let raw = term * z / ((SCALE as u128) * (j as u128));
        term = if raw > EXP_TERM_CAP {
            EXP_TERM_CAP
        } else {
            raw
        };
        sum = sum + term;
        j = j + 1;
    }
    proof {
        lemma_exp_sum_range(z as int, 60);
    }
    sum
}

/// The Bernstein tail bound for a fixed-point coefficient cap `af` and a
/// negative fixed-point cutoff `cf`: a fixed-point lower bound of
/// `1 - exp(-t^2 / (2 * (1 - a * t / 3)))` at `t = max(cf, -30)`.
/// Every rounding goes downward, and cutoffs below `-30` fall back to the
/// bound at `-30`, so the result never overstates the true bound.
pub open spec fn spec_bernstein(af: int, cf: int) -> int {
    let s = SCALE as int;
    let t = if cf < -30 * s {
        -30 * s
    } else {
        cf
    };
    let divisor = 3 * s + spec_ceil_div(-(af * t), s);
    let z = 3 * t * t / (2 * divisor);
    if z >= 28 * s {
        s - 1
    } else {
        s - spec_ceil_div(s * s, spec_exp_sum(z, 60))
    }
}

/// Computes the Bernstein bound on fixed-point arguments.
fn bernstein_fixed(af: i128, cf: i128) -> (r: i64)
    requires
        0 <= af <= 4_000_000_000_000_000_000_000_000i128,
        -4_000_000_000_000_000_000_000_000i128 <= cf,
        cf <= -3 * (SCALE as i128),
    ensures
        r == spec_bernstein(af as int, cf as int),
        0 <= r < SCALE,
{
    let s128 = SCALE as i128;
    let t: i128 = if cf < -30 * s128 {
        -30 * s128
    } else {
        cf
    };
    proof {
        assert(af * t >= -130_000_000_000_000_000_000_000_000_000_000_000_000int
            && af * t <= 0) by (nonlinear_arith)
            requires
                0 <= af as int <= 4_000_000_000_000_000_000_000_000int
                    && -30_000_000_000_000int <= t as int <= 0;
    }
    let q = ceil_div(-(af * t), s128);
    let divisor = 3 * s128 + q;
    proof {
        vstd::arithmetic::div_mod::lemma_fundamental_div_mod(-(af as int * t as int), SCALE as int);
        vstd::arithmetic::div_mod::lemma_mod_bound(-(af as int * t as int), SCALE as int);
        crate::fixed::lemma_ceil_div_bounds(-(af as int * t as int), SCALE as int);
        assert(q >= 0);
        assert(3 * (t as int) * (t as int) >= 0
            && 3 * (t as int) * (t as int) <= 2_700_000_000_000_000_000_000_000_000int)
            by (nonlinear_arith)
            requires -30_000_000_000_000int <= t as int <= 0;
    }
    proof {
        assert(0 <= t * t && t * t <= 900_000_000_000_000_000_000_000_000int)
            by (nonlinear_arith)
            requires -30_000_000_000_000int <= t as int <= 0;
    }
    let tt = (t * t) as u128;
    let zu = 3 * tt / (2 * (divisor as u128));
    proof {
        vstd::arithmetic::div_mod::lemma_div_is_ordered(
            0, 3 * (t as int) * (t as int), 2 * divisor as int);
        assert(tt == (t as int) * (t as int));
        assert(3 * (t as int) * (t as int) == 3 * ((t as int) * (t as int)))
            by (nonlinear_arith);
    }
    if zu >= 28 * (SCALE as u128) {
        SCALE - 1
    } else {
        let e = exp_lower(zu);
        let s_u = SCALE as u128;
        let eneg = (s_u * s_u + e - 1) / e;
        proof {
            let p = (s_u * s_u) as int;
            let c = spec_ceil_div(p, e as int);
            vstd::arithmetic::div_mod::lemma_fundamental_div_mod((p + e - 1) as int, e as int);
            vstd::arithmetic::div_mod::lemma_mod_bound((p + e - 1) as int, e as int);
            crate::fixed::lemma_ceil_div_bounds(p, e as int);
            assert(eneg == c);
            assert(c >= 1 && c <= SCALE) by {
                crate::fixed::lemma_ceil_div_bounds(p, e as int);
                assert((e as int) * (SCALE as int) >= p) by (nonlinear_arith)
                    requires e as int >= SCALE as int
                        && p == (SCALE as int) * (SCALE as int);
                if c > SCALE {
                    assert((e as int) * (c - 1) >= (e as int) * (SCALE as int))
                        by (nonlinear_arith)
                        requires e as int >= 0 && c - 1 >= SCALE as int;
                }
                if c < 1 {
                    assert((e as int) * c <= 0) by (nonlinear_arith)
                        requires e as int >= 0 && c <= 0;
                }
            }
        }
        SCALE - (eneg as i64)
    }
}

/// The product of a capped factor with a small positive one stays far
/// inside the 128-bit range.
proof fn lemma_mul_cap(x: int, g: int)
    requires
        -0x10_0000_0000_0000_0000_0000_0000 <= x <= 0x10_0000_0000_0000_0000_0000_0000,
        1 <= g <= 100_000,
    ensures
        -0x2000_0000_0000_0000_0000_0000_0000_0000 <= x * g
            <= 0x2000_0000_0000_0000_0000_0000_0000_0000,
{
    assert(-0x2000_0000_0000_0000_0000_0000_0000_0000 <= x * g
        <= 0x2000_0000_0000_0000_0000_0000_0000_0000) by (nonlinear_arith)
        requires
            -0x10_0000_0000_0000_0000_0000_0000 <= x <= 0x10_0000_0000_0000_0000_0000_0000
                && 1 <= g <= 100_000;
}


impl Bounder {
    /// Our best lower bound on `Pr[X > cutoff]` for a normalized sum with
    /// leading coefficient at most `a`, both arguments in fixed point: the
    /// table lookup, improved by the Bernstein bound in the extreme left
    /// tail.
    pub fn get(&self, a: i64, cutoff: i64) -> (r: i64)
        requires
            self.wf(),
            a >= 0,
        ensures
            r == self.spec_get(a as int, cutoff as int),
            0 <= r <= SCALE,
    {
        let d = self.lookup_fixed(a as i128, cutoff as i128);
        if cutoff < -3 * SCALE {
            let b = bernstein_fixed(a as i128, cutoff as i128);
            if b > d {
                b
            } else {
                d
            }
        } else {
            d
        }
    }

    /// The lookup of `get` on wide fixed-point arguments.
    fn get_fixed(&self, af: i128, cf: i128) -> (r: i64)
        requires
            self.wf(),
            0 <= af <= 4_000_000_000_000_000_000_000_000i128,
            -4_000_000_000_000_000_000_000_000i128 <= cf
                <= 4_000_000_000_000_000_000_000_000i128,
        ensures
            r == self.spec_get(af as int, cf as int),
            0 <= r <= SCALE,
    {
        let d = self.lookup_fixed(af, cf);
        if cf < -3_000_000_000_000i128 {
            let b = bernstein_fixed(af, cf);
            if b > d {
                b
            } else {
                d
            }
        } else {
            d
        }
    }

    /// Wraps a finished table with its shape parameters, after checking
    /// that the shape and every value are valid.
    pub fn new_manual(
        bounds: Vec<Vec<i64>>,
        coef_gran: usize,
        thresh_gran: usize,
        max_bound: usize,
    ) -> (r: Option<Bounder>)
        ensures
            ({
                let tbl = bounds@.map_values(|row: Vec<i64>| row@);
                match r {
                    Some(b) => {
                        &&& spec_table_ok(tbl, coef_gran as int, thresh_gran as int,
                            max_bound as int)
                        &&& b.wf()
                        &&& b.table() == tbl
                        &&& b.spec_coef_gran() == coef_gran
                        &&& b.spec_thresh_gran() == thresh_gran
                        &&& b.spec_max_bound() == max_bound
                    },
                    None => !spec_table_ok(tbl, coef_gran as int, thresh_gran as int,
                        max_bound as int),
                }
            }),
    {
        let ghost tbl = bounds@.map_values(|row: Vec<i64>| row@);
        if coef_gran < 1 || coef_gran > 100_000 {
            return None;
        }
        if thresh_gran < 1 || thresh_gran > 100_000 {
            return None;
        }
        if max_bound < 1 || max_bound > 300_000 {
            return None;
        }
        if bounds.len() != coef_gran {
            return None;
        }
        let mut a: usize = 0;
        while a < coef_gran
            invariant
                coef_gran <= 100_000,
                max_bound <= 300_000,
                bounds@.len() == coef_gran,
                tbl == bounds@.map_values(|row: Vec<i64>| row@),
                0 <= a <= coef_gran,
                forall|i: int| 0 <= i < a ==> (#[trigger] tbl[i]).len() == 2 * max_bound,
                forall|i: int, y: int|
                    0 <= i < a && 0 <= y < tbl[i].len() ==> 0 <= #[trigger] tbl[i][y] <= SCALE,
            decreases coef_gran - a,
        {
            let row_len = bounds[a].len();
            proof {
                assert(tbl[a as int] == bounds@[a as int]@);
            }
            if row_len != 2 * max_bound {
                return None;
            }
            let mut y: usize = 0;
            while y < row_len
                invariant
                    bounds@.len() > a,
                    tbl == bounds@.map_values(|row: Vec<i64>| row@),
                    tbl[a as int] == bounds@[a as int]@,
                    row_len == tbl[a as int].len(),
                    0 <= y <= row_len,
                    forall|j: int| 0 <= j < y ==> 0 <= #[trigger] tbl[a as int][j] <= SCALE,
                decreases row_len - y,
            {
                let v = bounds[a][y];
                if v < 0 || v > SCALE {
                    return None;
                }
                y = y + 1;
            }
            a = a + 1;
        }
        Some(Bounder { bounds, coef_gran, thresh_gran, max_bound })
    }

    /// The stored rows.
    pub fn bounds(&self) -> (r: &Vec<Vec<i64>>)
        ensures
            r@.map_values(|row: Vec<i64>| row@) == self.table(),
    {
        &self.bounds
    }

    pub fn coef_gran(&self) -> (r: usize)
        ensures
            r == self.spec_coef_gran(),
    {
        self.coef_gran
    }

    pub fn thresh_gran(&self) -> (r: usize)
        ensures
            r == self.spec_thresh_gran(),
    {
        self.thresh_gran
    }

    pub fn max_bound(&self) -> (r: usize)
        ensures
            r == self.spec_max_bound(),
    {
        self.max_bound
    }
}


/// A table with the trivial symmetry floor applied: every cell whose
/// threshold is non-positive (column below `mb`) is raised to at least one
/// half, since `Pr[X > t] >= 1/2` for `t < 0`.
pub open spec fn spec_floor_table(tbl: Seq<Seq<i64>>, mb: int) -> Seq<Seq<i64>> {
    Seq::new(
        tbl.len(),
        |a: int|
            Seq::new(
                tbl[a].len(),
                |y: int|
                    if y < mb && tbl[a][y] < SCALE / 2 {
                        (SCALE / 2) as i64
                    } else {
                        tbl[a][y]
                    },
            ),
    )
}

impl Bounder {
    /// Raises every cell with a non-positive threshold to at least one
    /// half, the trivial symmetry bound.  Applied once after seeding.
    pub fn apply_trivial_floor(&mut self)
        requires
            old(self).wf(),
        ensures
            final(self).wf(),
            final(self).spec_coef_gran() == old(self).spec_coef_gran(),
            final(self).spec_thresh_gran() == old(self).spec_thresh_gran(),
            final(self).spec_max_bound() == old(self).spec_max_bound(),
            final(self).table() == spec_floor_table(old(self).table(), old(self).spec_max_bound()),
    {
        let ghost tbl0 = self.table();
        let ghost mb = self.spec_max_bound();
        let half = SCALE / 2;
        let cg = self.coef_gran;
        let cols = 2 * self.max_bound;
        let mut new_rows: Vec<Vec<i64>> = Vec::new();
        let mut a: usize = 0;
        while a < cg
            invariant
                old(self).wf(),
                self == old(self),
                tbl0 == self.table(),
                mb == self.spec_max_bound(),
                half == SCALE / 2,
                cg == self.spec_coef_gran(),
                cols == 2 * mb,
                0 <= a <= cg,
                new_rows@.len() == a,
                forall|i: int| 0 <= i < a
                    ==> (#[trigger] new_rows@[i])@ == spec_floor_table(tbl0, mb)[i],
            decreases cg - a,
        {
            let mut row: Vec<i64> = Vec::new();
            let mut y: usize = 0;
            proof {
                assert(tbl0[a as int] == self.bounds@[a as int]@);
            }
            while y < cols
                invariant
                    old(self).wf(),
                    self == old(self),
                    tbl0 == self.table(),
                    mb == self.spec_max_bound(),
                    half == SCALE / 2,
                    cg == self.spec_coef_gran(),
                    cols == 2 * mb,
                    0 <= a < cg,
                    tbl0[a as int] == self.bounds@[a as int]@,
                    0 <= y <= cols,
                    row@.len() == y,
                    forall|j: int| 0 <= j < y
                        ==> #[trigger] row@[j] == spec_floor_table(tbl0, mb)[a as int][j],
                decreases cols - y,
            {
                let v = self.bounds[a][y];
                let nv = if y < self.max_bound && v < half {
                    half
                } else {
                    v
                };
                row.push(nv);
                y = y + 1;
            }
            proof {
                assert(row@ =~= spec_floor_table(tbl0, mb)[a as int]);
            }
            new_rows.push(row);
            a = a + 1;
        }
        self.bounds = new_rows;
        proof {
            assert(self.table() =~= spec_floor_table(tbl0, mb));
        }
    }

    /// One refinement of cell `(a, y)` against the current table.
    fn refined_cell(&self, a: usize, y: usize) -> (r: i64)
        requires
            self.wf(),
            a < self.spec_coef_gran(),
            y < 2 * self.spec_max_bound(),
        ensures
            r == spec_refined_cell_t(
                self.table(),
                self.spec_coef_gran(),
                self.spec_thresh_gran(),
                self.spec_max_bound(),
                a as int,
                y as int,
            ),
            0 <= r <= SCALE,
    {
        let cg = self.coef_gran;
        let tg = self.thresh_gran;
        let mb = self.max_bound;
        let tn: i128 = y as i128 - mb as i128 + 1;
        proof {
            assert(-300_000 <= tn as int && tn as int <= 300_000);
            assert(tn * (cg as i128) <= 30_000_000_000i128
                && tn * (cg as i128) >= -30_000_000_000i128
                && (a as i128) * (tg as i128) <= 10_000_000_000i128
                && (a as i128) * (tg as i128) >= 0) by (nonlinear_arith)
                requires
                    -300_000 <= tn as int <= 300_000 && 1 <= cg as int <= 100_000
                        && 1 <= tg as int <= 100_000 && 0 <= a as int && (a as int) < cg as int;
        }
        let base: i64 = if tn * (cg as i128) <= (a as i128) * (tg as i128) {
            SCALE / 4
        } else {
            0
        };
        let cand0: i64 = if a + 1 < cg {
            let ap = (a + 1) as u128;
            proof {
                assert((cg as u128) * (cg as u128) <= 10_000_000_000u128
                    && ap * ap < (cg as u128) * (cg as u128)) by (nonlinear_arith)
                    requires 1 <= ap as int && ap < cg as int && cg as int <= 100_000;
            }
            let diff = (cg as u128) * (cg as u128) - ap * ap;
            let w = isqrt(diff);
            proof {
                assert(w >= 1) by (nonlinear_arith)
                    requires
                        (w as int + 1) * (w as int + 1) > diff as int
                            && diff as int >= 1 && w as int >= 0;
                assert(w <= 100_000) by (nonlinear_arith)
                    requires
                        w as int * (w as int) <= 10_000_000_000int && w as int >= 0;
            }
            proof {
                assert(1 <= tg as u128 * w && tg as u128 * w <= 10_000_000_000u128)
                    by (nonlinear_arith)
                    requires 1 <= tg as int <= 100_000 && 1 <= w as int <= 100_000;
            }
            let af = ceil_div((ap as i128) * (SCALE as i128), w as i128);
            let den = (tg as u128 * w) as i128;
            proof {
                assert((tn * (cg as i128) - (a as i128) * (tg as i128)) * (SCALE as i128)
                    <= 0x1_0000_0000_0000_0000_0000_0000i128
                    && (tn * (cg as i128) - (a as i128) * (tg as i128)) * (SCALE as i128)
                        >= -0x1_0000_0000_0000_0000_0000_0000i128) by (nonlinear_arith)
                    requires
                        -40_000_000_000i128 <= tn * (cg as i128) - (a as i128) * (tg as i128)
                            <= 40_000_000_000i128
                            && (SCALE as i128) == 1_000_000_000_000i128;
                assert((ap as i128) * (tg as i128) <= 10_000_000_000i128
                    && (ap as i128) * (tg as i128) >= 1) by (nonlinear_arith)
                    requires 1 <= ap as int && ap as int <= 100_000
                        && 1 <= tg as int <= 100_000;
                assert((tn * (cg as i128) + (ap as i128) * (tg as i128)) * (SCALE as i128)
                    <= 0x1_0000_0000_0000_0000_0000_0000i128
                    && (tn * (cg as i128) + (ap as i128) * (tg as i128)) * (SCALE as i128)
                        >= -0x1_0000_0000_0000_0000_0000_0000i128) by (nonlinear_arith)
                    requires
                        -40_000_000_000i128 <= tn * (cg as i128) + (ap as i128) * (tg as i128)
                            <= 40_000_000_000i128
                            && (SCALE as i128) == 1_000_000_000_000i128;
                assert((ap as i128) * (SCALE as i128) <= 100_000_000_000_000_000i128)
                    by (nonlinear_arith)
                    requires ap as int <= 100_000 && (SCALE as i128) == 1_000_000_000_000i128;
            }
            let cf1 = ceil_div((tn * (cg as i128) - (a as i128) * (tg as i128))
                * (SCALE as i128), den);
            let cf2 = ceil_div((tn * (cg as i128) + (ap as i128) * (tg as i128))
                * (SCALE as i128), den);
            proof {
                crate::fixed::lemma_ceil_div_range(
                    (ap as int) * (SCALE as int), w as int,
                    0x1_0000_0000_0000_0000_0000_0000int);
                crate::fixed::lemma_ceil_div_range(
                    (tn as int * cg - a as int * tg) * (SCALE as int), den as int,
                    0x1_0000_0000_0000_0000_0000_0000int);
                crate::fixed::lemma_ceil_div_range(
                    (tn as int * cg + ap as int * tg) * (SCALE as int), den as int,
                    0x1_0000_0000_0000_0000_0000_0000int);
            }
            let v1 = self.lookup_fixed(af, cf1);
            let v2 = self.lookup_fixed(af, cf2);
            let avg = (((v1 as u64) + (v2 as u64)) / 2) as i64;
            if avg > base {
                avg
            } else {
                base
            }
        } else {
            base
        };
        proof {
            assert(self.table()[a as int] == self.bounds@[a as int]@);
            if a > 0 {
                assert(self.table()[a as int - 1] == self.bounds@[a as int - 1]@);
            }
        }
        let cand: i64 = if a > 0 {
            let below = self.bounds[a - 1][y];
            if below < cand0 {
                below
            } else {
                cand0
            }
        } else {
            cand0
        };
        let cur = self.bounds[a][y];
        if cand > cur {
            cand
        } else {
            cur
        }
    }

    /// One full refinement sweep, reading this table only.
    pub fn refine_pass(&self) -> (r: Bounder)
        requires
            self.wf(),
        ensures
            r.wf(),
            r.spec_coef_gran() == self.spec_coef_gran(),
            r.spec_thresh_gran() == self.spec_thresh_gran(),
            r.spec_max_bound() == self.spec_max_bound(),
            r.table() == spec_pass_table(
                self.table(),
                self.spec_coef_gran(),
                self.spec_thresh_gran(),
                self.spec_max_bound(),
            ),
    {
        let ghost target = spec_pass_table(
            self.table(),
            self.spec_coef_gran(),
            self.spec_thresh_gran(),
            self.spec_max_bound(),
        );
        let cg = self.coef_gran;
        let cols = 2 * self.max_bound;
        let mut new_rows: Vec<Vec<i64>> = Vec::new();
        let mut a: usize = 0;
        while a < cg
            invariant
                self.wf(),
                cg == self.spec_coef_gran(),
                cols == 2 * self.spec_max_bound(),
                target == spec_pass_table(
                    self.table(),
                    self.spec_coef_gran(),
                    self.spec_thresh_gran(),
                    self.spec_max_bound(),
                ),
                0 <= a <= cg,
                new_rows@.len() == a,
                forall|i: int| 0 <= i < a ==> (#[trigger] new_rows@[i])@ == target[i],
            decreases cg - a,
        {
            let mut row: Vec<i64> = Vec::new();
            let mut y: usize = 0;
            while y < cols
                invariant
                    self.wf(),
                    cg == self.spec_coef_gran(),
                    cols == 2 * self.spec_max_bound(),
                    target == spec_pass_table(
                        self.table(),
                        self.spec_coef_gran(),
                        self.spec_thresh_gran(),
                        self.spec_max_bound(),
                    ),
                    0 <= a < cg,
                    0 <= y <= cols,
                    row@.len() == y,
                    forall|j: int| 0 <= j < y
                        ==> #[trigger] row@[j] == target[a as int][j],
                decreases cols - y,
            {
                let v = self.refined_cell(a, y);
                row.push(v);
                y = y + 1;
            }
            proof {
                assert(row@ =~= target[a as int]);
            }
            new_rows.push(row);
            a = a + 1;
        }
        let r = Bounder {
            bounds: new_rows,
            coef_gran: self.coef_gran,
            thresh_gran: self.thresh_gran,
            max_bound: self.max_bound,
        };
        proof {
            assert(r.table() =~= target);
            lemma_pass_table_ok(
                self.table(),
                self.spec_coef_gran(),
                self.spec_thresh_gran(),
                self.spec_max_bound(),
            );
        }
        r
    }

    /// Runs the given number of refinement sweeps.
    pub fn refine(&mut self, iterations: usize)
        requires
            old(self).wf(),
        ensures
            final(self).wf(),
            final(self).spec_coef_gran() == old(self).spec_coef_gran(),
            final(self).spec_thresh_gran() == old(self).spec_thresh_gran(),
            final(self).spec_max_bound() == old(self).spec_max_bound(),
            final(self).table() == spec_iter_table(
                old(self).table(),
                old(self).spec_coef_gran(),
                old(self).spec_thresh_gran(),
                old(self).spec_max_bound(),
                iterations as nat,
            ),
    {
        let mut k: usize = 0;
        while k < iterations
            invariant
                0 <= k <= iterations,
                self.wf(),
                self.spec_coef_gran() == old(self).spec_coef_gran(),
                self.spec_thresh_gran() == old(self).spec_thresh_gran(),
                self.spec_max_bound() == old(self).spec_max_bound(),
                self.table() == spec_iter_table(
                    old(self).table(),
                    old(self).spec_coef_gran(),
                    old(self).spec_thresh_gran(),
                    old(self).spec_max_bound(),
                    k as nat,
                ),
            decreases iterations - k,
        {
            let next = self.refine_pass();
            *self = next;
            k = k + 1;
        }
    }
}

impl Bounder {
    /// Whether a rescaled query is admissible: the coefficient fraction is
    /// a coefficient interval end, the cutoff fraction is a threshold of
    /// moderate size, and the two remaining-variance fractions share one
    /// denominator that is a perfect square (a squared sequence
    /// denominator).
    pub open spec fn var_query_ok(a: Frac, cutoff: Frac, minv: Frac, maxv: Frac) -> bool {
        &&& 1 <= a.den <= 1_000_000
        &&& 0 <= a.num <= 2_000_000
        &&& 1 <= cutoff.den <= 1_000_000_000_000_000_000u128
        &&& -2_000 * (cutoff.den as int) <= cutoff.num <= 2_000 * (cutoff.den as int)
        &&& minv.den == maxv.den
        &&& 1 <= minv.den <= 1_000_000_000_000u128
        &&& spec_isqrt(minv.den as int) * spec_isqrt(minv.den as int) == minv.den
        &&& minv.num <= minv.den
        &&& maxv.num <= maxv.den
    }

    /// The lookup for a sub-process with residual variance between
    /// `minv` and `maxv`: coefficient and cutoff are divided by the
    /// residual standard deviation, choosing for each case the rescaling
    /// and rounding direction that weakens the resulting bound.  A
    /// non-negative cutoff with no positive minimum residual variance
    /// gives the trivial bound zero; a negative cutoff with no positive
    /// maximum residual variance reads the table's leftmost column, the
    /// bound for an arbitrarily low threshold.
    pub closed spec fn spec_get_with_var(self, a: Frac, cutoff: Frac, minv: Frac, maxv: Frac)
        -> int {
        let s = SCALE as int;
        let dsq = spec_isqrt(minv.den as int);
        let c0 = spec_ceil_div(cutoff.num * s, cutoff.den as int);
        if minv.num > 0 {
            let w = spec_isqrt(minv.num as int);
            let af = spec_ceil_div(a.num * dsq * s, a.den * w);
            if cutoff.num >= 0 {
                self.spec_get(af, spec_ceil_div(c0 * dsq, w))
            } else if maxv.num <= 0 {
                self.spec_table_value(af, -4_000_000_000_000_000_000_000_000)
            } else {
                let w2 = spec_isqrt_ceil(maxv.num as int);
                self.spec_get(af, spec_ceil_div(c0 * dsq, w2))
            }
        } else if cutoff.num >= 0 {
            0
        } else if maxv.num <= 0 {
            self.spec_table_value(s, -4_000_000_000_000_000_000_000_000)
        } else {
            let w2 = spec_isqrt_ceil(maxv.num as int);
            self.spec_get(s, spec_ceil_div(c0 * dsq, w2))
        }
    }

    /// Our best lower bound on `Pr[X > cutoff]` for a sub-process whose
    /// residual variance lies between `minv` and `maxv` (fractions of a
    /// common perfect-square denominator), with leading coefficient at
    /// most `a`.
    pub fn get_with_var(&self, a: Frac, cutoff: Frac, minv: Frac, maxv: Frac) -> (r: i64)
        requires
            self.wf(),
            Bounder::var_query_ok(a, cutoff, minv, maxv),
        ensures
            r == self.spec_get_with_var(a, cutoff, minv, maxv),
            0 <= r <= SCALE,
    {
        let dsq_u = isqrt(minv.den);
        proof {
            assert(dsq_u <= 1_000_000) by (nonlinear_arith)
                requires
                    dsq_u as int * (dsq_u as int) <= 1_000_000_000_000int
                        && dsq_u as int >= 0;
            assert(dsq_u >= 1) by (nonlinear_arith)
                requires
                    (dsq_u as int + 1) * (dsq_u as int + 1) > minv.den as int
                        && minv.den as int >= 1 && dsq_u as int >= 0;
            assert(cutoff.num * (SCALE as i128)
                <= (2_000 * (cutoff.den as int)) * (SCALE as int)
                && cutoff.num * (SCALE as i128)
                    >= (-2_000 * (cutoff.den as int)) * (SCALE as int)) by (nonlinear_arith)
                requires
                    -2_000 * (cutoff.den as int) <= cutoff.num as int
                        && cutoff.num as int <= 2_000 * (cutoff.den as int)
                        && (SCALE as int) == 1_000_000_000_000int;
            assert((2_000 * (cutoff.den as int)) * (SCALE as int)
                == 2_000_000_000_000_000int * (cutoff.den as int)
                && (-2_000 * (cutoff.den as int)) * (SCALE as int)
                    == -2_000_000_000_000_000int * (cutoff.den as int)) by (nonlinear_arith)
                requires (SCALE as int) == 1_000_000_000_000int;
            assert(2_000_000_000_000_000int * (cutoff.den as int)
                <= 2_000_000_000_000_000_000_000_000_000_000_000int) by (nonlinear_arith)
                requires 1 <= cutoff.den as int <= 1_000_000_000_000_000_000int;
        }
        let dsq128 = dsq_u as i128;
        let c0 = ceil_div(cutoff.num * (SCALE as i128), cutoff.den as i128);
        proof {
            crate::fixed::lemma_ceil_div_ratio(
                cutoff.num as int * (SCALE as int),
                cutoff.den as int,
                2_000_000_000_000_000int,
            );
            assert(-2_000_000_000_000_000_000_000_000i128 <= c0 * dsq128
                && c0 * dsq128 <= 2_000_000_000_000_000_000_000_000i128) by (nonlinear_arith)
                requires
                    -2_000_000_000_000_000i128 <= c0 && c0 <= 2_000_000_000_000_000i128
                        && 1 <= dsq128 && dsq128 <= 1_000_000;
        }
        if minv.num > 0 {
            let w_u = isqrt(minv.num as u128);
            proof {
                assert(1 <= w_u && w_u <= 1_000_000) by (nonlinear_arith)
                    requires
                        w_u as int >= 0 && 1 <= minv.num as int <= 1_000_000_000_000int
                            && w_u as int * (w_u as int) <= minv.num as int
                            && (w_u as int + 1) * (w_u as int + 1) > minv.num as int;
            }
            let w128 = w_u as i128;
            proof {
                assert(0 <= a.num * dsq128 * (SCALE as i128)
                    <= 2_000_000_000_000_000_000_000_000i128) by (nonlinear_arith)
                    requires
                        0 <= a.num as int <= 2_000_000 && 1 <= dsq128 <= 1_000_000
                            && (SCALE as i128) == 1_000_000_000_000i128;
                assert(1 <= (a.den as i128) * w128
                    && (a.den as i128) * w128 <= 1_000_000_000_000i128) by (nonlinear_arith)
                    requires 1 <= a.den as int <= 1_000_000 && 1 <= w128 <= 1_000_000;
            }
            let af = ceil_div(a.num * dsq128 * (SCALE as i128), (a.den as i128) * w128);
            proof {
                crate::fixed::lemma_ceil_div_range(
                    a.num as int * (dsq128 as int) * (SCALE as int),
                    a.den as int * (w128 as int),
                    2_000_000_000_000_000_000_000_000int,
                );
                assert(af >= 0) by {
                    crate::fixed::lemma_ceil_div_bounds(
                        a.num as int * (dsq128 as int) * (SCALE as int),
                        a.den as int * (w128 as int),
                    );
                    if af < 0 {
                        assert((a.den as int * (w128 as int)) * (af as int) < 0)
                            by (nonlinear_arith)
                            requires a.den as int * (w128 as int) >= 1 && (af as int) < 0;
                    }
                }
            }
            if cutoff.num >= 0 {
                let cf = ceil_div(c0 * dsq128, w128);
                proof {
                    crate::fixed::lemma_ceil_div_range(
                        c0 as int * (dsq128 as int), w128 as int,
                        2_000_000_000_000_000_000_000_000int);
                }
                self.get_fixed(af, cf)
            } else if maxv.num <= 0 {
                self.lookup_fixed(af, -4_000_000_000_000_000_000_000_000i128)
            } else {
                let w2 = isqrt_ceil_i128(maxv.num);
                let cf = ceil_div(c0 * dsq128, w2);
                proof {
                    crate::fixed::lemma_ceil_div_range(
                        c0 as int * (dsq128 as int), w2 as int,
                        2_000_000_000_000_000_000_000_000int);
                }
                self.get_fixed(af, cf)
            }
        } else if cutoff.num >= 0 {
            0
        } else if maxv.num <= 0 {
            self.lookup_fixed(SCALE as i128, -4_000_000_000_000_000_000_000_000i128)
        } else {
            let w2 = isqrt_ceil_i128(maxv.num);
            let cf = ceil_div(c0 * dsq128, w2);
            proof {
                crate::fixed::lemma_ceil_div_range(
                    c0 as int * (dsq128 as int), w2 as int,
                    2_000_000_000_000_000_000_000_000int);
            }
            self.get_fixed(SCALE as i128, cf)
        }
    }
}

/// The ceiling square root of a positive variance numerator, as a
/// positive 128-bit integer.
fn isqrt_ceil_i128(n: i128) -> (r: i128)
    requires
        1 <= n <= 1_000_000_000_000i128,
    ensures
        r == crate::fixed::spec_isqrt_ceil(n as int),
        1 <= r <= 1_000_001,
{
    let w = crate::fixed::isqrt_ceil(n as u128);
    proof {
        crate::fixed::lemma_isqrt_props(n as int);
        let f = spec_isqrt(n as int);
        assert(f <= 1_000_000) by (nonlinear_arith)
            requires
                f >= 0 && f * f <= n as int && 1 <= n as int <= 1_000_000_000_000int;
        assert(w as int == spec_isqrt_ceil(n as int));
        assert(w as int == f + 1 || (w as int == f && f * f == n as int));
        assert(1 <= w as int) by (nonlinear_arith)
            requires
                f >= 0 && n as int >= 1
                    && (w as int == f + 1 || (w as int == f && f * f == n as int));
        assert(w as int <= 1_000_001);
    }
    w as i128
}

/// A raw table value lies in `[0, SCALE]` whenever the table is valid.
proof fn lemma_table_value_range(tbl: Seq<Seq<i64>>, cg: int, tg: int, mb: int, af: int, cf: int)
    requires
        spec_table_ok(tbl, cg, tg, mb),
    ensures
        0 <= spec_table_value_t(tbl, cg, tg, mb, af, cf) <= SCALE,
{
}

/// A refined cell lies in `[0, SCALE]` whenever the table is valid.
proof fn lemma_refined_cell_range(tbl: Seq<Seq<i64>>, cg: int, tg: int, mb: int, a: int, y: int)
    requires
        spec_table_ok(tbl, cg, tg, mb),
        0 <= a < tbl.len(),
        0 <= y < tbl[a].len(),
    ensures
        0 <= spec_refined_cell_t(tbl, cg, tg, mb, a, y) <= SCALE,
{
    let s = SCALE as int;
    let tn = y - mb + 1;
    if a + 1 < cg {
        let w = spec_isqrt(cg * cg - (a + 1) * (a + 1));
        let af = spec_ceil_div((a + 1) * s, w);
        let cf1 = spec_ceil_div((tn * cg - a * tg) * s, tg * w);
        let cf2 = spec_ceil_div((tn * cg + (a + 1) * tg) * s, tg * w);
        lemma_table_value_range(tbl, cg, tg, mb, af, cf1);
        lemma_table_value_range(tbl, cg, tg, mb, af, cf2);
        let v1 = spec_table_value_t(tbl, cg, tg, mb, af, cf1);
        let v2 = spec_table_value_t(tbl, cg, tg, mb, af, cf2);
        vstd::arithmetic::div_mod::lemma_div_is_ordered(0, v1 + v2, 2);
        vstd::arithmetic::div_mod::lemma_div_is_ordered(v1 + v2, 2 * s, 2);
        assert((2 * s) / 2 == s) by (nonlinear_arith);
    }
}

/// Refinement never lowers a cell: one sweep leaves every cell at least
/// where it was.  This is the guaranteed direction of the table's
/// monotonicity: values only ever improve, never regress.
pub proof fn lemma_pass_no_decrease(tbl: Seq<Seq<i64>>, cg: int, tg: int, mb: int, a: int, y: int)
    requires
        spec_table_ok(tbl, cg, tg, mb),
        0 <= a < tbl.len(),
        0 <= y < tbl[a].len(),
    ensures
        spec_pass_table(tbl, cg, tg, mb)[a][y] >= tbl[a][y],
{
    lemma_refined_cell_range(tbl, cg, tg, mb, a, y);
}

/// A refinement sweep of a valid table is again a valid table.
pub proof fn lemma_pass_table_ok(tbl: Seq<Seq<i64>>, cg: int, tg: int, mb: int)
    requires
        spec_table_ok(tbl, cg, tg, mb),
    ensures
        spec_table_ok(spec_pass_table(tbl, cg, tg, mb), cg, tg, mb),
{
    let p = spec_pass_table(tbl, cg, tg, mb);
    assert forall|a: int, y: int| 0 <= a < p.len() && 0 <= y < p[a].len()
        implies 0 <= #[trigger] p[a][y] <= SCALE by {
        lemma_refined_cell_range(tbl, cg, tg, mb, a, y);
    }
}

/// After any number of refinement sweeps the table is still valid and no
/// cell lies below its seeded value: refinement only increases values.
pub proof fn lemma_iter_no_decrease(
    tbl: Seq<Seq<i64>>,
    cg: int,
    tg: int,
    mb: int,
    n: nat,
    a: int,
    y: int,
)
    requires
        spec_table_ok(tbl, cg, tg, mb),
        0 <= a < tbl.len(),
        0 <= y < tbl[a].len(),
    ensures
        spec_table_ok(spec_iter_table(tbl, cg, tg, mb, n), cg, tg, mb),
        spec_iter_table(tbl, cg, tg, mb, n)[a][y] >= tbl[a][y],
    decreases n,
{
    if n > 0 {
        let prev = spec_iter_table(tbl, cg, tg, mb, (n - 1) as nat);
        lemma_iter_no_decrease(tbl, cg, tg, mb, (n - 1) as nat, a, y);
        lemma_pass_table_ok(prev, cg, tg, mb);
        lemma_pass_no_decrease(prev, cg, tg, mb, a, y);
    }
}

/// Rounds `v` up to the next multiple of `denom`.
pub fn round_up(v: i32, denom: usize) -> (r: i32)
    requires
        1 <= denom <= 1_000,
        -10_000_000 <= v <= 10_000_000,
    ensures
        r == spec_ceil_div(v as int, denom as int) * denom,
{
    let c = ceil_div(v as i128, denom as i128);
    proof {
        crate::fixed::lemma_ceil_div_bounds(v as int, denom as int);
        assert(v <= c * (denom as i128) && c * (denom as i128) < v + denom)
            by (nonlinear_arith)
            requires
                denom as int * (c - 1) < v as int <= denom as int * c
                    && denom as int >= 1;
    }
    (c * (denom as i128)) as i32
}

/// The oracle arguments for seeding cell `(a, y)`: the coefficient bin
/// rounded up to the next multiple of sixteen plus one, and the shifted
/// threshold bin rounded up to the next multiple of eight plus one.  The
/// round-up is pessimistic and therefore sound, and lets nearby cells
/// share one oracle evaluation.
pub fn seed_arguments(a: usize, y: usize, max_bound: usize) -> (r: (i32, i32))
    requires
        a <= 1_000_000,
        y <= 2_000_000,
        max_bound <= 1_000_000,
    ensures
        r.0 == spec_ceil_div(a as int, 16) * 16 + 1,
        r.1 == spec_ceil_div(y - max_bound, 8) * 8 + 1,
{
    let av = round_up(a as i32, 16);
    let yv = round_up((y as i32) - (max_bound as i32), 8);
    proof {
        crate::fixed::lemma_ceil_div_bounds(a as int, 16);
        crate::fixed::lemma_ceil_div_bounds(y - max_bound, 8);
        assert(spec_ceil_div(a as int, 16) * 16 <= a + 16) by {
            assert(16 * spec_ceil_div(a as int, 16) < a + 16);
        }
        assert(spec_ceil_div(y - max_bound, 8) * 8 < y - max_bound + 8) by {
            assert(8 * spec_ceil_div(y - max_bound, 8) < y - max_bound + 8);
        }
    }
    (av + 1, yv + 1)
}


/// A well-formed table is a valid table for its own shape.
pub proof fn lemma_wf_table_ok(b: Bounder)
    requires
        b.wf(),
    ensures
        spec_table_ok(
            b.table(),
            b.spec_coef_gran(),
            b.spec_thresh_gran(),
            b.spec_max_bound(),
        ),
{
}

/// A valid table for the stored shape makes the whole value well-formed.
pub proof fn lemma_table_ok_wf(b: Bounder)
    requires
        spec_table_ok(
            b.table(),
            b.spec_coef_gran(),
            b.spec_thresh_gran(),
            b.spec_max_bound(),
        ),
    ensures
        b.wf(),
{
}


/// Two tables with the same cells and shape answer every lookup
/// identically; with the serialization round trip this is the persistence
/// guarantee: saving and loading a table preserves all lookup results.
pub proof fn lemma_equal_tables_equal_lookups(b1: Bounder, b2: Bounder, af: int, cf: int)
    requires
        b1.table() == b2.table(),
        b1.spec_coef_gran() == b2.spec_coef_gran(),
        b1.spec_thresh_gran() == b2.spec_thresh_gran(),
        b1.spec_max_bound() == b2.spec_max_bound(),
    ensures
        b1.spec_get(af, cf) == b2.spec_get(af, cf),
{
}

} // verus!
