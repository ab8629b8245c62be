//! Fixed-point scalars and the few pieces of integer arithmetic the engine
//! needs beyond `+ - *`: ceiling division and integer square roots.
//!
//! Every real-valued quantity of the engine (thresholds, probabilities,
//! restriction bounds, interval endpoints) is an `i64` counting units of
//! `1 / SCALE`; coefficient values are exact rationals with a shared
//! denominator and never pass through this representation.

use vstd::prelude::*;

verus! {

/// Number of fixed-point units in 1.0.
pub const SCALE: i64 = 1_000_000_000_000;

/// Slack added to probability comparisons, in fixed-point units.
pub const EPSILON: i64 = 100;

/// Slack subtracted from delta-bound comparisons, in fixed-point units.
pub const DELTA_ERROR: i64 = 1_000_000;

/// An exact fraction with a positive denominator, used wherever a value
/// cannot be captured in fixed point without loss: coefficient interval
/// ends and rescaled thresholds.
#[derive(Clone, Copy, PartialEq, Eq, Structural, Debug)]
pub struct Frac {
    pub num: i128,
    pub den: u128,
}

/// Ceiling of `p / q` over the mathematical integers (`/` on `int` rounds
/// towards minus infinity, so this shift computes the ceiling for any `p`).
pub open spec fn spec_ceil_div(p: int, q: int) -> int {
    (p + q - 1) / q
}

/// `r` is `ceil(p / q)` exactly when `p` lies in `(q*(r-1), q*r]`.
pub proof fn lemma_ceil_div_bounds(p: int, q: int)
    requires
        q > 0,
    ensures
        q * (spec_ceil_div(p, q) - 1) < p <= q * spec_ceil_div(p, q),
{
    let s = p + q - 1;
    let c = spec_ceil_div(p, q);
    vstd::arithmetic::div_mod::lemma_fundamental_div_mod(s, q);
    vstd::arithmetic::div_mod::lemma_mod_bound(s, q);
    assert(q * c == s - s % q);
    assert(q * (c - 1) == q * c - q) by (nonlinear_arith);
}

/// Ceiling division characterizations are unique.
pub proof fn lemma_ceil_div_unique(p: int, q: int, r: int)
    requires
        q > 0,
        q * (r - 1) < p <= q * r,
    ensures
        r == spec_ceil_div(p, q),
{
    let c = spec_ceil_div(p, q);
    lemma_ceil_div_bounds(p, q);
    if r < c {
        assert(q * r <= q * (c - 1)) by (nonlinear_arith)
            requires q > 0 && r <= c - 1;
    }
    if c < r {
        assert(q * c <= q * (r - 1)) by (nonlinear_arith)
            requires q > 0 && c <= r - 1;
    }
}

/// A ceiling quotient is no larger in magnitude than its numerator, up to
/// one unit.
pub proof fn lemma_ceil_div_range(p: int, q: int, m: int)
    requires
        q >= 1,
        m >= 0,
        -m <= p <= m,
    ensures
        -m <= spec_ceil_div(p, q) <= m + 1,
{
    let c = spec_ceil_div(p, q);
    lemma_ceil_div_bounds(p, q);
    if c >= 2 {
        assert(q * (c - 1) >= c - 1) by (nonlinear_arith)
            requires q >= 1 && c - 1 >= 1;
    }
    if c <= 0 {
        assert(q * c <= c) by (nonlinear_arith)
            requires q >= 1 && c <= 0;
    }
}

/// Ceiling division of a (possibly negative) numerator by a positive
/// denominator.
pub fn ceil_div(p: i128, q: i128) -> (r: i128)
    requires
        q > 0,
        p > i128::MIN,
    ensures
        r == spec_ceil_div(p as int, q as int),
{
    if p >= 0 {
        let pu = p as u128;
        let qu = q as u128;
        let ru = (pu + qu - 1) / qu;
        proof {
            let s = (pu + qu - 1) as int;
            vstd::arithmetic::div_mod::lemma_fundamental_div_mod(s, qu as int);
            vstd::arithmetic::div_mod::lemma_mod_bound(s, qu as int);
            assert(qu as int * (ru as int) == s - s % (qu as int));
            assert(p <= qu as int * (ru as int));
            assert(qu as int * (ru as int - 1) == qu as int * (ru as int) - qu) by (nonlinear_arith);
            assert(ru as int <= pu as int) by (nonlinear_arith)
                requires
                    qu as int >= 1 && ru as int >= 0 && pu as int >= 0
                        && qu as int * (ru as int) <= pu + qu - 1;
            lemma_ceil_div_unique(p as int, q as int, ru as int);
        }
        ru as i128
    } else {
        let m = (-p) as u128;
        let qu = q as u128;
        let du = m / qu;
        let r = -(du as i128);
        proof {
            vstd::arithmetic::div_mod::lemma_fundamental_div_mod(m as int, qu as int);
            vstd::arithmetic::div_mod::lemma_mod_bound(m as int, qu as int);
            assert(du as int <= m) by (nonlinear_arith)
                requires qu as int >= 1 && du as int >= 0 && qu as int * (du as int) <= m;
            assert(q * (r as int - 1) < p <= q * (r as int)) by (nonlinear_arith)
                requires
                    q as int * (du as int) <= m < q as int * (du as int) + q
                        && p == -(m as int) && r == -(du as int) && q > 0;
            lemma_ceil_div_unique(p as int, q as int, r as int);
        }
        r
    }
}

/// The integer square root, defined as the unique `r >= 0` with
/// `r * r <= n < (r + 1) * (r + 1)`.
pub open spec fn spec_isqrt(n: int) -> int {
    choose|r: int| r >= 0 && #[trigger] (r * r) <= n < (r + 1) * (r + 1)
}

/// Any two integer square roots of `n` agree.
pub proof fn lemma_isqrt_unique(n: int, r1: int, r2: int)
    requires
        r1 >= 0,
        r1 * r1 <= n < (r1 + 1) * (r1 + 1),
        r2 >= 0,
        r2 * r2 <= n < (r2 + 1) * (r2 + 1),
    ensures
        r1 == r2,
{
    if r1 < r2 {
        assert((r1 + 1) * (r1 + 1) <= r2 * r2) by (nonlinear_arith)
            requires 0 <= r1 && r1 + 1 <= r2;
    }
    if r2 < r1 {
        assert((r2 + 1) * (r2 + 1) <= r1 * r1) by (nonlinear_arith)
            requires 0 <= r2 && r2 + 1 <= r1;
    }
}

/// A witness with the bracketing property is the `spec_isqrt`.
pub proof fn lemma_isqrt_is(n: int, r: int)
    requires
        r >= 0,
        r * r <= n < (r + 1) * (r + 1),
    ensures
        r == spec_isqrt(n),
{
    let w = spec_isqrt(n);
    assert(w >= 0 && w * w <= n < (w + 1) * (w + 1));
    lemma_isqrt_unique(n, r, w);
}

/// With `p` between `-k * q` and `k * q`, the ceiling quotient lies
/// between `-k` and `k`.
pub proof fn lemma_ceil_div_ratio(p: int, q: int, k: int)
    requires
        q >= 1,
        k >= 0,
        -k * q <= p <= k * q,
    ensures
        -k <= spec_ceil_div(p, q) <= k,
{
    let c = spec_ceil_div(p, q);
    lemma_ceil_div_bounds(p, q);
    if c > k {
        assert(q * (c - 1) >= q * k) by (nonlinear_arith)
            requires q >= 1 && c - 1 >= k;
        assert(q * k == k * q) by (nonlinear_arith);
    }
    if c < -k {
        assert(q * c <= q * (-k - 1)) by (nonlinear_arith)
            requires q >= 1 && c <= -k - 1;
        assert(q * (-k - 1) < -k * q) by (nonlinear_arith)
            requires q >= 1;
    }
}

/// Every non-negative integer has an integer square root, so the chosen
/// `spec_isqrt` witness really brackets `n`.
pub proof fn lemma_isqrt_props(n: int)
    requires
        n >= 0,
    ensures
        spec_isqrt(n) >= 0,
        spec_isqrt(n) * spec_isqrt(n) <= n,
        n < (spec_isqrt(n) + 1) * (spec_isqrt(n) + 1),
    decreases n,
{
    if n == 0 {
        assert(0 * 0 <= 0int && 0int < (0 + 1) * (0 + 1)) by (nonlinear_arith);
        lemma_isqrt_is(0, 0);
    } else {
        lemma_isqrt_props(n - 1);
        let f = spec_isqrt(n - 1);
        if (f + 1) * (f + 1) <= n {
            assert(n < (f + 2) * (f + 2)) by (nonlinear_arith)
                requires f >= 0 && n - 1 < (f + 1) * (f + 1);
            lemma_isqrt_is(n, f + 1);
        } else {
            lemma_isqrt_is(n, f);
        }
    }
}

/// Ceiling of the square root of `n`.
pub open spec fn spec_isqrt_ceil(n: int) -> int {
    let w = spec_isqrt(n);
    if w * w == n {
        w
    } else {
        w + 1
    }
}

/// Floor of the square root of `n`, by bisection.
pub fn isqrt(n: u128) -> (r: u128)
    ensures
        r * r <= n < (r + 1) * (r + 1),
        r == spec_isqrt(n as int),
{
    let mut lo: u128 = 0;
    let mut hi: u128 = 0x1_0000_0000_0000_0000;
    proof {
        assert(hi as int * hi as int > n);
    }
    while lo + 1 < hi
        invariant
            lo < hi <= 0x1_0000_0000_0000_0000,
            lo * lo <= n,
            (hi as int) * (hi as int) > n,
        decreases hi - lo,
    {
        let mid = lo + (hi - lo) / 2;
        assert(lo < mid < hi);
        proof {
            assert(mid as int * mid as int <= u128::MAX as int) by (nonlinear_arith)
                requires mid as int >= 0 && (mid as int) < 0x1_0000_0000_0000_0000int;
        }
        if mid * mid <= n {
            lo = mid;
        } else {
            hi = mid;
        }
    }
    proof {
        assert(hi == lo + 1);
        lemma_isqrt_is(n as int, lo as int);
    }
    lo
}


/// Ceiling square root, from the floor one.
pub fn isqrt_ceil(n: u128) -> (r: u128)
    ensures
        r == spec_isqrt_ceil(n as int),
{
    let w = isqrt(n);
    proof {
        assert(w < 0x1_0000_0000_0000_0000_0000u128) by (nonlinear_arith)
            requires
                w as int * (w as int) <= n as int
                    && n as int <= 0xffff_ffff_ffff_ffff_ffff_ffff_ffff_ffffu128
                    && w as int >= 0;
    }
    if w * w == n {
        w
    } else {
        w + 1
    }
}

} // verus!
