//! Closed scalar intervals and the symbolic restrictions a case file can
//! place on a coefficient sequence.

use vstd::prelude::*;
use crate::fixed::SCALE;
use crate::util::{
    spec_find_char, spec_split_list, spec_trim, spec_parse_nat, spec_parse_fixed,
    parse_function_like, parse_usize, parse_fixed, trim,
};

verus! {

broadcast use vstd::utf8::is_ascii_chars_nat_bound;

/// A closed interval of fixed-point scalars.
#[derive(Clone, Copy, PartialEq, Eq, Structural, Debug)]
pub struct Interval {
    pub lb: i64,
    pub ub: i64,
}

/// Why a piece of case-file text was rejected.
#[derive(Clone, Copy, PartialEq, Eq, Structural, Debug)]
pub enum ParseError {
    /// The keyword names no known restriction or hypothesis.
    UnknownKeyword,
    /// An argument list has the wrong length, or an argument does not
    /// read as the number it should be.
    BadArguments,
    /// A second exclusive hypothesis was declared.
    DuplicateHypothesis,
    /// The leading parameter line of a case or table is malformed.
    MalformedHeader,
    /// The case parameters lie outside the ranges the engine supports.
    UnsupportedShape,
}

impl Interval {
    /// The unit interval `[0, 1]`.
    pub open spec fn spec_unit() -> Interval {
        Interval { lb: 0, ub: SCALE }
    }

    pub fn unit() -> (r: Interval)
        ensures
            r == Interval::spec_unit(),
    {
        Interval { lb: 0, ub: SCALE }
    }

    /// A well-formed interval is non-empty.
    pub open spec fn wf(self) -> bool {
        self.lb <= self.ub
    }

    /// The intersection: the larger lower bound with the smaller upper
    /// bound.
    pub open spec fn spec_intersect(self, other: Interval) -> Interval {
        Interval {
            lb: if self.lb >= other.lb {
                self.lb
            } else {
                other.lb
            },
            ub: if self.ub <= other.ub {
                self.ub
            } else {
                other.ub
            },
        }
    }

    /// Tightens this interval to its intersection with `other`.
    pub fn intersect_inplace(&mut self, other: &Interval)
        ensures
            *final(self) == old(self).spec_intersect(*other),
    {
        if other.lb > self.lb {
            self.lb = other.lb;
        }
        if other.ub < self.ub {
            self.ub = other.ub;
        }
    }
}

/// Intersection does not depend on the order of its arguments.
pub proof fn lemma_intersect_commutative(a: Interval, b: Interval)
    ensures
        a.spec_intersect(b) == b.spec_intersect(a),
{
}

/// Intersecting an interval with itself changes nothing.
pub proof fn lemma_intersect_idempotent(a: Interval)
    ensures
        a.spec_intersect(a) == a,
{
}

/// The unit interval is neutral for any interval lying inside it.
pub proof fn lemma_intersect_unit(a: Interval)
    requires
        0 <= a.lb,
        a.ub <= SCALE,
    ensures
        a.spec_intersect(Interval::spec_unit()) == a,
{
}

/// One linear constraint on a partial coefficient sequence, evaluable at a
/// given search depth.  Sum bounds speak of numerator prefix sums; `Bounds`
/// confines one coefficient's admissible sub-interval.
#[derive(Clone, Copy, PartialEq, Eq, Structural, Debug)]
pub enum Restriction {
    InitialSumUpperBound(usize, i64),
    InitialSumLowerBound(usize, i64),
    MidSumUpperBound(usize, usize, i64),
    Bounds(usize, Interval),
}

/// `c` lowered to its small-letter code when it is a capital letter.
pub open spec fn lower_u32(c: char) -> u32 {
    if 65 <= c as u32 <= 90 {
        (c as u32 + 32) as u32
    } else {
        c as u32
    }
}

/// Case-insensitive match of `s` against the lower-case keyword `k`.
pub open spec fn spec_keyword_eq(s: Seq<char>, k: Seq<char>) -> bool {
    s.len() == k.len() && forall|i: int|
        0 <= i < s.len() ==> lower_u32(#[trigger] s[i]) == k[i] as u32
}

/// Compares `text` against a lower-case keyword, ignoring letter case.
pub(crate) fn keyword_is(text: &str, lit: &str) -> (r: bool)
    requires
        text.is_ascii(),
        lit.is_ascii(),
    ensures
        r == spec_keyword_eq(text@, lit@),
{
    let n = text.unicode_len();
    let m = lit.unicode_len();
    if n != m {
        return false;
    }
    let mut i: usize = 0;
    while i < n
        invariant
            text.is_ascii(),
            lit.is_ascii(),
            n == text@.len(),
            n == lit@.len(),
            0 <= i <= n,
            forall|j: int| 0 <= j < i ==> lower_u32(#[trigger] text@[j]) == lit@[j] as u32,
        decreases n - i,
    {
        let a = text.get_ascii(i);
        let b = lit.get_ascii(i);
        let low = if 65 <= a && a <= 90 {
            a + 32
        } else {
            a
        };
        if low != b {
            assert(lower_u32(text@[i as int]) != lit@[i as int] as u32);
            return false;
        }
        i = i + 1;
    }
    true
}

/// The restriction a trimmed piece of text denotes, exactly as
/// `Restriction::of_string` computes it: the text is read as
/// `keyword(arg, ...)`, the keyword is matched ignoring letter case, and
/// the arguments must be exactly the numbers the keyword takes.
pub open spec fn spec_restriction_of(s: Seq<char>) -> Result<Restriction, ParseError> {
    let k = spec_find_char(s, '(', 0);
    let func = if k == -1 {
        s
    } else {
        s.subrange(0, k)
    };
    let args = if k == -1 {
        Seq::<Seq<char>>::empty()
    } else {
        spec_split_list(s.subrange(k + 1, s.len() as int))
    };
    let name = spec_trim(func);
    if spec_keyword_eq(name, "initialsumupperbound"@) {
        spec_depth_bound_args(args, true)
    } else if spec_keyword_eq(name, "initialsumlowerbound"@) {
        spec_depth_bound_args(args, false)
    } else if spec_keyword_eq(name, "midsumupperbound"@) {
        spec_mid_sum_args(args)
    } else if spec_keyword_eq(name, "bounds"@) {
        spec_bounds_args(args)
    } else {
        Err(ParseError::UnknownKeyword)
    }
}

/// Arguments of the two initial-sum restrictions: a depth and a bound.
pub open spec fn spec_depth_bound_args(args: Seq<Seq<char>>, upper: bool)
    -> Result<Restriction, ParseError> {
    if args.len() == 2 {
        match (spec_parse_nat(args[0]), spec_parse_fixed(args[1])) {
            (Some(d), Some(b)) => if d <= usize::MAX {
                if upper {
                    Ok(Restriction::InitialSumUpperBound(d as usize, b as i64))
                } else {
                    Ok(Restriction::InitialSumLowerBound(d as usize, b as i64))
                }
            } else {
                Err(ParseError::BadArguments)
            },
            _ => Err(ParseError::BadArguments),
        }
    } else {
        Err(ParseError::BadArguments)
    }
}

/// Arguments of a mid-sum restriction: two depths and a bound.
pub open spec fn spec_mid_sum_args(args: Seq<Seq<char>>) -> Result<Restriction, ParseError> {
    if args.len() == 3 {
        match (spec_parse_nat(args[0]), spec_parse_nat(args[1]), spec_parse_fixed(args[2])) {
            (Some(s), Some(e), Some(b)) => if s <= usize::MAX && e <= usize::MAX {
                Ok(Restriction::MidSumUpperBound(s as usize, e as usize, b as i64))
            } else {
                Err(ParseError::BadArguments)
            },
            _ => Err(ParseError::BadArguments),
        }
    } else {
        Err(ParseError::BadArguments)
    }
}

/// Arguments of a coefficient-interval restriction: an index and the two
/// interval endpoints.
pub open spec fn spec_bounds_args(args: Seq<Seq<char>>) -> Result<Restriction, ParseError> {
    if args.len() == 3 {
        match (spec_parse_nat(args[0]), spec_parse_fixed(args[1]), spec_parse_fixed(args[2])) {
            (Some(i), Some(lb), Some(ub)) => if i <= usize::MAX {
                Ok(Restriction::Bounds(
                    i as usize,
                    Interval { lb: lb as i64, ub: ub as i64 },
                ))
            } else {
                Err(ParseError::BadArguments)
            },
            _ => Err(ParseError::BadArguments),
        }
    } else {
        Err(ParseError::BadArguments)
    }
}

impl Restriction {
    /// Reads one restriction from its textual `keyword(args...)` form.
    pub fn of_string(text: &str) -> (r: Result<Restriction, ParseError>)
        requires
            text.is_ascii(),
        ensures
            r == spec_restriction_of(text@),
    {
        proof {
            reveal_strlit("initialsumupperbound");
            reveal_strlit("initialsumlowerbound");
            reveal_strlit("midsumupperbound");
            reveal_strlit("bounds");
        }
        let (func, args) = parse_function_like(text);
        let name = trim(func);
        if keyword_is(name, "initialsumupperbound") {
            if args.len() != 2 {
                return Err(ParseError::BadArguments);
            }
            match (parse_usize(args[0]), parse_fixed(args[1])) {
                (Some(d), Some(b)) => Ok(Restriction::InitialSumUpperBound(d, b)),
                _ => Err(ParseError::BadArguments),
            }
        } else if keyword_is(name, "initialsumlowerbound") {
            if args.len() != 2 {
                return Err(ParseError::BadArguments);
            }
            match (parse_usize(args[0]), parse_fixed(args[1])) {
                (Some(d), Some(b)) => Ok(Restriction::InitialSumLowerBound(d, b)),
                _ => Err(ParseError::BadArguments),
            }
        } else if keyword_is(name, "midsumupperbound") {
            if args.len() != 3 {
                return Err(ParseError::BadArguments);
            }
            match (parse_usize(args[0]), parse_usize(args[1]), parse_fixed(args[2])) {
                (Some(s), Some(e), Some(b)) => Ok(Restriction::MidSumUpperBound(s, e, b)),
                _ => Err(ParseError::BadArguments),
            }
        } else if keyword_is(name, "bounds") {
            if args.len() != 3 {
                return Err(ParseError::BadArguments);
            }
            match (parse_usize(args[0]), parse_fixed(args[1]), parse_fixed(args[2])) {
                (Some(i), Some(lb), Some(ub)) => Ok(Restriction::Bounds(
                    i,
                    Interval { lb, ub },
                )),
                _ => Err(ParseError::BadArguments),
            }
        } else {
            Err(ParseError::UnknownKeyword)
        }
    }
}

} // verus!
