//! Text utilities for the line-oriented case files: splitting argument
//! lists on top-level commas, recognising `name(arg, ...)` shapes, and
//! parsing integers and plain decimal numbers into exact fixed-point.

use vstd::prelude::*;
use crate::fixed::SCALE;

verus! {

/// The whitespace characters that trimming removes.
pub open spec fn is_space_char(c: char) -> bool {
    c == ' ' || c == '\t' || c == '\n' || c == '\r'
}

fn is_space(c: char) -> (r: bool)
    ensures
        r == is_space_char(c),
{
    c == ' ' || c == '\t' || c == '\n' || c == '\r'
}

/// Parenthesis depth after reading one character at depth `d`.
pub open spec fn depth_step(c: char, d: int) -> int {
    if c == '(' {
        d + 1
    } else if c == ')' {
        d - 1
    } else {
        d
    }
}

/// Index of the first comma at parenthesis depth zero, scanning from `i`
/// with current depth `d`; `-1` if there is none.
pub open spec fn spec_find_comma(s: Seq<char>, i: int, d: int) -> int
    decreases s.len() - i when 0 <= i <= s.len()
{
    if i >= s.len() {
        -1
    } else if s[i] == ',' && d == 0 {
        i
    } else {
        spec_find_comma(s, i + 1, depth_step(s[i], d))
    }
}

proof fn lemma_find_comma_range(s: Seq<char>, i: int, d: int)
    requires
        0 <= i <= s.len(),
    ensures
        spec_find_comma(s, i, d) == -1 || i <= spec_find_comma(s, i, d) < s.len(),
    decreases s.len() - i,
{
    if i < s.len() && !(s[i] == ',' && d == 0) {
        lemma_find_comma_range(s, i + 1, depth_step(s[i], d));
    }
}

/// First comma of `text` that stands outside all parentheses.
fn find_top_comma(text: &str) -> (r: Option<usize>)
    requires
        text.is_ascii(),
    ensures
        match r {
            Some(k) => k == spec_find_comma(text@, 0, 0) && k < text@.len(),
            None => spec_find_comma(text@, 0, 0) == -1,
        },
{
    let len = text.unicode_len();
    let mut i: usize = 0;
    let mut d: i128 = 0;
    while i < len
        invariant
            text.is_ascii(),
            len == text@.len(),
            0 <= i <= len,
            -(i as int) <= d <= i as int,
            spec_find_comma(text@, 0, 0) == spec_find_comma(text@, i as int, d as int),
        decreases len - i,
    {
        let c = text.get_char(i);
        if c == ',' && d == 0 {
            proof {
                lemma_find_comma_range(text@, i as int, d as int);
            }
            return Some(i);
        }
        if c == '(' {
            d = d + 1;
        } else if c == ')' {
            d = d - 1;
        }
        i = i + 1;
    }
    None
}

/// `s` with leading whitespace removed.
pub open spec fn spec_trim_front(s: Seq<char>) -> Seq<char>
    decreases s.len(),
{
    if s.len() > 0 && is_space_char(s[0]) {
        spec_trim_front(s.subrange(1, s.len() as int))
    } else {
        s
    }
}

/// `s` with trailing whitespace removed.
pub open spec fn spec_trim_back(s: Seq<char>) -> Seq<char>
    decreases s.len(),
{
    if s.len() > 0 && is_space_char(s[s.len() - 1]) {
        spec_trim_back(s.take(s.len() - 1))
    } else {
        s
    }
}

/// `s` with every trailing `)` removed.
pub open spec fn spec_strip_rparens(s: Seq<char>) -> Seq<char>
    decreases s.len(),
{
    if s.len() > 0 && s[s.len() - 1] == ')' {
        spec_strip_rparens(s.take(s.len() - 1))
    } else {
        s
    }
}

/// Both-sided trimming.
pub open spec fn spec_trim(s: Seq<char>) -> Seq<char> {
    spec_trim_back(spec_trim_front(s))
}

/// How the last piece of a split argument list is cleaned: trimmed on both
/// sides, then stripped of the closing parentheses.
pub open spec fn spec_tail_piece(s: Seq<char>) -> Seq<char> {
    spec_strip_rparens(spec_trim(s))
}

/// Remove leading and trailing whitespace.
pub fn trim(text: &str) -> (r: &str)
    requires
        text.is_ascii(),
    ensures
        r@ == spec_trim(text@),
        r.is_ascii(),
{
    let len = text.unicode_len();
    proof {
        assert(text@.subrange(0, len as int) =~= text@);
    }
    let mut start: usize = 0;
    while start < len && is_space(text.get_char(start))
        invariant
            text.is_ascii(),
            len == text@.len(),
            0 <= start <= len,
            spec_trim_front(text@) == spec_trim_front(text@.subrange(start as int, len as int)),
        decreases len - start,
    {
        proof {
            let tail = text@.subrange(start as int, len as int);
            assert(tail.subrange(1, tail.len() as int)
                =~= text@.subrange(start as int + 1, len as int));
        }
        start = start + 1;
    }
    proof {
        assert(spec_trim_front(text@) =~= text@.subrange(start as int, len as int));
    }
    let mut end: usize = len;
    while end > start && is_space(text.get_char(end - 1))
        invariant
            text.is_ascii(),
            len == text@.len(),
            0 <= start <= end <= len,
            spec_trim_back(spec_trim_front(text@))
                == spec_trim_back(text@.subrange(start as int, end as int)),
        decreases end,
    {
        proof {
            let cur = text@.subrange(start as int, end as int);
            assert(cur.take(cur.len() - 1) =~= text@.subrange(start as int, end as int - 1));
        }
        end = end - 1;
    }
    proof {
        assert(spec_trim_back(spec_trim_front(text@))
            =~= text@.subrange(start as int, end as int));
    }
    text.substring_ascii(start, end)
}

/// Trim `text` and strip its trailing closing parentheses.
fn tail_piece(text: &str) -> (r: &str)
    requires
        text.is_ascii(),
    ensures
        r@ == spec_tail_piece(text@),
        r.is_ascii(),
{
    let trimmed = trim(text);
    let ghost s0 = trimmed@;
    let len = trimmed.unicode_len();
    proof {
        assert(s0.subrange(0, len as int) =~= s0);
    }
    let mut end2: usize = len;
    while end2 > 0 && trimmed.get_char(end2 - 1) == ')'
        invariant
            trimmed.is_ascii(),
            trimmed@ == s0,
            len == s0.len(),
            0 <= end2 <= len,
            spec_strip_rparens(s0) == spec_strip_rparens(s0.subrange(0, end2 as int)),
        decreases end2,
    {
        proof {
            let cur = s0.subrange(0, end2 as int);
            assert(cur.take(cur.len() - 1) =~= s0.subrange(0, end2 as int - 1));
        }
        end2 = end2 - 1;
    }
    proof {
        assert(spec_strip_rparens(s0) =~= s0.subrange(0, end2 as int));
    }
    trimmed.substring_ascii(0, end2)
}

/// The pieces of `s` split at commas that stand outside all parentheses;
/// the last piece is trimmed and stripped of closing parentheses.
pub open spec fn spec_split_list(s: Seq<char>) -> Seq<Seq<char>>
    decreases s.len(),
{
    let k = spec_find_comma(s, 0, 0);
    if 0 <= k < s.len() {
        seq![s.subrange(0, k)] + spec_split_list(s.subrange(k + 1, s.len() as int))
    } else {
        seq![spec_tail_piece(s)]
    }
}

/// Splits an argument list on the commas that stand outside parentheses.
/// The final piece is trimmed and its closing parentheses are removed, so
/// the tail of a `name(a, b)` call comes out clean.
pub fn split_list(text: &str) -> (r: Vec<&str>)
    requires
        text.is_ascii(),
    ensures
        r@.map_values(|p: &str| p@) == spec_split_list(text@),
        forall|j: int| 0 <= j < r@.len() ==> (#[trigger] r@[j]).is_ascii(),
{
    let mut out: Vec<&str> = Vec::new();
    let mut rest: &str = text;
    loop
        invariant_except_break
            out@.map_values(|p: &str| p@) + spec_split_list(rest@) =~= spec_split_list(text@),
        invariant
            rest.is_ascii(),
            forall|j: int| 0 <= j < out@.len() ==> (#[trigger] out@[j]).is_ascii(),
        ensures
            out@.map_values(|p: &str| p@) =~= spec_split_list(text@),
            forall|j: int| 0 <= j < out@.len() ==> (#[trigger] out@[j]).is_ascii(),
        decreases rest@.len(),
    {
        let rest_len = rest.unicode_len();
        match find_top_comma(rest) {
            Some(k) => {
                let ghost prev = rest@;
                let ghost prev_out = out@;
                let piece = rest.substring_ascii(0, k);
                out.push(piece);
                rest = rest.substring_ascii(k + 1, rest_len);
                proof {
                    assert(spec_split_list(prev)
                        =~= seq![prev.subrange(0, k as int)] + spec_split_list(rest@));
                    assert(out@.map_values(|p: &str| p@)
                        =~= prev_out.map_values(|p: &str| p@) + seq![prev.subrange(0, k as int)]);
                }
            },
            None => {
                let piece = tail_piece(rest);
                out.push(piece);
                proof {
                    assert(spec_split_list(rest@) =~= seq![spec_tail_piece(rest@)]);
                }
                break;
            },
        }
    }
    out
}

/// Index of the first occurrence of `c` in `s` scanning from `i`; `-1` if
/// there is none.
pub open spec fn spec_find_char(s: Seq<char>, c: char, i: int) -> int
    decreases s.len() - i when 0 <= i <= s.len()
{
    if i >= s.len() {
        -1
    } else if s[i] == c {
        i
    } else {
        spec_find_char(s, c, i + 1)
    }
}

proof fn lemma_find_char_range(s: Seq<char>, c: char, i: int)
    requires
        0 <= i <= s.len(),
    ensures
        spec_find_char(s, c, i) == -1 || i <= spec_find_char(s, c, i) < s.len(),
    decreases s.len() - i,
{
    if i < s.len() && s[i] != c {
        lemma_find_char_range(s, c, i + 1);
    }
}

/// First occurrence of `c` in `text`.
pub(crate) fn find_char(text: &str, c: char) -> (r: Option<usize>)
    requires
        text.is_ascii(),
    ensures
        match r {
            Some(k) => k == spec_find_char(text@, c, 0) && k < text@.len(),
            None => spec_find_char(text@, c, 0) == -1,
        },
{
    let len = text.unicode_len();
    let mut i: usize = 0;
    while i < len
        invariant
            text.is_ascii(),
            len == text@.len(),
            0 <= i <= len,
            spec_find_char(text@, c, 0) == spec_find_char(text@, c, i as int),
        decreases len - i,
    {
        if text.get_char(i) == c {
            proof {
                lemma_find_char_range(text@, c, i as int);
            }
            return Some(i);
        }
        i = i + 1;
    }
    None
}

/// Breaks `name(args...)` into the name and the split argument list; text
/// without an opening parenthesis is a bare name with no arguments.
pub fn parse_function_like(text: &str) -> (r: (&str, Vec<&str>))
    requires
        text.is_ascii(),
    ensures
        ({
            let k = spec_find_char(text@, '(', 0);
            if k == -1 {
                r.0@ == text@ && r.1@.len() == 0
            } else {
                r.0@ == text@.subrange(0, k)
                    && r.1@.map_values(|p: &str| p@)
                        == spec_split_list(text@.subrange(k + 1, text@.len() as int))
            }
        }),
        r.0.is_ascii(),
        forall|j: int| 0 <= j < r.1@.len() ==> (#[trigger] r.1@[j]).is_ascii(),
{
    let len = text.unicode_len();
    match find_char(text, '(') {
        Some(k) => {
            let name = text.substring_ascii(0, k);
            let args_str = text.substring_ascii(k + 1, len);
            let args = split_list(args_str);
            (name, args)
        },
        None => (text, Vec::new()),
    }
}

pub open spec fn is_digit(c: char) -> bool {
    48 <= c as u32 <= 57
}

pub open spec fn digit_val(c: char) -> int {
    c as u32 - 48
}

pub open spec fn all_digits(s: Seq<char>) -> bool {
    forall|i: int| 0 <= i < s.len() ==> is_digit(#[trigger] s[i])
}

/// The number a digit string denotes, most significant digit first.
pub open spec fn digits_val(s: Seq<char>) -> int
    decreases s.len(),
{
    if s.len() == 0 {
        0
    } else {
        digits_val(s.take(s.len() - 1)) * 10 + digit_val(s[s.len() - 1])
    }
}

proof fn lemma_digits_val_nonneg(s: Seq<char>)
    requires
        all_digits(s),
    ensures
        digits_val(s) >= 0,
    decreases s.len(),
{
    if s.len() > 0 {
        assert(all_digits(s.take(s.len() - 1)));
        lemma_digits_val_nonneg(s.take(s.len() - 1));
    }
}

/// A digit string is worth at least any of its prefixes.
proof fn lemma_digits_val_prefix(s: Seq<char>, j: int)
    requires
        all_digits(s),
        0 <= j <= s.len(),
    ensures
        digits_val(s.take(j)) <= digits_val(s),
    decreases s.len() - j,
{
    if j < s.len() {
        let t = s.take(s.len() - 1);
        assert(all_digits(t));
        assert(t.take(j) =~= s.take(j));
        lemma_digits_val_prefix(t, j);
        lemma_digits_val_nonneg(t);
        assert(is_digit(s[s.len() - 1]));
    } else {
        assert(s.take(j) =~= s);
    }
}

/// A digit string of length `k` stays below `10^k`.
proof fn lemma_digits_bound(s: Seq<char>)
    requires
        all_digits(s),
    ensures
        0 <= digits_val(s) < pow10(s.len()),
    decreases s.len(),
{
    if s.len() == 0 {
    } else {
        let t = s.take(s.len() - 1);
        assert(all_digits(t));
        lemma_digits_bound(t);
        assert(digit_val(s[s.len() - 1]) <= 9);
    }
}

pub open spec fn pow10(k: nat) -> int
    decreases k,
{
    if k == 0 {
        1
    } else {
        10 * pow10((k - 1) as nat)
    }
}

proof fn lemma_pow10_bounds(k: nat)
    requires
        k <= 12,
    ensures
        1 <= pow10(k) <= 1_000_000_000_000,
{
    reveal_with_fuel(pow10, 14);
}

proof fn lemma_pow10_mul(a: nat, b: nat)
    ensures
        pow10(a) * pow10(b) == pow10(a + b),
    decreases a,
{
    if a == 0 {
    } else {
        lemma_pow10_mul((a - 1) as nat, b);
        assert(10 * pow10((a - 1) as nat) * pow10(b) == 10 * (pow10((a - 1) as nat) * pow10(b)))
            by (nonlinear_arith);
    }
}

/// Trimming is idempotent: a trimmed string trims to itself.
proof fn lemma_trim_front_head(s: Seq<char>)
    ensures
        spec_trim_front(s).len() > 0 ==> !is_space_char(spec_trim_front(s)[0]),
    decreases s.len(),
{
    if s.len() > 0 && is_space_char(s[0]) {
        lemma_trim_front_head(s.subrange(1, s.len() as int));
    }
}

proof fn lemma_trim_back_props(s: Seq<char>)
    ensures
        spec_trim_back(s).len() <= s.len(),
        spec_trim_back(s) == s.take(spec_trim_back(s).len() as int),
        spec_trim_back(s).len() > 0
            ==> !is_space_char(spec_trim_back(s)[spec_trim_back(s).len() - 1]),
    decreases s.len(),
{
    if s.len() > 0 && is_space_char(s[s.len() - 1]) {
        let t = s.take(s.len() - 1);
        lemma_trim_back_props(t);
        let b = spec_trim_back(s);
        assert(b == spec_trim_back(t));
        assert(t.take(b.len() as int) =~= s.take(b.len() as int));
    } else {
        assert(s.take(s.len() as int) =~= s);
    }
}

proof fn lemma_trim_idempotent(s: Seq<char>)
    ensures
        spec_trim(spec_trim(s)) == spec_trim(s),
{
    let a = spec_trim_front(s);
    let b = spec_trim_back(a);
    lemma_trim_front_head(s);
    lemma_trim_back_props(a);
    if b.len() > 0 {
        assert(b[0] == a.take(b.len() as int)[0]);
        assert(b[0] == a[0]);
        assert(spec_trim_front(b) == b);
        lemma_trim_back_props(b);
        assert(spec_trim_back(b) == b.take(b.len() as int));
        assert(b.take(b.len() as int) =~= b);
    }
}

/// Reads a raw digit string (no sign, no surrounding space); overflow past
/// `u128` is a parse failure.
fn digits_to_u128(text: &str) -> (r: Option<u128>)
    requires
        text.is_ascii(),
    ensures
        r == if text@.len() > 0 && all_digits(text@) && digits_val(text@) <= u128::MAX {
            Some(digits_val(text@) as u128)
        } else {
            None::<u128>
        },
        all_digits(text@) ==> digits_val(text@) >= 0,
{
    proof {
        if all_digits(text@) {
            lemma_digits_val_nonneg(text@);
        }
    }
    let len = text.unicode_len();
    if len == 0 {
        return None;
    }
    let mut acc: u128 = 0;
    let mut i: usize = 0;
    while i < len
        invariant
            text.is_ascii(),
            len == text@.len(),
            0 <= i <= len,
            all_digits(text@.take(i as int)),
            acc == digits_val(text@.take(i as int)),
        decreases len - i,
    {
        let c = text.get_char(i);
        let u = c as u32;
        if u < 48 || u > 57 {
            assert(!is_digit(text@[i as int]));
            return None;
        }
        let d = (u - 48) as u128;
        if acc > (u128::MAX - d) / 10 {
            proof {
                let p = text@.take(i as int + 1);
                assert(p.take(p.len() - 1) =~= text@.take(i as int));
                assert(digits_val(p) > u128::MAX) by {
                    vstd::arithmetic::div_mod::lemma_fundamental_div_mod(
                        (u128::MAX - d) as int, 10);
                }
                if all_digits(text@) {
                    assert(text@.take(len as int) =~= text@);
                    lemma_digits_val_prefix(text@, i as int + 1);
                }
            }
            return None;
        }
        proof {
            let p = text@.take(i as int + 1);
            assert(p.take(p.len() - 1) =~= text@.take(i as int));
            assert(acc * 10 + d <= u128::MAX) by {
                vstd::arithmetic::div_mod::lemma_fundamental_div_mod((u128::MAX - d) as int, 10);
            }
        }
        acc = acc * 10 + d;
        i = i + 1;
    }
    proof {
        assert(text@.take(len as int) =~= text@);
    }
    Some(acc)
}

/// The unbounded value of `text` read as a trimmed unsigned integer, or
/// nothing when the trimmed text is not a plain digit string.
pub open spec fn spec_parse_nat(s: Seq<char>) -> Option<int> {
    let t = spec_trim(s);
    if t.len() > 0 && all_digits(t) {
        Some(digits_val(t))
    } else {
        None
    }
}

/// Parses a trimmed digit string; overflow past `u128` is a parse failure.
pub fn parse_u128(text: &str) -> (r: Option<u128>)
    requires
        text.is_ascii(),
    ensures
        match spec_parse_nat(text@) {
            Some(v) => v >= 0 && r == if v <= u128::MAX {
                Some(v as u128)
            } else {
                None::<u128>
            },
            None => r is None,
        },
{
    let t = trim(text);
    digits_to_u128(t)
}

/// Parses a trimmed digit string into a `usize` table index or size.
pub fn parse_usize(text: &str) -> (r: Option<usize>)
    requires
        text.is_ascii(),
    ensures
        match spec_parse_nat(text@) {
            Some(v) => v >= 0 && r == if v <= usize::MAX {
                Some(v as usize)
            } else {
                None::<usize>
            },
            None => r is None,
        },
{
    match parse_u128(text) {
        Some(v) => {
            if v <= usize::MAX as u128 {
                Some(v as usize)
            } else {
                None
            }
        },
        None => None,
    }
}

/// The value of `text` read as a trimmed integer with an optional minus
/// sign directly in front of the digits.
pub open spec fn spec_parse_int(s: Seq<char>) -> Option<int> {
    let t = spec_trim(s);
    let neg = t.len() > 0 && t[0] == '-';
    let body = if neg {
        t.subrange(1, t.len() as int)
    } else {
        t
    };
    if body.len() > 0 && all_digits(body) {
        Some(if neg { -digits_val(body) } else { digits_val(body) })
    } else {
        None
    }
}

/// Parses a signed integer coefficient; values outside `i32` fail.
pub fn parse_i32(text: &str) -> (r: Option<i32>)
    requires
        text.is_ascii(),
    ensures
        match spec_parse_int(text@) {
            Some(v) => r == if i32::MIN <= v <= i32::MAX {
                Some(v as i32)
            } else {
                None::<i32>
            },
            None => r is None,
        },
{
    let t = trim(text);
    let len = t.unicode_len();
    if len > 0 && t.get_char(0) == '-' {
        let rest = t.substring_ascii(1, len);
        match digits_to_u128(rest) {
            Some(v) => {
                if v <= 0x8000_0000u128 {
                    proof {
                        lemma_digits_val_nonneg(rest@);
                    }
                    Some((-(v as i64)) as i32)
                } else {
                    None
                }
            },
            None => None,
        }
    } else {
        match digits_to_u128(t) {
            Some(v) => {
                if v <= i32::MAX as u128 {
                    Some(v as i32)
                } else {
                    None
                }
            },
            None => None,
        }
    }
}

/// The value of `text` read as a plain decimal number, in fixed-point
/// units of `1 / SCALE`: an optional minus sign, an integer part, and an
/// optional fractional part of at most twelve digits, so every accepted
/// number is represented exactly.  Magnitudes beyond `i64` fail.
pub open spec fn spec_parse_fixed(s: Seq<char>) -> Option<int> {
    let t = spec_trim(s);
    let neg = t.len() > 0 && t[0] == '-';
    let body = if neg {
        t.subrange(1, t.len() as int)
    } else {
        t
    };
    let k = spec_find_char(body, '.', 0);
    let ip = if k == -1 {
        body
    } else {
        body.subrange(0, k)
    };
    let fp = if k == -1 {
        Seq::<char>::empty()
    } else {
        body.subrange(k + 1, body.len() as int)
    };
    if (ip.len() > 0 || fp.len() > 0) && all_digits(ip) && all_digits(fp) && fp.len() <= 12 {
        let mag = digits_val(ip) * SCALE + digits_val(fp) * pow10((12 - fp.len()) as nat);
        if mag <= i64::MAX {
            Some(if neg { -mag } else { mag })
        } else {
            None
        }
    } else {
        None
    }
}

/// Parses a plain decimal number into exact fixed-point units.
pub fn parse_fixed(text: &str) -> (r: Option<i64>)
    requires
        text.is_ascii(),
    ensures
        match spec_parse_fixed(text@) {
            Some(v) => r == Some(v as i64) && i64::MIN <= v <= i64::MAX,
            None => r is None,
        },
{
    let t = trim(text);
    let len = t.unicode_len();
    let neg = len > 0 && t.get_char(0) == '-';
    let body = if neg {
        t.substring_ascii(1, len)
    } else {
        t
    };
    let body_len = body.unicode_len();
    let (ip, fp) = match find_char(body, '.') {
        Some(k) => {
            (body.substring_ascii(0, k), body.substring_ascii(k + 1, body_len))
        },
        None => {
            proof {
                assert(body@.subrange(0, body@.len() as int) =~= body@);
            }
            (body.substring_ascii(0, body_len), body.substring_ascii(body_len, body_len))
        },
    };
    let ip_len = ip.unicode_len();
    let fp_len = fp.unicode_len();
    if ip_len == 0 && fp_len == 0 {
        return None;
    }
    if fp_len > 12 {
        return None;
    }
    proof {
        if all_digits(ip@) && all_digits(fp@) {
            lemma_digits_val_nonneg(ip@);
            lemma_digits_val_nonneg(fp@);
            lemma_pow10_bounds((12 - fp@.len()) as nat);
            assert(digits_val(ip@) * SCALE >= digits_val(ip@)) by (nonlinear_arith)
                requires digits_val(ip@) >= 0 && (SCALE as int) >= 1;
            assert(digits_val(fp@) * pow10((12 - fp@.len()) as nat) >= digits_val(fp@))
                by (nonlinear_arith)
                requires digits_val(fp@) >= 0 && pow10((12 - fp@.len()) as nat) >= 1;
        }
    }
    let ip_val = if ip_len == 0 {
        0u128
    } else {
        match digits_to_u128(ip) {
            Some(v) => v,
            None => {
                return None;
            },
        }
    };
    let fp_val = if fp_len == 0 {
        0u128
    } else {
        match digits_to_u128(fp) {
            Some(v) => v,
            None => {
                return None;
            },
        }
    };
    let mut scale_rest: u128 = 1;
    let mut j: usize = fp_len;
    while j < 12
        invariant
            fp_len <= j <= 12,
            scale_rest == pow10((j - fp_len) as nat),
            1 <= scale_rest <= 1_000_000_000_000u128,
        decreases 12 - j,
    {
        proof {
            lemma_pow10_bounds((j + 1 - fp_len) as nat);
        }
        scale_rest = scale_rest * 10;
        j = j + 1;
    }
    if ip_val > ((i64::MAX as u128) / (SCALE as u128)) {
        proof {
            lemma_digits_val_nonneg(fp@);
            lemma_pow10_bounds((12 - fp@.len()) as nat);
            lemma_mag_overflow(digits_val(ip@), digits_val(fp@), (12 - fp@.len()) as nat);
        }
        return None;
    }
    proof {
        lemma_digits_bound(fp@);
        lemma_pow10_mul(fp@.len(), (12 - fp@.len()) as nat);
        lemma_pow10_bounds(12);
        assert(digits_val(fp@) * pow10((12 - fp@.len()) as nat)
            < pow10(fp@.len()) * pow10((12 - fp@.len()) as nat)) by (nonlinear_arith)
            requires
                digits_val(fp@) >= 0
                    && digits_val(fp@) < pow10(fp@.len())
                    && pow10((12 - fp@.len()) as nat) >= 1;
        vstd::arithmetic::div_mod::lemma_fundamental_div_mod(i64::MAX as int, SCALE as int);
        vstd::arithmetic::div_mod::lemma_mod_bound(i64::MAX as int, SCALE as int);
        assert(ip_val * (SCALE as u128) <= ((i64::MAX as u128) / (SCALE as u128)) * (SCALE as u128))
            by (nonlinear_arith)
            requires ip_val <= (i64::MAX as u128) / (SCALE as u128) && SCALE > 0;
    }
    let mag128 = ip_val * (SCALE as u128) + fp_val * scale_rest;
    if mag128 > i64::MAX as u128 {
        return None;
    }
    let mag = mag128 as i64;
    if neg {
        Some(-mag)
    } else {
        Some(mag)
    }
}

/// If the integer part alone exceeds `i64::MAX / SCALE`, the whole
/// magnitude exceeds `i64::MAX`.
proof fn lemma_mag_overflow(ipv: int, fpv: int, k: nat)
    requires
        ipv > (i64::MAX as int) / (SCALE as int),
        fpv >= 0,
        k <= 12,
    ensures
        ipv * SCALE + fpv * pow10(k) > i64::MAX,
{
    vstd::arithmetic::div_mod::lemma_fundamental_div_mod(i64::MAX as int, SCALE as int);
    vstd::arithmetic::div_mod::lemma_mod_bound(i64::MAX as int, SCALE as int);
    let q = (i64::MAX as int) / (SCALE as int);
    assert(ipv * SCALE >= (q + 1) * SCALE) by (nonlinear_arith)
        requires ipv >= q + 1 && (SCALE as int) > 0;
    assert((q + 1) * SCALE == q * SCALE + SCALE) by (nonlinear_arith);
    lemma_pow10_bounds(k);
    assert(fpv * pow10(k) >= 0) by (nonlinear_arith)
        requires fpv >= 0 && pow10(k) >= 1;
}

} // verus!
