//! Text forms of the DP table and of case descriptions.
//!
//! The table serializes as a header line `coef_gran,thresh_gran,max_bound`
//! followed by one comma-separated line of fixed-point values per
//! coefficient bin.  Serialization carries its own round-trip guarantee:
//! parsing the produced lines yields exactly the table they came from, so
//! a persisted table reproduces identical lookups.

use vstd::prelude::*;
use crate::fixed::SCALE;
use crate::util::{
    is_digit, digit_val, all_digits, digits_val, spec_split_list, spec_find_comma,
    spec_find_char, spec_tail_piece, spec_trim, spec_trim_front, spec_trim_back,
    spec_strip_rparens, spec_parse_nat, spec_parse_int, spec_parse_fixed,
    parse_u128, parse_usize, parse_i32, parse_fixed, split_list, parse_function_like,
    trim, is_space_char,
};
use crate::prawitz::{Bounder, spec_table_ok};
use crate::restriction::{
    Interval, Restriction, ParseError, spec_restriction_of, spec_keyword_eq, keyword_is,
};
use crate::case::{Case, Hypothesis};

verus! {

broadcast use vstd::utf8::is_ascii_chars_nat_bound;

/// One digit as a string.
fn digit_str(d: u64) -> (r: &'static str)
    requires
        d < 10,
    ensures
        r@.len() == 1,
        is_digit(r@[0]),
        digit_val(r@[0]) == d,
        r.is_ascii(),
{
    proof {
        reveal_strlit("0");
        reveal_strlit("1");
        reveal_strlit("2");
        reveal_strlit("3");
        reveal_strlit("4");
        reveal_strlit("5");
        reveal_strlit("6");
        reveal_strlit("7");
        reveal_strlit("8");
        reveal_strlit("9");
    }
    if d == 0 {
        "0"
    } else if d == 1 {
        "1"
    } else if d == 2 {
        "2"
    } else if d == 3 {
        "3"
    } else if d == 4 {
        "4"
    } else if d == 5 {
        "5"
    } else if d == 6 {
        "6"
    } else if d == 7 {
        "7"
    } else if d == 8 {
        "8"
    } else {
        "9"
    }
}

/// The number the digits `ds[j..]` denote when `ds[len - 1]` is the most
/// significant digit.
pub open spec fn ds_tail_val(ds: Seq<u64>, j: int) -> int
    decreases ds.len() - j when 0 <= j <= ds.len()
{
    if j >= ds.len() {
        0
    } else {
        ds_tail_val(ds, j + 1) * 10 + ds[j]
    }
}

proof fn lemma_ds_tail_val_push(ds: Seq<u64>, d: u64, j: int, p: int)
    requires
        0 <= j <= ds.len(),
        p == vstd::arithmetic::power::pow(10, (ds.len() - j) as nat),
    ensures
        ds_tail_val(ds.push(d), j) == ds_tail_val(ds, j) + d * p,
    decreases ds.len() - j,
{
    let e = ds.push(d);
    if j == ds.len() {
        assert(p == 1) by {
            vstd::arithmetic::power::lemma_pow0(10);
        }
        assert(ds_tail_val(e, j) == ds_tail_val(e, j + 1) * 10 + e[j]);
        assert(ds_tail_val(e, j + 1) == 0);
        assert(ds_tail_val(ds, j) == 0);
        assert(d * 1 == d) by (nonlinear_arith);
    } else {
        lemma_ds_tail_val_push(
            ds, d, j + 1, vstd::arithmetic::power::pow(10, (ds.len() - j - 1) as nat));
        assert(p == 10 * vstd::arithmetic::power::pow(10, (ds.len() - j - 1) as nat)) by {
            vstd::arithmetic::power::lemma_pow_adds(10, 1, (ds.len() - j - 1) as nat);
            vstd::arithmetic::power::lemma_pow1(10);
        }
        assert(e[j] == ds[j]);
        assert((ds_tail_val(ds, j + 1) + d * vstd::arithmetic::power::pow(
            10, (ds.len() - j - 1) as nat)) * 10
            == ds_tail_val(ds, j + 1) * 10 + d * (10 * vstd::arithmetic::power::pow(
                10, (ds.len() - j - 1) as nat))) by (nonlinear_arith);
    }
}

/// Builds the decimal digit string of `n`.
pub fn int_to_string(n: u64) -> (r: String)
    ensures
        r@.len() >= 1,
        all_digits(r@),
        digits_val(r@) == n,
        r.is_ascii(),
{
    if n == 0 {
        let z = digit_str(0);
        let mut s = String::new();
        s.append(z);
        proof {
            assert(s@ =~= z@);
            assert(s@.take(0) =~= Seq::<char>::empty());
            assert(digits_val(Seq::<char>::empty()) == 0);
            assert(digits_val(s@) == digits_val(s@.take(0)) * 10 + digit_val(s@[0]));
        }
        return s;
    }
    let mut ds: Vec<u64> = Vec::new();
    let mut m: u64 = n;
    proof {
        vstd::arithmetic::power::lemma_pow0(10);
    }
    while m > 0
        invariant
            0 <= m,
            n == m * vstd::arithmetic::power::pow(10, ds@.len()) + ds_tail_val(ds@, 0),
            forall|i: int| 0 <= i < ds@.len() ==> (#[trigger] ds@[i]) < 10,
            ds_tail_val(ds@, 0) >= 0,
            m == 0 ==> ds@.len() >= 1,
        decreases m,
    {
        let d = m % 10;
        let ghost p = vstd::arithmetic::power::pow(10, ds@.len());
        proof {
            vstd::arithmetic::power::lemma_pow_positive(10, ds@.len());
            lemma_ds_tail_val_push(ds@, d, 0, p);
            vstd::arithmetic::div_mod::lemma_fundamental_div_mod(m as int, 10);
            assert((m / 10) * (10 * p) == ((m / 10) * 10) * p
                && (10 * (m / 10) + m % 10) * p == ((m / 10) * 10) * p + (m % 10) * p)
                by (nonlinear_arith);
            assert(vstd::arithmetic::power::pow(10, ds@.len() + 1) == 10 * p) by {
                vstd::arithmetic::power::lemma_pow_adds(10, 1, ds@.len());
                vstd::arithmetic::power::lemma_pow1(10);
            }
            assert(ds_tail_val(ds@, 0) >= 0 && d * p >= 0) by (nonlinear_arith)
                requires ds_tail_val(ds@, 0) >= 0 && d as int >= 0 && p >= 1;
        }
        ds.push(d);
        m = m / 10;
    }
    let mut s = String::new();
    let mut j: usize = ds.len();
    proof {
        vstd::arithmetic::power::lemma_pow_positive(10, ds@.len());
        assert(n == ds_tail_val(ds@, 0)) by {
            assert(m * vstd::arithmetic::power::pow(10, ds@.len()) == 0) by (nonlinear_arith)
                requires m == 0;
        }
        assert(s@ =~= Seq::<char>::empty());
        assert(digits_val(s@) == 0);
    }
    while j > 0
        invariant
            0 <= j <= ds@.len(),
            forall|i: int| 0 <= i < ds@.len() ==> (#[trigger] ds@[i]) < 10,
            all_digits(s@),
            s@.len() == ds@.len() - j,
            digits_val(s@) == ds_tail_val(ds@, j as int),
            s.is_ascii(),
        decreases j,
    {
        j = j - 1;
        let ghost pre = s@;
        let c = digit_str(ds[j]);
        s.append(c);
        proof {
            assert(s@ =~= pre + c@);
            assert(s@.take(s@.len() - 1) =~= pre);
            assert(s@[s@.len() - 1] == c@[0]);
            assert(digits_val(s@) == digits_val(pre) * 10 + digit_val(c@[0]));
            broadcast use vstd::utf8::is_ascii_chars_concat;
            assert(vstd::utf8::is_ascii_chars(s@)) by {
                assert(s@ =~= pre + c@);
            }
        }
    }
    proof {
        assert(ds@.len() >= 1);
    }
    s
}


/// Digit strings joined by commas, first piece first.
pub open spec fn spec_join_commas(pieces: Seq<Seq<char>>) -> Seq<char>
    decreases pieces.len(),
{
    if pieces.len() == 0 {
        Seq::empty()
    } else if pieces.len() == 1 {
        pieces[0]
    } else {
        pieces[0] + seq![','] + spec_join_commas(pieces.drop_first())
    }
}

proof fn lemma_join_push(pieces: Seq<Seq<char>>, p: Seq<char>)
    requires
        pieces.len() >= 1,
    ensures
        spec_join_commas(pieces.push(p))
            == spec_join_commas(pieces) + seq![','] + p,
    decreases pieces.len(),
{
    let e = pieces.push(p);
    if pieces.len() == 1 {
        assert(e.drop_first() =~= seq![p]);
        assert(spec_join_commas(seq![p]) == p);
        assert(e[0] == pieces[0]);
    } else {
        assert(e.drop_first() =~= pieces.drop_first().push(p));
        lemma_join_push(pieces.drop_first(), p);
        assert(spec_join_commas(e)
            =~= spec_join_commas(pieces) + seq![','] + p);
    }
}

/// A digit is no space, no parenthesis and no comma.
proof fn lemma_digit_plain(c: char)
    requires
        is_digit(c),
    ensures
        !is_space_char(c),
        c != ',',
        c != '(',
        c != ')',
{
}

/// A scan over digits at depth zero finds no comma before `k`, and stops
/// at `k` when a comma stands there.
proof fn lemma_find_comma_after_digits(s: Seq<char>, i: int, k: int)
    requires
        0 <= i <= k,
        k < s.len(),
        forall|j: int| i <= j < k ==> is_digit(#[trigger] s[j]),
        s[k] == ',',
    ensures
        spec_find_comma(s, i, 0) == k,
    decreases k - i,
{
    if i < k {
        lemma_digit_plain(s[i]);
        lemma_find_comma_after_digits(s, i + 1, k);
    }
}

/// A scan over an all-digit tail finds no comma at all.
proof fn lemma_find_comma_none_digits(s: Seq<char>, i: int)
    requires
        0 <= i <= s.len(),
        forall|j: int| i <= j < s.len() ==> is_digit(#[trigger] s[j]),
    ensures
        spec_find_comma(s, i, 0) == -1,
    decreases s.len() - i,
{
    if i < s.len() {
        lemma_digit_plain(s[i]);
        lemma_find_comma_none_digits(s, i + 1);
    }
}

/// Trimming and parenthesis-stripping leave a non-empty digit string
/// unchanged.
proof fn lemma_tail_piece_digits(s: Seq<char>)
    requires
        s.len() >= 1,
        all_digits(s),
    ensures
        spec_tail_piece(s) == s,
        spec_trim(s) == s,
{
    lemma_digit_plain(s[0]);
    lemma_digit_plain(s[s.len() - 1]);
    assert(spec_trim_front(s) == s);
    assert(spec_trim_back(s) == s);
    assert(spec_strip_rparens(s) == s);
}

/// Splitting a comma-joined list of non-empty digit strings gives back
/// exactly the pieces.
proof fn lemma_split_join(pieces: Seq<Seq<char>>)
    requires
        pieces.len() >= 1,
        forall|i: int| 0 <= i < pieces.len()
            ==> (#[trigger] pieces[i]).len() >= 1 && all_digits(pieces[i]),
    ensures
        spec_split_list(spec_join_commas(pieces)) == pieces,
    decreases pieces.len(),
{
    let s = spec_join_commas(pieces);
    if pieces.len() == 1 {
        assert(s == pieces[0]);
        lemma_find_comma_none_digits(s, 0);
        lemma_tail_piece_digits(s);
        assert(spec_split_list(s) =~= pieces);
    } else {
        let p0 = pieces[0];
        let rest = spec_join_commas(pieces.drop_first());
        assert(s == p0 + seq![','] + rest);
        assert(forall|j: int| 0 <= j < p0.len() ==> is_digit(#[trigger] s[j]));
        assert(s[p0.len() as int] == ',');
        lemma_find_comma_after_digits(s, 0, p0.len() as int);
        assert(s.subrange(0, p0.len() as int) =~= p0);
        assert(s.subrange(p0.len() as int + 1, s.len() as int) =~= rest);
        assert(forall|i: int| 0 <= i < pieces.drop_first().len()
            ==> (#[trigger] pieces.drop_first()[i]).len() >= 1
                && all_digits(pieces.drop_first()[i]));
        lemma_split_join(pieces.drop_first());
        assert(spec_split_list(s)
            =~= seq![p0] + spec_split_list(rest));
        assert(seq![p0] + pieces.drop_first() =~= pieces);
    }
}

/// Joins decimal forms of the values with commas; splitting the result
/// recovers one digit piece per value, each worth its value.
fn u64s_to_line(vals: &Vec<u64>) -> (r: String)
    requires
        vals@.len() >= 1,
    ensures
        spec_split_list(r@).len() == vals@.len(),
        forall|i: int| 0 <= i < vals@.len() ==> {
            let p = #[trigger] spec_split_list(r@)[i];
            all_digits(p) && p.len() >= 1 && digits_val(p) == vals@[i]
        },
        r.is_ascii(),
{
    let n = vals.len();
    let mut s: String = int_to_string(vals[0]);
    let ghost mut pieces: Seq<Seq<char>> = seq![s@];
    let comma = comma_str();
    let mut i: usize = 1;
    while i < n
        invariant
            1 <= i <= n,
            n == vals@.len(),
            comma@ =~= seq![','],
            comma.is_ascii(),
            pieces.len() == i,
            forall|k: int| 0 <= k < i ==> {
                let p = #[trigger] pieces[k];
                all_digits(p) && p.len() >= 1 && digits_val(p) == vals@[k]
            },
            s@ == spec_join_commas(pieces),
            s.is_ascii(),
        decreases n - i,
    {
        let ghost pre = s@;
        let ghost pre_pieces = pieces;
        let piece = int_to_string(vals[i]);
        s.append(comma);
        s.append(piece.as_str());
        proof {
            pieces = pieces.push(piece@);
            lemma_join_push(pre_pieces, piece@);
            assert(s@ =~= pre + comma@ + piece@);
            assert(s@ =~= spec_join_commas(pieces));
            broadcast use vstd::utf8::is_ascii_chars_concat;
            assert(vstd::utf8::is_ascii_chars(s@)) by {
                assert(s@ =~= (pre + comma@) + piece@);
                assert(vstd::utf8::is_ascii_chars(pre + comma@)) by {
                    assert(pre + comma@ =~= pre + comma@);
                }
            }
        }
        i = i + 1;
    }
    proof {
        lemma_split_join(pieces);
    }
    s
}

/// The comma separator.
fn comma_str() -> (r: &'static str)
    ensures
        r@ =~= seq![','],
        r.is_ascii(),
{
    proof {
        reveal_strlit(",");
    }
    ","
}

/// The value of a trimmed digit string, or `-1` when the text is not
/// one.
pub open spec fn nat_or_neg(s: Seq<char>) -> int {
    match spec_parse_nat(s) {
        Some(v) => v,
        None => -1,
    }
}

/// One table row read from a comma-separated line: exactly `cols` pieces,
/// each a number within `[0, SCALE]`.
pub open spec fn spec_row_ok(line: Seq<char>, cols: int) -> bool {
    let ps = spec_split_list(line);
    ps.len() == cols && forall|i: int| 0 <= i < cols
        ==> 0 <= nat_or_neg(#[trigger] ps[i]) <= SCALE
}

pub open spec fn spec_row_val(line: Seq<char>, cols: int) -> Seq<i64> {
    Seq::new(cols as nat, |i: int| nat_or_neg(spec_split_list(line)[i]) as i64)
}

/// What a serialized table means: the header line carries the three
/// shape parameters, and each following line carries one row of
/// fixed-point values.  Any deviation in shape or range is a parse
/// failure.
pub open spec fn spec_bounder_from_lines(lines: Seq<Seq<char>>)
    -> Option<(Seq<Seq<i64>>, int, int, int)> {
    if lines.len() < 1 {
        None
    } else {
        let hd = spec_split_list(lines[0]);
        if hd.len() != 3 {
            None
        } else {
            let cg = nat_or_neg(hd[0]);
            let tg = nat_or_neg(hd[1]);
            let mb = nat_or_neg(hd[2]);
            if 1 <= cg <= 100_000 && 1 <= tg <= 100_000 && 1 <= mb <= 300_000
                && lines.len() == cg + 1
                && (forall|a: int| 1 <= a <= cg ==> spec_row_ok(#[trigger] lines[a], 2 * mb)) {
                Some((
                    Seq::new(cg as nat, |a: int| spec_row_val(lines[a + 1], 2 * mb)),
                    cg,
                    tg,
                    mb,
                ))
            } else {
                None
            }
        }
    }
}

impl Bounder {
    /// The header line `coef_gran,thresh_gran,max_bound`.
    pub fn header_line(&self) -> (r: String)
        requires
            self.wf(),
        ensures
            spec_split_list(r@).len() == 3,
            nat_or_neg(spec_split_list(r@)[0]) == self.spec_coef_gran(),
            nat_or_neg(spec_split_list(r@)[1]) == self.spec_thresh_gran(),
            nat_or_neg(spec_split_list(r@)[2]) == self.spec_max_bound(),
            r.is_ascii(),
    {
        let mut vals: Vec<u64> = Vec::new();
        vals.push(self.coef_gran() as u64);
        vals.push(self.thresh_gran() as u64);
        vals.push(self.max_bound() as u64);
        let r = u64s_to_line(&vals);
        proof {
            assert(vals@.len() == 3);
            assert(forall|i: int| 0 <= i < 3 ==> {
                let p = #[trigger] spec_split_list(r@)[i];
                nat_or_neg(p) == vals@[i]
            }) by {
                assert forall|i: int| 0 <= i < 3 implies {
                    let p = #[trigger] spec_split_list(r@)[i];
                    nat_or_neg(p) == vals@[i]
                } by {
                    lemma_tail_piece_digits(spec_split_list(r@)[i]);
                }
            }
        }
        r
    }

    /// Serializes the table: the header line, then one comma-separated
    /// line per coefficient bin.  The contract is the round trip itself:
    /// parsing the produced lines yields exactly this table and shape, so
    /// a reloaded table answers every lookup identically.
    pub fn bounder_to_lines(&self) -> (r: Vec<String>)
        requires
            self.wf(),
        ensures
            spec_bounder_from_lines(r@.map_values(|s: String| s@)) == Some((
                self.table(),
                self.spec_coef_gran(),
                self.spec_thresh_gran(),
                self.spec_max_bound(),
            )),
            forall|i: int| 0 <= i < r@.len() ==> (#[trigger] r@[i]).is_ascii(),
    {
        proof {
            crate::prawitz::lemma_wf_table_ok(*self);
        }
        let mut lines: Vec<String> = Vec::new();
        lines.push(self.header_line());
        let rows = self.bounds();
        let cg = self.coef_gran();
        proof {
            assert(rows@.len() == self.table().len());
        }
        let mut a: usize = 0;
        while a < cg
            invariant
                self.wf(),
                spec_table_ok(
                    self.table(),
                    self.spec_coef_gran(),
                    self.spec_thresh_gran(),
                    self.spec_max_bound(),
                ),
                cg == self.spec_coef_gran(),
                rows@.map_values(|row: Vec<i64>| row@) == self.table(),
                rows@.len() == cg,
                0 <= a <= cg,
                lines@.len() == a + 1,
                spec_split_list(lines@[0]@).len() == 3,
                nat_or_neg(spec_split_list(lines@[0]@)[0]) == self.spec_coef_gran(),
                nat_or_neg(spec_split_list(lines@[0]@)[1]) == self.spec_thresh_gran(),
                nat_or_neg(spec_split_list(lines@[0]@)[2]) == self.spec_max_bound(),
                forall|t: int| 1 <= t <= a
                    ==> spec_row_ok(#[trigger] lines@[t]@, 2 * self.spec_max_bound())
                        && spec_row_val(lines@[t]@, 2 * self.spec_max_bound())
                            =~= self.table()[t - 1],
                forall|i: int| 0 <= i < lines@.len() ==> (#[trigger] lines@[i]).is_ascii(),
            decreases cg - a,
        {
            let row = &rows[a];
            let cols = row.len();
            proof {
                assert(self.table()[a as int] == rows@[a as int]@);
                assert(cols == 2 * self.spec_max_bound());
            }
            let mut vals: Vec<u64> = Vec::new();
            let mut y: usize = 0;
            while y < cols
                invariant
                    self.wf(),
                    spec_table_ok(
                        self.table(),
                        self.spec_coef_gran(),
                        self.spec_thresh_gran(),
                        self.spec_max_bound(),
                    ),
                    0 <= a < self.table().len(),
                    row@ == self.table()[a as int],
                    cols == row@.len(),
                    cols == 2 * self.spec_max_bound(),
                    0 <= y <= cols,
                    vals@.len() == y,
                    forall|i: int| 0 <= i < y
                        ==> (#[trigger] vals@[i]) == row@[i] as u64,
                decreases cols - y,
            {
                let v = row[y];
                vals.push(v as u64);
                y = y + 1;
            }
            let line = u64s_to_line(&vals);
            proof {
                assert forall|i: int| 0 <= i < cols
                    implies 0 <= nat_or_neg(#[trigger] spec_split_list(line@)[i]) <= SCALE
                        && nat_or_neg(spec_split_list(line@)[i]) == self.table()[a as int][i]
                    by {
                    lemma_tail_piece_digits(spec_split_list(line@)[i]);
                    assert(0 <= self.table()[a as int][i] <= SCALE);
                }
                assert(spec_row_ok(line@, 2 * self.spec_max_bound()));
                assert(spec_row_val(line@, 2 * self.spec_max_bound())
                    =~= self.table()[a as int]);
            }
            lines.push(line);
            a = a + 1;
        }
        proof {
            let lv = lines@.map_values(|s: String| s@);
            assert(lv.len() == cg + 1);
            assert(lv[0] == lines@[0]@);
            assert(forall|t: int| 1 <= t <= cg ==> #[trigger] lv[t] == lines@[t]@);
            assert(spec_split_list(lv[0]).len() == 3);
            assert(forall|t: int| 1 <= t <= cg
                ==> spec_row_ok(#[trigger] lv[t], 2 * self.spec_max_bound()));
            assert(Seq::new(cg as nat, |x: int| spec_row_val(lv[x + 1],
                2 * self.spec_max_bound())) =~= self.table());
        }
        lines
    }
}

/// Reads a serialized table back.  Succeeds exactly on line lists that
/// describe a valid table, and then reproduces that table and shape.
pub fn bounder_from_lines(lines: &Vec<String>) -> (r: Option<Bounder>)
    requires
        forall|i: int| 0 <= i < lines@.len() ==> (#[trigger] lines@[i]).is_ascii(),
    ensures
        match spec_bounder_from_lines(lines@.map_values(|s: String| s@)) {
            Some(t) => match r {
                Some(b) => b.wf() && b.table() == t.0 && b.spec_coef_gran() == t.1
                    && b.spec_thresh_gran() == t.2 && b.spec_max_bound() == t.3,
                None => false,
            },
            None => r is None,
        },
{
    let ghost lv = lines@.map_values(|s: String| s@);
    if lines.len() < 1 {
        return None;
    }
    let hd = split_list(lines[0].as_str());
    if hd.len() != 3 {
        proof {
            assert(spec_split_list(lv[0]).len() != 3);
        }
        return None;
    }
    let cg = match parse_usize(hd[0]) {
        Some(v) => v,
        None => {
            proof {
                assert(nat_or_neg(spec_split_list(lv[0])[0]) == -1
                    || nat_or_neg(spec_split_list(lv[0])[0]) > usize::MAX);
            }
            return None;
        },
    };
    let tg = match parse_usize(hd[1]) {
        Some(v) => v,
        None => {
            proof {
                assert(nat_or_neg(spec_split_list(lv[0])[1]) == -1
                    || nat_or_neg(spec_split_list(lv[0])[1]) > usize::MAX);
            }
            return None;
        },
    };
    let mb = match parse_usize(hd[2]) {
        Some(v) => v,
        None => {
            proof {
                assert(nat_or_neg(spec_split_list(lv[0])[2]) == -1
                    || nat_or_neg(spec_split_list(lv[0])[2]) > usize::MAX);
            }
            return None;
        },
    };
    if cg < 1 || cg > 100_000 || tg < 1 || tg > 100_000 || mb < 1 || mb > 300_000 {
        return None;
    }
    if lines.len() != cg + 1 {
        return None;
    }
    proof {
        assert(lines@[0]@ == lv[0]);
        assert(hd@.map_values(|p: &str| p@)[0] == spec_split_list(lv[0])[0]);
        assert(hd@[0]@ == spec_split_list(lv[0])[0]);
        assert(hd@[1]@ == spec_split_list(lv[0])[1]);
        assert(hd@[2]@ == spec_split_list(lv[0])[2]);
        assert(spec_parse_nat(hd@[0]@) == Some(cg as int));
        assert(nat_or_neg(spec_split_list(lv[0])[0]) == cg as int);
    }
    let cols = 2 * mb;
    let mut rows: Vec<Vec<i64>> = Vec::new();
    let mut a: usize = 1;
    while a <= cg
        invariant
            forall|i: int| 0 <= i < lines@.len() ==> (#[trigger] lines@[i]).is_ascii(),
            lv == lines@.map_values(|s: String| s@),
            lines@.len() == cg + 1,
            lv.len() == cg + 1,
            spec_split_list(lv[0]).len() == 3,
            nat_or_neg(spec_split_list(lv[0])[0]) == cg as int,
            nat_or_neg(spec_split_list(lv[0])[1]) == tg as int,
            nat_or_neg(spec_split_list(lv[0])[2]) == mb as int,
            1 <= cg <= 100_000,
            1 <= tg <= 100_000,
            1 <= mb <= 300_000,
            1 <= a <= cg + 1,
            cols == 2 * mb,
            rows@.len() == a - 1,
            forall|t: int| 1 <= t < a ==> spec_row_ok(#[trigger] lv[t], 2 * mb as int),
            forall|t: int| 1 <= t < a
                ==> (#[trigger] rows@[t - 1])@ == spec_row_val(lv[t], 2 * mb as int),
        decreases cg + 1 - a,
    {
        let ps = split_list(lines[a].as_str());
        if ps.len() != cols {
            proof {
                assert(spec_split_list(lv[a as int]).len() != 2 * mb as int);
                assert(!spec_row_ok(lv[a as int], 2 * mb as int));
            }
            return None;
        }
        let mut row: Vec<i64> = Vec::new();
        let mut y: usize = 0;
        while y < cols
            invariant
                forall|j: int| 0 <= j < ps@.len() ==> (#[trigger] ps@[j]).is_ascii(),
                ps@.map_values(|p: &str| p@) == spec_split_list(lv[a as int]),
                lv == lines@.map_values(|s: String| s@),
                1 <= a,
                a < lv.len(),
                lv.len() == cg + 1,
                spec_split_list(lv[0]).len() == 3,
                nat_or_neg(spec_split_list(lv[0])[0]) == cg as int,
                nat_or_neg(spec_split_list(lv[0])[1]) == tg as int,
                nat_or_neg(spec_split_list(lv[0])[2]) == mb as int,
                1 <= cg <= 100_000,
                1 <= tg <= 100_000,
                1 <= mb <= 300_000,
                ps@.len() == cols,
                cols == 2 * mb,
                0 <= y <= cols,
                row@.len() == y,
                forall|i: int| 0 <= i < y
                    ==> 0 <= nat_or_neg(#[trigger] spec_split_list(lv[a as int])[i]) <= SCALE,
                forall|i: int| 0 <= i < y
                    ==> (#[trigger] row@[i]) as int
                        == nat_or_neg(spec_split_list(lv[a as int])[i]),
            decreases cols - y,
        {
            let v = match parse_u128(ps[y]) {
                Some(v) => v,
                None => {
                    proof {
                        assert(ps@[y as int]@ == spec_split_list(lv[a as int])[y as int]);
                        assert(nat_or_neg(spec_split_list(lv[a as int])[y as int]) == -1
                            || nat_or_neg(spec_split_list(lv[a as int])[y as int])
                                > u128::MAX);
                        assert(!(0 <= nat_or_neg(spec_split_list(lv[a as int])[y as int])
                            <= SCALE));
                        assert(!spec_row_ok(lv[a as int], 2 * mb as int));
                    }
                    return None;
                },
            };
            if v > SCALE as u128 {
                proof {
                    assert(ps@[y as int]@ == spec_split_list(lv[a as int])[y as int]);
                    assert(nat_or_neg(spec_split_list(lv[a as int])[y as int]) == v);
                    assert(!(0 <= nat_or_neg(spec_split_list(lv[a as int])[y as int])
                        <= SCALE));
                    assert(!spec_row_ok(lv[a as int], 2 * mb as int));
                }
                return None;
            }
            row.push(v as i64);
            y = y + 1;
        }
        proof {
            assert(spec_row_ok(lv[a as int], 2 * mb as int));
            assert(row@ =~= spec_row_val(lv[a as int], 2 * mb as int));
        }
        rows.push(row);
        a = a + 1;
    }
    let ghost tbl = rows@.map_values(|row: Vec<i64>| row@);
    proof {
        assert forall|x: int| 0 <= x < cg
            implies #[trigger] tbl[x] == spec_row_val(lv[x + 1], 2 * mb as int) by {
            assert(tbl[x] == rows@[x]@);
            assert(rows@[(x + 1) - 1]@ == spec_row_val(lv[x + 1], 2 * mb as int));
        }
        assert(tbl =~= Seq::new(cg as nat, |x: int| spec_row_val(lv[x + 1], 2 * mb as int)));
        assert(spec_table_ok(tbl, cg as int, tg as int, mb as int)) by {
            assert(forall|x: int| 0 <= x < cg
                ==> (#[trigger] tbl[x]).len() == 2 * mb as int);
            assert forall|x: int, yy: int| 0 <= x < cg && 0 <= yy < tbl[x].len()
                implies 0 <= #[trigger] tbl[x][yy] <= SCALE by {
                assert(spec_row_ok(lv[x + 1], 2 * mb as int));
                assert(tbl[x][yy] as int == nat_or_neg(spec_split_list(lv[x + 1])[yy]));
            }
        }
    }
    match Bounder::new_manual(rows, cg, tg, mb) {
        Some(b) => Some(b),
        None => None,
    }
}


/// A hypothesis reduced to its mathematical content.
pub enum HypView {
    Delta(int, int),
    Sum(Seq<i32>, int),
    Contra,
}

pub open spec fn hyp_view(h: Hypothesis) -> HypView {
    match h {
        Hypothesis::DeltaBound(t, d) => HypView::Delta(t as int, d as int),
        Hypothesis::SumLowerBound(c, b) => HypView::Sum(c@, b as int),
        Hypothesis::Contradiction => HypView::Contra,
    }
}

/// A case reduced to its mathematical content.
pub struct CaseView {
    pub threshold: int,
    pub prob_cutoff: int,
    pub max_depth: int,
    pub denominator: int,
    pub bounds: Seq<Interval>,
    pub restrictions: Seq<Restriction>,
    pub subcases: Seq<Seq<Restriction>>,
    pub hyps: Seq<HypView>,
}

pub open spec fn case_view(c: Case) -> CaseView {
    CaseView {
        threshold: c.threshold as int,
        prob_cutoff: c.prob_cutoff as int,
        max_depth: c.max_depth as int,
        denominator: c.denominator as int,
        bounds: c.bounds@,
        restrictions: c.restrictions@,
        subcases: c.subcases@.map_values(|v: Vec<Restriction>| v@),
        hyps: c.hypotheses@.map_values(|h: Hypothesis| hyp_view(h)),
    }
}

/// The text split at line breaks.
pub open spec fn spec_split_lines(s: Seq<char>) -> Seq<Seq<char>>
    decreases s.len(),
{
    let k = spec_find_char(s, '\n', 0);
    if 0 <= k < s.len() {
        seq![s.subrange(0, k)] + spec_split_lines(s.subrange(k + 1, s.len() as int))
    } else {
        seq![s]
    }
}

/// Splits at line breaks.
fn split_newlines(text: &str) -> (r: Vec<&str>)
    requires
        text.is_ascii(),
    ensures
        r@.map_values(|p: &str| p@) == spec_split_lines(text@),
        r@.len() >= 1,
        forall|j: int| 0 <= j < r@.len() ==> (#[trigger] r@[j]).is_ascii(),
{
    let mut out: Vec<&str> = Vec::new();
    let mut rest: &str = text;
    loop
        invariant_except_break
            out@.map_values(|p: &str| p@) + spec_split_lines(rest@) =~= spec_split_lines(text@),
        invariant
            rest.is_ascii(),
            forall|j: int| 0 <= j < out@.len() ==> (#[trigger] out@[j]).is_ascii(),
        ensures
            out@.map_values(|p: &str| p@) =~= spec_split_lines(text@),
            forall|j: int| 0 <= j < out@.len() ==> (#[trigger] out@[j]).is_ascii(),
            out@.len() >= 1,
        decreases rest@.len(),
    {
        let rest_len = rest.unicode_len();
        match crate::util::find_char(rest, '\n') {
            Some(k) => {
                let ghost prev = rest@;
                let ghost prev_out = out@;
                let piece = rest.substring_ascii(0, k);
                out.push(piece);
                rest = rest.substring_ascii(k + 1, rest_len);
                proof {
                    assert(spec_split_lines(prev)
                        =~= seq![prev.subrange(0, k as int)] + spec_split_lines(rest@));
                    assert(out@.map_values(|p: &str| p@)
                        =~= prev_out.map_values(|p: &str| p@)
                            + seq![prev.subrange(0, k as int)]);
                }
            },
            None => {
                out.push(rest);
                proof {
                    assert(spec_split_lines(rest@) =~= seq![rest@]);
                }
                break;
            },
        }
    }
    out
}

/// The restrictions an argument list denotes, first failure first.
pub open spec fn spec_parse_restr_list(args: Seq<Seq<char>>, i: int)
    -> Result<Seq<Restriction>, ParseError>
    decreases i,
{
    if i <= 0 {
        Ok(Seq::empty())
    } else {
        match spec_parse_restr_list(args, i - 1) {
            Ok(rs) => match spec_restriction_of(args[i - 1]) {
                Ok(r) => Ok(rs.push(r)),
                Err(e) => Err(e),
            },
            Err(e) => Err(e),
        }
    }
}

/// The integer coefficients in argument slots `1 .. i`.
pub open spec fn spec_parse_coefs(args: Seq<Seq<char>>, i: int)
    -> Result<Seq<i32>, ParseError>
    decreases i,
{
    if i <= 1 {
        Ok(Seq::empty())
    } else {
        match spec_parse_coefs(args, i - 1) {
            Ok(cs) => match spec_parse_int(args[i - 1]) {
                Some(v) => if i32::MIN <= v <= i32::MAX {
                    Ok(cs.push(v as i32))
                } else {
                    Err(ParseError::BadArguments)
                },
                None => Err(ParseError::BadArguments),
            },
            Err(e) => Err(e),
        }
    }
}

/// Whether an exclusive hypothesis (delta bound or contradiction) is
/// already declared.
pub open spec fn spec_has_exclusive(hyps: Seq<HypView>) -> bool {
    exists|j: int| 0 <= j < hyps.len() && !((#[trigger] hyps[j]) is Sum)
}

/// The coefficient bounds after one more declared interval: the list
/// grows with unit intervals up to the index, and the indexed entry is
/// tightened by intersection.
pub open spec fn spec_apply_bound(bounds: Seq<Interval>, idx: int, itv: Interval)
    -> Seq<Interval> {
    let nb = if idx + 1 > bounds.len() {
        idx + 1
    } else {
        bounds.len() as int
    };
    let ext = Seq::new(nb as nat, |i: int| if i < bounds.len() {
        bounds[i]
    } else {
        Interval::spec_unit()
    });
    ext.update(idx, ext[idx].spec_intersect(itv))
}

/// One line folded into the parse state.  Blank lines are skipped; a
/// `subcase(...)` line declares one subcase; `provesbound(target, delta)`
/// and `contradiction` declare the at-most-one exclusive hypothesis;
/// `sumlowerbound(bound, c1, ..., ck)` declares one weighted-sum
/// hypothesis; any other line is a restriction, with `bounds(...)` lines
/// tightening the per-coefficient intervals.
pub open spec fn spec_case_step(st: CaseView, line: Seq<char>)
    -> Result<CaseView, ParseError> {
    if spec_trim(line).len() == 0 {
        Ok(st)
    } else {
        let k = spec_find_char(line, '(', 0);
        let func = if k == -1 {
            line
        } else {
            line.subrange(0, k)
        };
        let args = if k == -1 {
            Seq::<Seq<char>>::empty()
        } else {
            spec_split_list(line.subrange(k + 1, line.len() as int))
        };
        let name = spec_trim(func);
        if spec_keyword_eq(name, "subcase"@) {
            match spec_parse_restr_list(args, args.len() as int) {
                Ok(rs) => Ok(CaseView { subcases: st.subcases.push(rs), ..st }),
                Err(e) => Err(e),
            }
        } else if spec_keyword_eq(name, "provesbound"@) {
            if spec_has_exclusive(st.hyps) {
                Err(ParseError::DuplicateHypothesis)
            } else if args.len() == 2 {
                match (spec_parse_fixed(args[0]), spec_parse_fixed(args[1])) {
                    (Some(tv), Some(dv)) => if 0 <= tv <= SCALE
                        && 0 <= dv <= 1000 * (SCALE as int) {
                        Ok(CaseView { hyps: st.hyps.push(HypView::Delta(tv, dv)), ..st })
                    } else {
                        Err(ParseError::UnsupportedShape)
                    },
                    _ => Err(ParseError::BadArguments),
                }
            } else {
                Err(ParseError::BadArguments)
            }
        } else if spec_keyword_eq(name, "contradiction"@) {
            if spec_has_exclusive(st.hyps) {
                Err(ParseError::DuplicateHypothesis)
            } else {
                Ok(CaseView { hyps: st.hyps.push(HypView::Contra), ..st })
            }
        } else if spec_keyword_eq(name, "sumlowerbound"@) {
            if args.len() >= 2 {
                match spec_parse_fixed(args[0]) {
                    Some(b) => match spec_parse_coefs(args, args.len() as int) {
                        Ok(cs) => Ok(CaseView {
                            hyps: st.hyps.push(HypView::Sum(cs, b)),
                            ..st
                        }),
                        Err(e) => Err(e),
                    },
                    None => Err(ParseError::BadArguments),
                }
            } else {
                Err(ParseError::BadArguments)
            }
        } else {
            match spec_restriction_of(line) {
                Ok(r) => match r {
                    Restriction::Bounds(idx, itv) => if idx < st.max_depth {
                        Ok(CaseView {
                            bounds: spec_apply_bound(st.bounds, idx as int, itv),
                            ..st
                        })
                    } else {
                        Err(ParseError::UnsupportedShape)
                    },
                    _ => Ok(CaseView { restrictions: st.restrictions.push(r), ..st }),
                },
                Err(e) => Err(e),
            }
        }
    }
}

/// The parse state after the lines `1 .. i`.
pub open spec fn spec_fold_lines(st0: CaseView, lines: Seq<Seq<char>>, i: int)
    -> Result<CaseView, ParseError>
    decreases i,
{
    if i <= 1 {
        Ok(st0)
    } else {
        match spec_fold_lines(st0, lines, i - 1) {
            Ok(st) => spec_case_step(st, lines[i - 1]),
            Err(e) => Err(e),
        }
    }
}

/// The empty parse state for given header parameters.
pub open spec fn spec_initial_state(th: int, pc: int, md: int, den: int) -> CaseView {
    CaseView {
        threshold: th,
        prob_cutoff: pc,
        max_depth: md,
        denominator: den,
        bounds: Seq::empty(),
        restrictions: Seq::empty(),
        subcases: Seq::empty(),
        hyps: Seq::empty(),
    }
}

/// What a case description means.  The first line carries
/// `threshold, prob_cutoff, max_depth, denominator`; every further line
/// folds in as `spec_case_step` says.  Parameters outside the engine's
/// ranges, and coefficient intervals that end up empty, are rejected.
/// The fixed-point value of a header piece, or an out-of-range sentinel
/// when the piece is not a plain decimal.
pub open spec fn fixed_or_oob(s: Seq<char>) -> int {
    match spec_parse_fixed(s) {
        Some(v) => v,
        None => 2_000_000_000_000_000int,
    }
}

pub open spec fn spec_parse_case(text: Seq<char>) -> Result<CaseView, ParseError> {
    let lines = spec_split_lines(text);
    let hd = spec_split_list(lines[0]);
    if hd.len() != 4 {
        Err(ParseError::MalformedHeader)
    } else {
        let th = fixed_or_oob(hd[0]);
        let pc = fixed_or_oob(hd[1]);
        let md = nat_or_neg(hd[2]);
        let den = nat_or_neg(hd[3]);
        if -1000 * (SCALE as int) <= th <= 1000 * (SCALE as int)
            && 0 <= pc <= SCALE && 1 <= md <= 30 && 1 <= den <= 1_000_000 {
            match spec_fold_lines(
                spec_initial_state(th, pc, md, den), lines, lines.len() as int) {
                Ok(st) => if forall|i: int| 0 <= i < st.bounds.len()
                    ==> (#[trigger] st.bounds[i]).lb <= st.bounds[i].ub {
                    Ok(st)
                } else {
                    Err(ParseError::UnsupportedShape)
                },
                Err(e) => Err(e),
            }
        } else {
            Err(ParseError::UnsupportedShape)
        }
    }
}

proof fn lemma_fold_err(st0: CaseView, lines: Seq<Seq<char>>, i: int, j: int)
    requires
        1 <= i <= j,
        spec_fold_lines(st0, lines, i) is Err,
    ensures
        spec_fold_lines(st0, lines, j) == spec_fold_lines(st0, lines, i),
    decreases j - i,
{
    if i < j {
        lemma_fold_err(st0, lines, i, j - 1);
    }
}


/// Reads every argument of a subcase declaration as a restriction.
fn parse_restr_vec(args: &Vec<&str>) -> (r: Result<Vec<Restriction>, ParseError>)
    requires
        forall|x: int| 0 <= x < args@.len() ==> (#[trigger] args@[x]).is_ascii(),
    ensures
        match r {
            Ok(v) => spec_parse_restr_list(
                args@.map_values(|p: &str| p@), args@.len() as int)
                == Ok::<Seq<Restriction>, ParseError>(v@),
            Err(e) => spec_parse_restr_list(
                args@.map_values(|p: &str| p@), args@.len() as int)
                == Err::<Seq<Restriction>, ParseError>(e),
        },
{
    let na = args.len();
    let mut rs: Vec<Restriction> = Vec::new();
    let mut j: usize = 0;
    while j < na
        invariant
            forall|x: int| 0 <= x < args@.len() ==> (#[trigger] args@[x]).is_ascii(),
            na == args@.len(),
            0 <= j <= na,
            spec_parse_restr_list(args@.map_values(|p: &str| p@), j as int)
                == Ok::<Seq<Restriction>, ParseError>(rs@),
        decreases na - j,
    {
        match Restriction::of_string(args[j]) {
            Ok(rr) => {
                rs.push(rr);
            },
            Err(e) => {
                proof {
                    lemma_restr_list_err(
                        args@.map_values(|p: &str| p@), j as int + 1, args@.len() as int);
                }
                return Err(e);
            },
        }
        j = j + 1;
    }
    Ok(rs)
}

/// Reads the coefficient arguments of a weighted-sum hypothesis.
fn parse_coefs_vec(args: &Vec<&str>) -> (r: Result<Vec<i32>, ParseError>)
    requires
        args@.len() >= 1,
        forall|x: int| 0 <= x < args@.len() ==> (#[trigger] args@[x]).is_ascii(),
    ensures
        match r {
            Ok(v) => v@.len() == args@.len() - 1 && spec_parse_coefs(
                args@.map_values(|p: &str| p@), args@.len() as int)
                == Ok::<Seq<i32>, ParseError>(v@),
            Err(e) => spec_parse_coefs(
                args@.map_values(|p: &str| p@), args@.len() as int)
                == Err::<Seq<i32>, ParseError>(e),
        },
{
    let na = args.len();
    let mut coefs: Vec<i32> = Vec::new();
    let mut j: usize = 1;
    while j < na
        invariant
            forall|x: int| 0 <= x < args@.len() ==> (#[trigger] args@[x]).is_ascii(),
            na == args@.len(),
            1 <= j <= na,
            coefs@.len() == j - 1,
            spec_parse_coefs(args@.map_values(|p: &str| p@), j as int)
                == Ok::<Seq<i32>, ParseError>(coefs@),
        decreases na - j,
    {
        match parse_i32(args[j]) {
            Some(v) => {
                coefs.push(v);
            },
            None => {
                proof {
                    lemma_coefs_err(
                        args@.map_values(|p: &str| p@), j as int + 1, args@.len() as int);
                }
                return Err(ParseError::BadArguments);
            },
        }
        j = j + 1;
    }
    Ok(coefs)
}

/// Folds one non-header line into the parse state, mirroring
/// `spec_case_step` exactly.
#[verifier::rlimit(100)]
fn apply_case_line(
    line: &str,
    max_depth: usize,
    bounds: &mut Vec<Interval>,
    restrictions: &mut Vec<Restriction>,
    subcases: &mut Vec<Vec<Restriction>>,
    hypotheses: &mut Vec<Hypothesis>,
    has_excl: &mut bool,
    prev: Ghost<CaseView>,
) -> (r: Result<(), ParseError>)
    requires
        line.is_ascii(),
        1 <= max_depth <= 30,
        prev@.max_depth == max_depth,
        prev@.bounds == old(bounds)@,
        prev@.restrictions == old(restrictions)@,
        prev@.subcases == old(subcases)@.map_values(|v: Vec<Restriction>| v@),
        prev@.hyps == old(hypotheses)@.map_values(|h: Hypothesis| hyp_view(h)),
        *old(has_excl) == spec_has_exclusive(prev@.hyps),
        forall|i: int| 0 <= i < old(bounds)@.len()
            ==> 0 <= (#[trigger] old(bounds)@[i]).lb && old(bounds)@[i].ub <= SCALE,
        forall|i: int| 0 <= i < old(hypotheses)@.len()
            ==> (#[trigger] old(hypotheses)@[i]).wf(),
    ensures
        match r {
            Ok(u) => spec_case_step(prev@, line@) == Ok::<CaseView, ParseError>(CaseView {
                bounds: final(bounds)@,
                restrictions: final(restrictions)@,
                subcases: final(subcases)@.map_values(|v: Vec<Restriction>| v@),
                hyps: final(hypotheses)@.map_values(|h: Hypothesis| hyp_view(h)),
                ..prev@
            }),
            Err(e) => spec_case_step(prev@, line@) == Err::<CaseView, ParseError>(e),
        },
        *final(has_excl) == spec_has_exclusive(
            final(hypotheses)@.map_values(|h: Hypothesis| hyp_view(h))),
        forall|i: int| 0 <= i < final(bounds)@.len()
            ==> 0 <= (#[trigger] final(bounds)@[i]).lb && final(bounds)@[i].ub <= SCALE,
        forall|i: int| 0 <= i < final(hypotheses)@.len()
            ==> (#[trigger] final(hypotheses)@[i]).wf(),
{
    proof {
        reveal_strlit("subcase");
        reveal_strlit("provesbound");
        reveal_strlit("contradiction");
        reveal_strlit("sumlowerbound");
    }
    let trimmed = trim(line);
    if trimmed.unicode_len() == 0 {
        proof {
            assert(spec_case_step(prev@, line@) == Ok::<CaseView, ParseError>(prev@));
            assert(prev@ == CaseView {
                bounds: bounds@,
                restrictions: restrictions@,
                subcases: subcases@.map_values(|v: Vec<Restriction>| v@),
                hyps: hypotheses@.map_values(|h: Hypothesis| hyp_view(h)),
                ..prev@
            });
        }
        return Ok(());
    }
    let (func, args) = parse_function_like(line);
    let name = trim(func);
    if keyword_is(name, "subcase") {
        let rs = match parse_restr_vec(&args) {
            Ok(v) => v,
            Err(e) => {
                return Err(e);
            },
        };
        subcases.push(rs);
        proof {
            assert(subcases@.map_values(|v: Vec<Restriction>| v@)
                =~= prev@.subcases.push(rs@));
        }
        Ok(())
    } else if keyword_is(name, "provesbound") {
        if *has_excl {
            return Err(ParseError::DuplicateHypothesis);
        }
        if args.len() != 2 {
            return Err(ParseError::BadArguments);
        }
        let tv = match parse_fixed(args[0]) {
            Some(v) => v,
            None => {
                return Err(ParseError::BadArguments);
            },
        };
        let dv = match parse_fixed(args[1]) {
            Some(v) => v,
            None => {
                return Err(ParseError::BadArguments);
            },
        };
        if tv < 0 || tv > SCALE || dv < 0 || dv > 1000 * SCALE {
            return Err(ParseError::UnsupportedShape);
        }
        hypotheses.push(Hypothesis::DeltaBound(tv, dv));
        *has_excl = true;
        proof {
            let hv = hypotheses@.map_values(|h: Hypothesis| hyp_view(h));
            assert(hv =~= prev@.hyps.push(HypView::Delta(tv as int, dv as int)));
            assert(spec_has_exclusive(hv)) by {
                assert(!(hv[hv.len() - 1] is Sum));
            }
        }
        Ok(())
    } else if keyword_is(name, "contradiction") {
        if *has_excl {
            return Err(ParseError::DuplicateHypothesis);
        }
        hypotheses.push(Hypothesis::Contradiction);
        *has_excl = true;
        proof {
            let hv = hypotheses@.map_values(|h: Hypothesis| hyp_view(h));
            assert(hv =~= prev@.hyps.push(HypView::Contra));
            assert(spec_has_exclusive(hv)) by {
                assert(!(hv[hv.len() - 1] is Sum));
            }
        }
        Ok(())
    } else if keyword_is(name, "sumlowerbound") {
        if args.len() < 2 {
            return Err(ParseError::BadArguments);
        }
        let bv = match parse_fixed(args[0]) {
            Some(v) => v,
            None => {
                return Err(ParseError::BadArguments);
            },
        };
        let coefs = match parse_coefs_vec(&args) {
            Ok(v) => v,
            Err(e) => {
                return Err(e);
            },
        };
        hypotheses.push(Hypothesis::SumLowerBound(coefs, bv));
        proof {
            let hv = hypotheses@.map_values(|h: Hypothesis| hyp_view(h));
            let old_hv = prev@.hyps;
            assert(hv =~= old_hv.push(hyp_view(hypotheses@[hypotheses@.len() - 1])));
            assert(spec_has_exclusive(hv) == spec_has_exclusive(old_hv)) by {
                if spec_has_exclusive(hv) {
                    let w = choose|x: int| 0 <= x < hv.len() && !((hv[x]) is Sum);
                    if w < old_hv.len() {
                        assert(!(old_hv[w] is Sum));
                    }
                }
                if spec_has_exclusive(old_hv) {
                    let w = choose|x: int| 0 <= x < old_hv.len() && !((old_hv[x]) is Sum);
                    assert(!(hv[w] is Sum));
                }
            }
        }
        Ok(())
    } else {
        match Restriction::of_string(line) {
            Ok(rr) => {
                match rr {
                    Restriction::Bounds(idx, itv) => {
                        if idx >= max_depth {
                            return Err(ParseError::UnsupportedShape);
                        }
                        let ghost pre_bounds = bounds@;
                        while bounds.len() <= idx
                            invariant
                                idx < 30,
                                bounds@.len() <= idx + 1 || bounds@ == pre_bounds,
                                pre_bounds.len() <= bounds@.len(),
                                forall|x: int| 0 <= x < pre_bounds.len()
                                    ==> #[trigger] bounds@[x] == pre_bounds[x],
                                forall|x: int| pre_bounds.len() <= x < bounds@.len()
                                    ==> #[trigger] bounds@[x] == Interval::spec_unit(),
                            decreases idx + 1 - bounds@.len(),
                        {
                            bounds.push(Interval::unit());
                        }
                        let e = &mut bounds[idx];
                        e.intersect_inplace(&itv);
                        proof {
                            assert(bounds@ =~= spec_apply_bound(pre_bounds, idx as int, itv));
                            assert(spec_case_step(prev@, line@)
                                == Ok::<CaseView, ParseError>(CaseView {
                                    bounds: spec_apply_bound(pre_bounds, idx as int, itv),
                                    ..prev@
                                }));
                        }
                        Ok(())
                    },
                    _ => {
                        restrictions.push(rr);
                        proof {
                            assert(restrictions@ =~= prev@.restrictions.push(rr));
                        }
                        Ok(())
                    },
                }
            },
            Err(e) => {
                return Err(e);
            },
        }
    }
}

/// Reads a whole case description: header line, then restrictions,
/// subcases and hypotheses, one per line.  Blank lines are skipped.
/// Succeeds exactly on texts that describe a well-formed case, and then
/// reproduces that case.
#[verifier::rlimit(100)]
pub fn parse_case(text: &str) -> (r: Result<Case, ParseError>)
    requires
        text.is_ascii(),
    ensures
        match r {
            Ok(c) => c.wf() && spec_parse_case(text@) == Ok::<CaseView, ParseError>(case_view(c)),
            Err(e) => spec_parse_case(text@) == Err::<CaseView, ParseError>(e),
        },
{
    let lines = split_newlines(text);
    let ghost lv = lines@.map_values(|p: &str| p@);
    let hd = split_list(lines[0]);
    proof {
        assert(lines@[0]@ == lv[0]);
    }
    if hd.len() != 4 {
        return Err(ParseError::MalformedHeader);
    }
    proof {
        assert(hd@[0]@ == spec_split_list(lv[0])[0]);
        assert(hd@[1]@ == spec_split_list(lv[0])[1]);
        assert(hd@[2]@ == spec_split_list(lv[0])[2]);
        assert(hd@[3]@ == spec_split_list(lv[0])[3]);
    }
    let threshold: i64 = match parse_fixed(hd[0]) {
        Some(v) => v,
        None => {
            return Err(ParseError::UnsupportedShape);
        },
    };
    let prob_cutoff: i64 = match parse_fixed(hd[1]) {
        Some(v) => v,
        None => {
            return Err(ParseError::UnsupportedShape);
        },
    };
    let max_depth: usize = match parse_usize(hd[2]) {
        Some(v) => v,
        None => {
            return Err(ParseError::UnsupportedShape);
        },
    };
    let denominator: u128 = match parse_u128(hd[3]) {
        Some(v) => v,
        None => {
            return Err(ParseError::UnsupportedShape);
        },
    };
    if threshold < -1000 * SCALE || threshold > 1000 * SCALE {
        return Err(ParseError::UnsupportedShape);
    }
    if prob_cutoff < 0 || prob_cutoff > SCALE {
        return Err(ParseError::UnsupportedShape);
    }
    if max_depth < 1 || max_depth > 30 {
        return Err(ParseError::UnsupportedShape);
    }
    if denominator < 1 || denominator > 1_000_000 {
        return Err(ParseError::UnsupportedShape);
    }
    let ghost st0 = spec_initial_state(
        threshold as int, prob_cutoff as int, max_depth as int, denominator as int);
    let mut bounds: Vec<Interval> = Vec::new();
    let mut restrictions: Vec<Restriction> = Vec::new();
    let mut subcases: Vec<Vec<Restriction>> = Vec::new();
    let mut hypotheses: Vec<Hypothesis> = Vec::new();
    let mut has_excl: bool = false;
    let n = lines.len();
    let mut li: usize = 1;
    proof {
        assert(bounds@ =~= Seq::<Interval>::empty());
        assert(restrictions@ =~= Seq::<Restriction>::empty());
        assert(subcases@.map_values(|v: Vec<Restriction>| v@)
            =~= Seq::<Seq<Restriction>>::empty());
        assert(hypotheses@.map_values(|h: Hypothesis| hyp_view(h))
            =~= Seq::<HypView>::empty());
    }
    while li < n
        invariant
            lv == lines@.map_values(|p: &str| p@),
            lv == spec_split_lines(text@),
            forall|j: int| 0 <= j < lines@.len() ==> (#[trigger] lines@[j]).is_ascii(),
            n == lv.len(),
            1 <= li <= n,
            st0 == spec_initial_state(
                threshold as int, prob_cutoff as int, max_depth as int, denominator as int),
            1 <= max_depth <= 30,
            1 <= denominator <= 1_000_000,
            spec_split_list(lv[0]).len() == 4,
            fixed_or_oob(spec_split_list(lv[0])[0]) == threshold as int,
            fixed_or_oob(spec_split_list(lv[0])[1]) == prob_cutoff as int,
            nat_or_neg(spec_split_list(lv[0])[2]) == max_depth as int,
            nat_or_neg(spec_split_list(lv[0])[3]) == denominator as int,
            -1000 * (SCALE as int) <= threshold as int <= 1000 * (SCALE as int),
            0 <= prob_cutoff <= SCALE,
            spec_fold_lines(st0, lv, li as int) == Ok::<CaseView, ParseError>(CaseView {
                threshold: threshold as int,
                prob_cutoff: prob_cutoff as int,
                max_depth: max_depth as int,
                denominator: denominator as int,
                bounds: bounds@,
                restrictions: restrictions@,
                subcases: subcases@.map_values(|v: Vec<Restriction>| v@),
                hyps: hypotheses@.map_values(|h: Hypothesis| hyp_view(h)),
            }),
            has_excl == spec_has_exclusive(
                hypotheses@.map_values(|h: Hypothesis| hyp_view(h))),
            forall|i: int| 0 <= i < bounds@.len()
                ==> 0 <= (#[trigger] bounds@[i]).lb && bounds@[i].ub <= SCALE,
            forall|i: int| 0 <= i < hypotheses@.len()
                ==> (#[trigger] hypotheses@[i]).wf(),
        decreases n - li,
    {
        let ghost prev = CaseView {
            threshold: threshold as int,
            prob_cutoff: prob_cutoff as int,
            max_depth: max_depth as int,
            denominator: denominator as int,
            bounds: bounds@,
            restrictions: restrictions@,
            subcases: subcases@.map_values(|v: Vec<Restriction>| v@),
            hyps: hypotheses@.map_values(|h: Hypothesis| hyp_view(h)),
        };
        let line = lines[li];
        proof {
            assert(line@ == lv[li as int]);
        }
        match apply_case_line(
            line, max_depth, &mut bounds, &mut restrictions, &mut subcases,
            &mut hypotheses, &mut has_excl, Ghost(prev)) {
            Ok(u) => {},
            Err(e) => {
                proof {
                    lemma_fold_err(st0, lv, li as int + 1, lv.len() as int);
                }
                return Err(e);
            },
        }
        li = li + 1;
    }
    let nb = bounds.len();
    let mut bi: usize = 0;
    while bi < nb
        invariant
            nb == bounds@.len(),
            0 <= bi <= nb,
            spec_fold_lines(st0, lv, lv.len() as int) is Ok,
            lv == lines@.map_values(|p: &str| p@),
            lv == spec_split_lines(text@),
            st0 == spec_initial_state(
                threshold as int, prob_cutoff as int, max_depth as int, denominator as int),
            spec_fold_lines(st0, lv, lv.len() as int)->Ok_0.bounds == bounds@,
            spec_split_list(lv[0]).len() == 4,
            fixed_or_oob(spec_split_list(lv[0])[0]) == threshold as int,
            fixed_or_oob(spec_split_list(lv[0])[1]) == prob_cutoff as int,
            nat_or_neg(spec_split_list(lv[0])[2]) == max_depth as int,
            nat_or_neg(spec_split_list(lv[0])[3]) == denominator as int,
            -1000 * (SCALE as int) <= threshold as int <= 1000 * (SCALE as int),
            0 <= prob_cutoff <= SCALE,
            1 <= max_depth <= 30,
            1 <= denominator <= 1_000_000,
            forall|i: int| 0 <= i < bi
                ==> (#[trigger] bounds@[i]).lb <= bounds@[i].ub,
        decreases nb - bi,
    {
        if bounds[bi].lb > bounds[bi].ub {
            return Err(ParseError::UnsupportedShape);
        }
        bi = bi + 1;
    }
    let c = Case {
        threshold,
        prob_cutoff,
        max_depth,
        denominator,
        bounds,
        restrictions,
        subcases,
        hypotheses,
    };
    proof {
        assert(case_view(c) == spec_fold_lines(st0, lv, lv.len() as int)->Ok_0);
        assert(c.wf());
    }
    Ok(c)
}

proof fn lemma_restr_list_err(args: Seq<Seq<char>>, i: int, j: int)
    requires
        1 <= i <= j,
        spec_parse_restr_list(args, i) is Err,
    ensures
        spec_parse_restr_list(args, j) == spec_parse_restr_list(args, i),
    decreases j - i,
{
    if i < j {
        lemma_restr_list_err(args, i, j - 1);
    }
}

proof fn lemma_coefs_err(args: Seq<Seq<char>>, i: int, j: int)
    requires
        2 <= i <= j,
        spec_parse_coefs(args, i) is Err,
    ensures
        spec_parse_coefs(args, j) == spec_parse_coefs(args, i),
    decreases j - i,
{
    if i < j {
        lemma_coefs_err(args, i, j - 1);
    }
}

} // verus!
