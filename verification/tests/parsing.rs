use rademacher::fixed::SCALE;
use rademacher::restriction::{Interval, ParseError, Restriction};
use rademacher::util::{parse_fixed, parse_function_like, parse_i32, parse_u128, parse_usize,
    split_list, trim};

#[test]
fn split_list_top_level_commas() {
    let pieces = split_list("a, b, f(1,2), c)");
    assert_eq!(pieces.len(), 4);
    assert_eq!(pieces[0], "a");
    assert_eq!(pieces[1], " b");
    assert_eq!(pieces[2], " f(1,2)");
    assert_eq!(pieces[3], "c");
}

#[test]
fn split_list_single_piece_cleaned() {
    // trimming comes first, so a space shielded by the parentheses stays
    let pieces = split_list("  0.5 ))");
    assert_eq!(pieces.len(), 1);
    assert_eq!(pieces[0], "0.5 ");
    let clean = split_list(" 0.5)");
    assert_eq!(clean[0], "0.5");
}

#[test]
fn parse_function_like_shapes() {
    let (name, args) = parse_function_like("bounds(0, 0.5, 1)");
    assert_eq!(name, "bounds");
    assert_eq!(args.len(), 3);
    assert_eq!(args[0], "0");
    assert_eq!(args[1], " 0.5");
    assert_eq!(args[2], "1");
    let (bare, none) = parse_function_like("contradiction");
    assert_eq!(bare, "contradiction");
    assert_eq!(none.len(), 0);
}

#[test]
fn trim_strips_whitespace() {
    assert_eq!(trim("  x y\t"), "x y");
    assert_eq!(trim("   "), "");
}

#[test]
fn parse_fixed_exact_decimals() {
    assert_eq!(parse_fixed("0.25"), Some(250_000_000_000));
    assert_eq!(parse_fixed("2"), Some(2 * SCALE));
    assert_eq!(parse_fixed("-1.5"), Some(-1_500_000_000_000));
    assert_eq!(parse_fixed(" 0.000000000001 "), Some(1));
    assert_eq!(parse_fixed(".5"), Some(500_000_000_000));
    assert_eq!(parse_fixed("3."), Some(3 * SCALE));
}

#[test]
fn parse_fixed_rejects_junk() {
    assert_eq!(parse_fixed(""), None);
    assert_eq!(parse_fixed("abc"), None);
    assert_eq!(parse_fixed("1.2.3"), None);
    // a thirteenth fractional digit cannot be represented exactly
    assert_eq!(parse_fixed("0.0000000000005"), None);
    assert_eq!(parse_fixed("99999999999999999999"), None);
}

#[test]
fn parse_integers() {
    assert_eq!(parse_u128("184467"), Some(184467));
    assert_eq!(parse_u128("  42 "), Some(42));
    assert_eq!(parse_u128("4x2"), None);
    assert_eq!(parse_u128(""), None);
    assert_eq!(parse_usize("30"), Some(30));
    assert_eq!(parse_i32("-7"), Some(-7));
    assert_eq!(parse_i32("2147483647"), Some(i32::MAX));
    assert_eq!(parse_i32("2147483648"), None);
    assert_eq!(parse_i32("- 7"), None);
}

#[test]
fn restriction_of_string_variants() {
    assert_eq!(
        Restriction::of_string("InitialSumUpperBound(3, 0.9)"),
        Ok(Restriction::InitialSumUpperBound(3, 900_000_000_000)),
    );
    assert_eq!(
        Restriction::of_string("initialsumlowerbound(2, 0.1)"),
        Ok(Restriction::InitialSumLowerBound(2, 100_000_000_000)),
    );
    assert_eq!(
        Restriction::of_string("MidSumUpperBound(1, 3, 0.5)"),
        Ok(Restriction::MidSumUpperBound(1, 3, 500_000_000_000)),
    );
    assert_eq!(
        Restriction::of_string("Bounds(0, 0.25, 0.75)"),
        Ok(Restriction::Bounds(0, Interval { lb: 250_000_000_000, ub: 750_000_000_000 })),
    );
}

#[test]
fn restriction_of_string_errors() {
    assert_eq!(
        Restriction::of_string("nonsense(1, 2)"),
        Err(ParseError::UnknownKeyword),
    );
    assert_eq!(
        Restriction::of_string("bounds(1, 2)"),
        Err(ParseError::BadArguments),
    );
    assert_eq!(
        Restriction::of_string("bounds(x, 0, 1)"),
        Err(ParseError::BadArguments),
    );
}

#[test]
fn interval_intersection_laws() {
    let a = Interval { lb: 100, ub: 500 };
    let b = Interval { lb: 200, ub: 900 };
    let mut ab = a;
    ab.intersect_inplace(&b);
    let mut ba = b;
    ba.intersect_inplace(&a);
    // commutative
    assert_eq!(ab, ba);
    assert_eq!(ab, Interval { lb: 200, ub: 500 });
    // idempotent
    let mut aa = a;
    aa.intersect_inplace(&a);
    assert_eq!(aa, a);
    // the unit interval is neutral for intervals inside it
    let mut au = a;
    au.intersect_inplace(&Interval::unit());
    assert_eq!(au, a);
}
