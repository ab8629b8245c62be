use rademacher::case::{Case, Hypothesis};
use rademacher::codec::parse_case;
use rademacher::extrema::{Extrema, Results};
use rademacher::fixed::SCALE;
use rademacher::prawitz::Bounder;
use rademacher::prover::{simulate, CoefSeq};
use rademacher::restriction::{Interval, ParseError, Restriction};

fn fixed(v: f64) -> i64 {
    (v * 1e12) as i64
}

fn flat_bounder(value: i64) -> Bounder {
    let rows = vec![vec![value; 16]; 4];
    Bounder::new_manual(rows, 4, 2, 8).unwrap()
}

fn seq_of(numerators: &[u128], denominator: u128) -> CoefSeq {
    let mut s = CoefSeq::new(0, denominator, numerators.len());
    for (i, n) in numerators.iter().enumerate() {
        s.set(i, *n);
    }
    s
}

#[test]
fn fresh_extrema_is_a_contradiction() {
    let e = Extrema::new(4, 2, 0);
    assert!(e.is_contradiction());
    assert_eq!(e.min_numerator_at(0), 4);
    assert_eq!(e.max_numerator_at(0), 0);
}

#[test]
fn include_seq_widens_monotonically_and_idempotently() {
    let coefs = vec![vec![1, 1]];
    let mut e = Extrema::new(4, 2, 1);
    let s = seq_of(&[2, 1], 4);
    e.include_seq(&s, &coefs, 2);
    assert_eq!((e.min_numerator_at(0), e.max_numerator_at(0)), (2, 2));
    assert_eq!((e.min_numerator_at(1), e.max_numerator_at(1)), (1, 1));
    assert_eq!(e.get_sum_lower_bound(0), Some(3));
    assert!(!e.is_contradiction());
    // the same sequence again changes nothing
    e.include_seq(&s, &coefs, 2);
    assert_eq!((e.min_numerator_at(0), e.max_numerator_at(0)), (2, 2));
    assert_eq!((e.min_numerator_at(1), e.max_numerator_at(1)), (1, 1));
    assert_eq!(e.get_sum_lower_bound(0), Some(3));
    // a different sequence only widens: minima fall, maxima rise
    let t = seq_of(&[1, 3], 4);
    e.include_seq(&t, &coefs, 2);
    assert_eq!((e.min_numerator_at(0), e.max_numerator_at(0)), (1, 2));
    assert_eq!((e.min_numerator_at(1), e.max_numerator_at(1)), (1, 3));
    assert_eq!(e.get_sum_lower_bound(0), Some(3));
}

#[test]
fn weighted_sums_use_the_sound_interval_end() {
    // a negative coefficient takes numerator + 1
    let coefs = vec![vec![1, -1]];
    let mut e = Extrema::new(4, 2, 1);
    e.include_seq(&seq_of(&[2, 1], 4), &coefs, 2);
    // 2 * 1 + (1 + 1) * (-1) = 0
    assert_eq!(e.get_sum_lower_bound(0), Some(0));
}

#[test]
fn sums_wait_for_their_depth() {
    let coefs = vec![vec![1, 1]];
    let mut e = Extrema::new(4, 2, 1);
    e.include_seq(&seq_of(&[2, 0], 4), &coefs, 1);
    // depth one does not cover a two-coefficient sum
    assert_eq!(e.get_sum_lower_bound(0), None);
}

#[test]
fn max_delta_exact_value() {
    let mut e = Extrema::new(4, 1, 0);
    e.include_seq(&seq_of(&[1], 4), &Vec::new(), 1);
    e.include_seq(&seq_of(&[2], 4), &Vec::new(), 1);
    // envelope [1/4, 3/4]; nearest target to both edges is 1/2, at
    // distance 1/4, in units of 1 / (4 * SCALE)
    assert_eq!(e.get_max_delta(SCALE / 2, 1), SCALE as i128);
}

fn contradiction_case() -> Case {
    Case {
        threshold: 0,
        prob_cutoff: fixed(0.3),
        max_depth: 2,
        denominator: 4,
        bounds: Vec::new(),
        restrictions: Vec::new(),
        subcases: Vec::new(),
        hypotheses: vec![
            Hypothesis::Contradiction,
            Hypothesis::SumLowerBound(vec![1, 1], fixed(0.0)),
            Hypothesis::SumLowerBound(vec![1, 1, 1], fixed(0.0)),
        ],
    }
}

#[test]
fn search_with_strong_table_proves_contradiction() {
    // every table value is 1.0, far above the cutoff, so every branch is
    // pruned and no sequence survives anywhere
    let case = contradiction_case();
    let results = simulate(&flat_bounder(fixed(1.0)), &case);
    assert!(results.is_contradiction());
    assert!(results.check_hypothesis(&case.hypotheses[0]));
    // no surviving sequence also means no recorded weighted sum
    assert_eq!(results.get_sum_lower_bound(&vec![1, 1]), None);
    assert!(!results.check_hypothesis(&case.hypotheses[1]));
}

#[test]
fn search_with_empty_table_fills_the_envelope() {
    // an all-zero table prunes nothing: every admissible sequence
    // survives and the default envelope covers the full numerator range
    let case = contradiction_case();
    let results = simulate(&flat_bounder(0), &case);
    assert!(!results.is_contradiction());
    assert!(!results.check_hypothesis(&case.hypotheses[0]));
    let e = results.default_extrema();
    assert_eq!(e.min_numerator_at(0), 0);
    assert_eq!(e.max_numerator_at(0), 3);
    // the second coefficient reaches only 2: the pair [3, 3] is pruned
    // because its minimum variance (9 + 9) / 16 already exceeds one
    assert_eq!(e.min_numerator_at(1), 0);
    assert_eq!(e.max_numerator_at(1), 2);
    // the smallest weighted sum with coefficients [1, 1] is 0
    assert_eq!(results.get_sum_lower_bound(&vec![1, 1]), Some(0));
    assert!(results.check_hypothesis(&case.hypotheses[1]));
}

#[test]
fn half_delta_hypothesis_always_proved() {
    // target one half with delta one is proved on any run whose envelope
    // values lie inside the unit interval
    let half = Hypothesis::DeltaBound(SCALE / 2, SCALE);
    let case = contradiction_case();
    let full = simulate(&flat_bounder(0), &case);
    assert!(full.check_hypothesis(&half));
    let empty = simulate(&flat_bounder(fixed(1.0)), &case);
    assert!(empty.check_hypothesis(&half));
}

#[test]
fn duplicate_sum_hypotheses_share_one_slot() {
    // two hypotheses naming the same coefficient list share one recorded
    // minimum: the list is stored once, and both verdicts read it
    let mut case = contradiction_case();
    case.hypotheses.push(Hypothesis::SumLowerBound(vec![1, 1], fixed(-0.1)));
    let results = simulate(&flat_bounder(0), &case);
    assert_eq!(results.get_sum_lower_bound(&vec![1, 1]), Some(0));
    assert!(results.check_hypothesis(&case.hypotheses[1]));
    assert!(results.check_hypothesis(&case.hypotheses[3]));
}

#[test]
fn long_sum_reports_absent_not_zero() {
    // a coefficient list longer than the depth can never be covered: its
    // minimum stays absent and the hypothesis stays unproved
    let case = contradiction_case();
    let results = simulate(&flat_bounder(0), &case);
    assert_eq!(results.get_sum_lower_bound(&vec![1, 1, 1]), None);
    assert!(!results.check_hypothesis(&case.hypotheses[2]));
}

#[test]
fn unit_bound_explores_numerators_below_denominator_only() {
    // a declared unit bound on the root coefficient still caps the
    // explored numerators at denominator - 1, so every envelope value
    // stays inside the unit interval
    let mut case = contradiction_case();
    case.max_depth = 1;
    case.bounds = vec![Interval { lb: 0, ub: SCALE }];
    let results = simulate(&flat_bounder(0), &case);
    let e = results.default_extrema();
    assert_eq!(e.min_numerator_at(0), 0);
    assert_eq!(e.max_numerator_at(0), 3);
}

#[test]
fn routing_into_subcases() {
    let mut case = contradiction_case();
    case.subcases = vec![
        vec![Restriction::Bounds(0, Interval { lb: fixed(0.5), ub: fixed(1.0) })],
        vec![Restriction::Bounds(0, Interval { lb: 0, ub: fixed(0.4) })],
    ];
    let results = simulate(&flat_bounder(0), &case);
    assert_eq!(results.num_subcases(), 2);
    // the first subcase sees only sequences whose first interval meets
    // [0.5, 1]: numerators 1 (interval [1/4, 2/4]) through 3
    let hi = results.subcase_extrema(0);
    assert_eq!(hi.min_numerator_at(0), 1);
    assert_eq!(hi.max_numerator_at(0), 3);
    // the second sees numerators 0 and 1
    let lo = results.subcase_extrema(1);
    assert_eq!(lo.min_numerator_at(0), 0);
    assert_eq!(lo.max_numerator_at(0), 1);
    assert_eq!(results.subcase_restrictions(0).len(), 1);
}

#[test]
fn parse_case_round_trip_fields() {
    let text = "0.5, 0.3, 2, 4\nbounds(0, 0.25, 1)\ninitialsumupperbound(2, 0.9)\nsubcase(bounds(0, 0, 0.5), bounds(1, 0, 0.5))\nsumlowerbound(0.1, 1, -1)\ncontradiction\n";
    let case = parse_case(text).expect("case should parse");
    assert_eq!(case.threshold, fixed(0.5));
    assert_eq!(case.prob_cutoff, fixed(0.3));
    assert_eq!(case.max_depth, 2);
    assert_eq!(case.denominator, 4);
    assert_eq!(case.bounds, vec![Interval { lb: fixed(0.25), ub: SCALE }]);
    assert_eq!(case.restrictions, vec![Restriction::InitialSumUpperBound(2, fixed(0.9))]);
    assert_eq!(case.subcases.len(), 1);
    assert_eq!(case.subcases[0].len(), 2);
    assert_eq!(case.hypotheses.len(), 2);
    assert_eq!(case.hypotheses[0], Hypothesis::SumLowerBound(vec![1, -1], fixed(0.1)));
    assert_eq!(case.hypotheses[1], Hypothesis::Contradiction);
}

#[test]
fn parse_case_bounds_intersect() {
    let text = "0, 0.5, 2, 8\nbounds(1, 0.25, 1)\nbounds(1, 0, 0.75)\n";
    let case = parse_case(text).expect("case should parse");
    assert_eq!(case.bounds.len(), 2);
    assert_eq!(case.bounds[0], Interval::unit());
    assert_eq!(case.bounds[1], Interval { lb: fixed(0.25), ub: fixed(0.75) });
}

#[test]
fn parse_case_errors() {
    // header with three fields
    assert_eq!(parse_case("0, 0.5, 2\n"), Err(ParseError::MalformedHeader));
    // depth outside the supported range
    assert_eq!(parse_case("0, 0.5, 31, 4\n"), Err(ParseError::UnsupportedShape));
    // a second exclusive hypothesis
    assert_eq!(
        parse_case("0, 0.5, 2, 4\ncontradiction\nprovesbound(0.5, 1)\n"),
        Err(ParseError::DuplicateHypothesis),
    );
    // an unknown keyword line
    assert_eq!(
        parse_case("0, 0.5, 2, 4\nwibble(1)\n"),
        Err(ParseError::UnknownKeyword),
    );
    // an interval that ends up empty
    assert_eq!(
        parse_case("0, 0.5, 2, 4\nbounds(0, 0.8, 0.2)\n"),
        Err(ParseError::UnsupportedShape),
    );
}

#[test]
fn parsed_case_runs_end_to_end() {
    // the scenario of a one-deep case with a unit bound, denominator
    // four and a contradiction hypothesis: with a table whose bound
    // always reaches one, every branch is pruned, the envelope stays
    // empty, and the contradiction is reported proved
    let text = "0, 0.3, 1, 4\nbounds(0, 0, 1)\ncontradiction\n";
    let case = parse_case(text).expect("case should parse");
    assert_eq!(case.max_depth, 1);
    let results = simulate(&flat_bounder(fixed(1.0)), &case);
    assert!(results.is_contradiction());
    assert!(results.check_hypothesis(&case.hypotheses[0]));
    let e = results.default_extrema();
    assert!(e.min_numerator_at(0) > e.max_numerator_at(0) + 1);
}

#[test]
fn results_new_matches_case() {
    let case = contradiction_case();
    let results = Results::new(&case);
    assert!(results.is_contradiction());
    assert_eq!(results.num_subcases(), 0);
    assert_eq!(results.get_sum_lower_bound(&vec![1, 1]), None);
}
