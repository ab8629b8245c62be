use rademacher::case::Case;
use rademacher::prawitz::Bounder;
use rademacher::prover::CoefSeq;
use rademacher::restriction::Restriction;

fn fixed(v: f64) -> i64 {
    (v * 1e12) as i64
}

fn plain_case(denominator: u128, max_depth: usize, prob_cutoff: i64) -> Case {
    Case {
        threshold: 0,
        prob_cutoff,
        max_depth,
        denominator,
        bounds: Vec::new(),
        restrictions: Vec::new(),
        subcases: Vec::new(),
        hypotheses: Vec::new(),
    }
}

fn flat_bounder(value: i64) -> Bounder {
    let rows = vec![vec![value; 16]; 4];
    Bounder::new_manual(rows, 4, 2, 8).unwrap()
}

#[test]
fn seq_accessors() {
    let mut s = CoefSeq::new(0, 4, 3);
    assert_eq!(s.iter_numerators(), vec![0, 0, 0]);
    s.set(1, 3);
    assert_eq!(s.get_min_numerator(1), 3);
    assert_eq!(s.iter_numerators(), vec![0, 3, 0]);
}

#[test]
fn seq_interval_width_is_one_unit() {
    let mut s = CoefSeq::new(0, 4, 2);
    s.set(0, 2);
    let lo = s.get_min(0);
    let hi = s.get_max(0);
    // same denominator, numerators one apart: the width is exactly 1/4
    assert_eq!(lo, (2, 4));
    assert_eq!(hi, (3, 4));
    assert_eq!(hi.1, lo.1);
    assert_eq!(hi.0 - lo.0, 1);
    assert!(lo.0 * hi.1 <= hi.0 * lo.1);
}

#[test]
fn seq_variances_exact() {
    let mut s = CoefSeq::new(0, 4, 2);
    s.set(0, 2);
    s.set(1, 1);
    // minimum variance (2^2 + 1^2) / 4^2 = 5/16
    assert_eq!(s.min_variance(), (5, 16));
    // maximum variance (3^2 + 2^2) / 4^2 = 13/16
    assert_eq!(s.max_variance(), (13, 16));
}

#[test]
fn variance_above_one_is_never_a_counterexample() {
    // five numerators of 1 over denominator 2 force min variance 5/4 > 1
    let s = CoefSeq::new(1, 2, 5);
    let case = plain_case(2, 5, fixed(0.0));
    let bounder = flat_bounder(0);
    assert!(!s.could_be_counterexample(&bounder, &case, 5));
}

#[test]
fn upper_bound_capped_below_denominator() {
    // a declared bound reaching 1.0 still yields numerator cap D - 1:
    // every admissible numerator stays below the denominator
    let case = Case {
        threshold: 0,
        prob_cutoff: fixed(0.3),
        max_depth: 1,
        denominator: 4,
        bounds: vec![rademacher::restriction::Interval { lb: 0, ub: fixed(1.0) }],
        restrictions: Vec::new(),
        subcases: Vec::new(),
        hypotheses: Vec::new(),
    };
    assert_eq!(case.get_upper_bound(0), 3);
    assert_eq!(case.get_lower_bound(0), 0);
    // past the declared bounds the cap is the same
    assert_eq!(case.get_upper_bound(5), 3);
    // a tighter bound keeps its own floor
    let tight = Case {
        bounds: vec![rademacher::restriction::Interval { lb: 0, ub: fixed(0.6) }],
        ..case
    };
    assert_eq!(tight.get_upper_bound(0), 2);
}

#[test]
fn satisfies_restrictions_each_kind() {
    let mut s = CoefSeq::new(0, 4, 2);
    s.set(0, 2);
    s.set(1, 1);
    let ok = vec![
        Restriction::InitialSumUpperBound(2, fixed(0.75)),
        Restriction::InitialSumLowerBound(2, fixed(1.2)),
        Restriction::MidSumUpperBound(1, 2, fixed(0.3)),
        Restriction::Bounds(0, rademacher::restriction::Interval {
            lb: fixed(0.5),
            ub: fixed(0.8),
        }),
    ];
    assert!(s.satisfies_restrictions(&ok, 2));
    let too_tight_upper = vec![Restriction::InitialSumUpperBound(2, fixed(0.7))];
    assert!(!s.satisfies_restrictions(&too_tight_upper, 2));
    let too_high_lower = vec![Restriction::InitialSumLowerBound(2, fixed(1.3))];
    assert!(!s.satisfies_restrictions(&too_high_lower, 2));
    let mid = vec![Restriction::MidSumUpperBound(1, 2, fixed(0.2))];
    assert!(!s.satisfies_restrictions(&mid, 2));
    let disjoint = vec![Restriction::Bounds(0, rademacher::restriction::Interval {
        lb: fixed(0.8),
        ub: fixed(0.9),
    })];
    assert!(!s.satisfies_restrictions(&disjoint, 2));
    // a bounds restriction past the current depth is vacuous
    let deep = vec![Restriction::Bounds(1, rademacher::restriction::Interval {
        lb: fixed(0.9),
        ub: fixed(0.95),
    })];
    assert!(s.satisfies_restrictions(&deep, 1));
    assert!(!s.satisfies_restrictions(&deep, 2));
}

#[test]
fn pruning_follows_the_table() {
    // every table value is 1.0, so the averaged bound is far above any
    // cutoff below one and every branch is discarded
    let mut s = CoefSeq::new(0, 4, 2);
    s.set(0, 1);
    let case = plain_case(4, 2, fixed(0.3));
    let ones = flat_bounder(fixed(1.0));
    assert!(!s.could_be_counterexample(&ones, &case, 1));
    // with an all-zero table the bound is zero and nothing is discarded
    let zeros = flat_bounder(0);
    assert!(s.could_be_counterexample(&zeros, &case, 1));
}
