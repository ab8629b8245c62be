use rademacher::codec::bounder_from_lines;
use rademacher::fixed::SCALE;
use rademacher::prawitz::{round_up, seed_arguments, Bounder};

fn sample_bounder() -> Bounder {
    // two coefficient bins, four threshold bins (thresh_gran 2, max_bound 2)
    let rows = vec![
        vec![500_000_000_000, 400_000_000_000, 300_000_000_000, 200_000_000_000],
        vec![500_000_000_000, 350_000_000_000, 250_000_000_000, 150_000_000_000],
    ];
    Bounder::new_manual(rows, 2, 2, 2).unwrap()
}

#[test]
fn new_manual_validates_shape() {
    assert!(Bounder::new_manual(vec![vec![0, 0], vec![0, 0]], 2, 1, 1).is_some());
    // wrong row count
    assert!(Bounder::new_manual(vec![vec![0, 0]], 2, 1, 1).is_none());
    // wrong column count
    assert!(Bounder::new_manual(vec![vec![0, 0, 0], vec![0, 0]], 2, 1, 1).is_none());
    // a value outside [0, SCALE]
    assert!(Bounder::new_manual(vec![vec![0, SCALE + 1]], 1, 1, 1).is_none());
    assert!(Bounder::new_manual(vec![vec![0, -1]], 1, 1, 1).is_none());
    // a zero shape parameter
    assert!(Bounder::new_manual(Vec::new(), 0, 1, 1).is_none());
}

#[test]
fn get_reads_the_selected_cell() {
    let b = sample_bounder();
    // coefficient 0.5 selects row ceil(0.5 * 2) = 1; cutoff 0 selects
    // column ceil(0) + 2 = 2
    assert_eq!(b.get(SCALE / 2, 0), 250_000_000_000);
    // cutoff 0.5 selects column ceil(0.5 * 2) + 2 = 3
    assert_eq!(b.get(SCALE / 2, SCALE / 2), 150_000_000_000);
    // a cutoff past the last column gives the trivial bound zero
    assert_eq!(b.get(SCALE / 2, SCALE), 0);
    // a negative cutoff clamps to the first column
    assert_eq!(b.get(SCALE / 4, -2 * SCALE), 500_000_000_000);
}

#[test]
fn bernstein_improves_the_extreme_left_tail() {
    let b = sample_bounder();
    // at cutoff -4 the table alone answers one half, and the Bernstein
    // bound takes over with a value close to one
    let v = b.get(0, -4 * SCALE);
    assert!(v > 900_000_000_000, "bernstein bound too weak: {}", v);
    assert!(v < SCALE);
}

#[test]
fn trivial_floor_applies_to_nonpositive_thresholds() {
    let mut b = Bounder::new_manual(vec![vec![0, 0, 100, 100]; 2], 2, 2, 2).unwrap();
    b.apply_trivial_floor();
    // columns below max_bound = 2 rise to one half, the rest stay
    assert_eq!(b.bounds()[0], vec![SCALE / 2, SCALE / 2, 100, 100]);
    assert_eq!(b.bounds()[1], vec![SCALE / 2, SCALE / 2, 100, 100]);
}

#[test]
fn refinement_never_lowers_a_cell() {
    let b = sample_bounder();
    let refined = b.refine_pass();
    for (row, old_row) in refined.bounds().iter().zip(b.bounds().iter()) {
        for (v, old_v) in row.iter().zip(old_row.iter()) {
            assert!(v >= old_v);
        }
    }
    let mut it = sample_bounder();
    it.refine(3);
    for (row, old_row) in it.bounds().iter().zip(b.bounds().iter()) {
        for (v, old_v) in row.iter().zip(old_row.iter()) {
            assert!(v >= old_v);
        }
    }
}

#[test]
fn round_up_and_seed_arguments() {
    assert_eq!(round_up(5, 16), 16);
    assert_eq!(round_up(16, 16), 16);
    assert_eq!(round_up(17, 16), 32);
    assert_eq!(round_up(0, 16), 0);
    assert_eq!(round_up(-5, 8), 0);
    assert_eq!(round_up(-9, 8), -8);
    assert_eq!(seed_arguments(5, 3, 10), (17, 1));
    assert_eq!(seed_arguments(0, 0, 10), (1, -7));
}

#[test]
fn header_line_lists_the_shape() {
    let b = sample_bounder();
    assert_eq!(b.header_line().as_str(), "2,2,2");
}

#[test]
fn persisting_and_loading_reproduces_lookups() {
    let b = sample_bounder();
    let lines = b.bounder_to_lines();
    assert_eq!(lines[0].as_str(), "2,2,2");
    let loaded = bounder_from_lines(&lines).expect("round trip failed");
    assert_eq!(loaded.bounds(), b.bounds());
    assert_eq!(loaded.coef_gran(), b.coef_gran());
    assert_eq!(loaded.thresh_gran(), b.thresh_gran());
    assert_eq!(loaded.max_bound(), b.max_bound());
    let mut a = -2 * SCALE;
    while a <= 2 * SCALE {
        let mut cutoff = -5 * SCALE;
        while cutoff <= 3 * SCALE {
            if a >= 0 {
                assert_eq!(b.get(a, cutoff), loaded.get(a, cutoff));
            }
            cutoff += SCALE / 4;
        }
        a += SCALE / 8;
    }
}

#[test]
fn malformed_tables_are_rejected() {
    let good = sample_bounder().bounder_to_lines();
    // missing row
    let mut short = good.clone();
    short.pop();
    assert!(bounder_from_lines(&short).is_none());
    // malformed header
    let mut bad_header = good.clone();
    bad_header[0] = String::from("2,2");
    assert!(bounder_from_lines(&bad_header).is_none());
    // a row value that is not a number
    let mut bad_value = good.clone();
    bad_value[1] = String::from("1,x,3,4");
    assert!(bounder_from_lines(&bad_value).is_none());
    // a row with the wrong width
    let mut bad_width = good;
    bad_width[2] = String::from("1,2,3");
    assert!(bounder_from_lines(&bad_width).is_none());
}
