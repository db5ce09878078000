use quotation_align::path::{costs_equal, keep_unambiguous, points_equal, remove_backtracks, Point, MAX_COST_BITS};

fn p(x: usize, y: usize, c: f32) -> Point {
    (x, y, c.to_bits())
}

#[test]
fn costs_compare_as_floats() {
    assert!(costs_equal(1.0f32.to_bits(), 1.0f32.to_bits()));
    assert!(costs_equal(0.0f32.to_bits(), (-0.0f32).to_bits()));
    assert!(!costs_equal(f32::NAN.to_bits(), f32::NAN.to_bits()));
    assert!(!costs_equal(0.5f32.to_bits(), 0.25f32.to_bits()));
    assert!(costs_equal(f32::INFINITY.to_bits(), f32::INFINITY.to_bits()));
    assert_eq!(MAX_COST_BITS, 1.0f32.to_bits());
    let samples = [0.0f32, -0.0, 1.0, -1.0, 0.5, f32::NAN, -f32::NAN, f32::INFINITY, f32::MIN_POSITIVE, 1e-40];
    for a in samples {
        for b in samples {
            assert_eq!(costs_equal(a.to_bits(), b.to_bits()), a == b);
        }
    }
}

#[test]
fn points_compare_coordinates_and_costs() {
    assert!(points_equal(p(1, 2, 0.0), p(1, 2, -0.0)));
    assert!(!points_equal(p(1, 2, 0.0), p(2, 1, 0.0)));
    assert!(!points_equal(p(1, 2, f32::NAN), p(1, 2, f32::NAN)));
}

#[test]
fn remove_backtracks_cuts_abandoned_branches() {
    let c = 0.25;
    let input = vec![
        p(0, 0, c),
        p(1, 0, c),
        p(2, 0, c),
        p(3, 0, c),
        p(2, 0, c), // back to the step at index 2
        p(2, 1, c),
        p(2, 2, c),
        p(2, 0, c), // back to it again
        p(2, 3, c),
    ];
    let out = remove_backtracks(&input);
    assert_eq!(out, vec![p(0, 0, c), p(1, 0, c), p(2, 0, c), p(2, 3, c)]);
}

#[test]
fn remove_backtracks_keeps_a_path_without_repeats() {
    let input = vec![p(0, 0, 0.1), p(1, 1, 0.2), p(2, 1, 0.3)];
    assert_eq!(remove_backtracks(&input), input);
    assert_eq!(remove_backtracks(&[]), Vec::<Point>::new());
}

#[test]
fn remove_backtracks_needs_equal_costs() {
    // the same cell with another cost is another step
    let input = vec![p(0, 0, 0.1), p(1, 1, 0.2), p(0, 0, 0.3)];
    assert_eq!(remove_backtracks(&input), input);
    // a NaN cost never matches, not even itself
    let input = vec![p(0, 0, f32::NAN), p(1, 1, 0.2), p(0, 0, f32::NAN)];
    assert_eq!(remove_backtracks(&input).len(), 3);
    // the two zeros match
    let input = vec![p(0, 0, 0.0), p(1, 1, 0.2), p(0, 0, -0.0)];
    assert_eq!(remove_backtracks(&input), vec![p(0, 0, -0.0)]);
}

#[test]
fn remove_backtracks_is_idempotent_and_ends_with_the_input() {
    let input = vec![p(0, 0, 1.0), p(1, 1, 0.5), p(0, 0, 1.0), p(1, 0, 0.0), p(1, 1, 0.5), p(2, 2, 0.0)];
    let once = remove_backtracks(&input);
    assert_eq!(remove_backtracks(&once), once);
    assert_eq!(once.last(), input.last());
    for q in &once {
        assert!(input.contains(q));
    }
    for i in 0..once.len() {
        for j in (i + 1)..once.len() {
            assert!(!points_equal(once[i], once[j]));
        }
    }
}

#[test]
fn keep_unambiguous_drops_words_matched_twice() {
    let path = vec![p(0, 0, 0.0), p(1, 1, 0.1), p(2, 1, 0.2), p(3, 2, 0.0), p(4, 4, 0.0)];
    assert_eq!(keep_unambiguous(&path), vec![p(0, 0, 0.0), p(3, 2, 0.0), p(4, 4, 0.0)]);
    assert_eq!(keep_unambiguous(&[]), Vec::<Point>::new());
}
