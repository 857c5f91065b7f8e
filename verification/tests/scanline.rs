use core::cmp::Ordering;
use scanline::fill_rule::FillRule;
use scanline::fill_rule::interpret_fill_rule;
use scanline::scanline::Scanline;
use scanline::scanline::ScanlineError;
use scanline::scanline::i8_to_ordering;
use scanline::winding::Intersection;

fn bp(x: i64, direction: i32) -> Intersection {
    Intersection { x, direction }
}

#[test]
fn zero_winding_is_unfilled_under_every_rule() {
    assert!(!interpret_fill_rule(0, FillRule::NonZero));
    assert!(!interpret_fill_rule(0, FillRule::OddEven));
    assert!(!interpret_fill_rule(0, FillRule::Positive));
    assert!(!interpret_fill_rule(0, FillRule::Negative));
}

#[test]
fn fill_rules_on_nonzero_windings() {
    assert!(interpret_fill_rule(1, FillRule::NonZero));
    assert!(interpret_fill_rule(-1, FillRule::NonZero));
    assert!(interpret_fill_rule(1, FillRule::OddEven));
    assert!(interpret_fill_rule(-3, FillRule::OddEven));
    assert!(!interpret_fill_rule(2, FillRule::OddEven));
    assert!(!interpret_fill_rule(-2, FillRule::OddEven));
    assert!(interpret_fill_rule(2, FillRule::Positive));
    assert!(!interpret_fill_rule(-2, FillRule::Positive));
    assert!(interpret_fill_rule(-2, FillRule::Negative));
    assert!(!interpret_fill_rule(2, FillRule::Negative));
}

#[test]
fn test_i8_to_ordering() {
    assert_eq!(i8_to_ordering(-1), Ordering::Less);
    assert_eq!(i8_to_ordering(1), Ordering::Greater);
    assert_eq!(i8_to_ordering(0), Ordering::Equal);
}

#[test]
fn winding_below_first_and_above_last() {
    let mut s = Scanline::new();
    s.set_intersections(vec![bp(2, 1), bp(5, 1), bp(9, -1)]);
    assert_eq!(s.winding_at(1), 0);
    assert_eq!(s.winding_at(-100), 0);
    assert_eq!(s.winding_at(9), 1);
    assert_eq!(s.winding_at(100), 1);
}

#[test]
fn count_intersections_is_monotone() {
    let mut s = Scanline::new();
    s.set_intersections(vec![bp(2, 1), bp(5, -1), bp(5, 1), bp(9, -1)]);
    let mut last: usize = 0;
    for x in -3..12 {
        let c = s.count_intersections(x);
        assert!(c >= last);
        last = c;
    }
    assert_eq!(s.count_intersections(1), 0);
    assert_eq!(s.count_intersections(2), 1);
    assert_eq!(s.count_intersections(5), 3);
    assert_eq!(s.count_intersections(9), 4);
}

#[test]
fn empty_scanline_queries() {
    let mut s = Scanline::new();
    assert_eq!(s.winding_at(0), 0);
    assert_eq!(s.winding_at(-7), 0);
    assert_eq!(s.count_intersections(3), 0);
    assert!(!s.filled(0, FillRule::NonZero));
    assert!(!s.filled(5, FillRule::OddEven));
    assert_eq!(s.move_to(0), Err(ScanlineError::EmptySequenceQuery));
}

#[test]
fn query_below_domain_is_signaled() {
    let mut s = Scanline::new();
    s.set_intersections(vec![bp(4, 1), bp(8, -1)]);
    assert_eq!(s.move_to(3), Err(ScanlineError::QueryBelowDomain));
    assert_eq!(s.move_to(4), Ok(0));
    assert_eq!(s.move_to(8), Ok(1));
    assert_eq!(s.move_to(100), Ok(1));
    assert_eq!(s.winding_at(3), 0);
    assert!(!s.filled(3, FillRule::NonZero));
}

#[test]
fn cursor_survives_jumping_queries() {
    let mut s = Scanline::new();
    s.set_intersections(vec![bp(1, 1), bp(3, 1), bp(5, -1), bp(7, -1)]);
    // Forward sweep, then a cold jump backward, then forward again.
    assert_eq!(s.winding_at(1), 1);
    assert_eq!(s.winding_at(3), 2);
    assert_eq!(s.winding_at(6), 1);
    assert_eq!(s.winding_at(7), 0);
    assert_eq!(s.winding_at(2), 1);
    assert_eq!(s.winding_at(7), 0);
    assert_eq!(s.winding_at(1), 1);
}

#[test]
fn unsorted_input_is_sorted_by_preprocessing() {
    let mut s = Scanline::new();
    s.set_intersections(vec![bp(9, -1), bp(2, 1), bp(5, 1)]);
    assert_eq!(s.winding_at(2), 1);
    assert_eq!(s.winding_at(5), 2);
    assert_eq!(s.winding_at(9), 1);
    assert_eq!(s.count_intersections(6), 2);
}

#[test]
fn coincident_crossings_accumulate() {
    let mut s = Scanline::new();
    s.set_intersections(vec![bp(2, 1), bp(2, 1), bp(6, -2)]);
    assert_eq!(s.winding_at(1), 0);
    assert_eq!(s.winding_at(2), 2);
    assert_eq!(s.count_intersections(2), 2);
    assert_eq!(s.winding_at(6), 0);
    assert!(s.filled(3, FillRule::Positive));
    assert!(!s.filled(3, FillRule::OddEven));
}

#[test]
fn negative_winding_rules() {
    let mut s = Scanline::new();
    s.set_intersections(vec![bp(1, -1), bp(4, 1)]);
    assert_eq!(s.winding_at(2), -1);
    assert!(s.filled(2, FillRule::Negative));
    assert!(!s.filled(2, FillRule::Positive));
    assert!(s.filled(2, FillRule::NonZero));
    assert!(s.filled(2, FillRule::OddEven));
    assert!(!s.filled(4, FillRule::Negative));
}

#[test]
fn overlap_with_itself_is_the_window_length() {
    let mut a = Scanline::new();
    a.set_intersections(vec![bp(1, 1), bp(3, -1)]);
    assert_eq!(Scanline::overlap(&a, &a, 0, 5, FillRule::NonZero), 5);
    assert_eq!(Scanline::overlap(&a, &a, -10, 10, FillRule::OddEven), 20);
    assert_eq!(Scanline::overlap(&a, &a, 2, 2, FillRule::Positive), 0);
    let e = Scanline::new();
    assert_eq!(Scanline::overlap(&e, &e, 0, 7, FillRule::NonZero), 7);
}

#[test]
fn overlap_concrete_scenario() {
    // a filled on [1, 3), b filled on [2, 4) under NonZero; over [0, 5] they
    // agree on [0, 1), [2, 3), and [4, 5]: total 3.
    let mut a = Scanline::new();
    a.set_intersections(vec![bp(1, 1), bp(3, -1)]);
    let mut b = Scanline::new();
    b.set_intersections(vec![bp(2, 1), bp(4, -1)]);
    assert_eq!(Scanline::overlap(&a, &b, 0, 5, FillRule::NonZero), 3);
    assert_eq!(Scanline::overlap(&b, &a, 0, 5, FillRule::NonZero), 3);
}

#[test]
fn overlap_partition_law_scenario() {
    // Same scenario: the rows disagree exactly on [1, 2) and [3, 4), length
    // 2, so agreement plus disagreement covers the window of length 5.
    let mut a = Scanline::new();
    a.set_intersections(vec![bp(1, 1), bp(3, -1)]);
    let mut b = Scanline::new();
    b.set_intersections(vec![bp(2, 1), bp(4, -1)]);
    let agreement = Scanline::overlap(&a, &b, 0, 5, FillRule::NonZero);
    let disagreement: i64 = 2;
    assert_eq!(agreement + disagreement, 5 - 0);
}

#[test]
fn overlap_against_empty_row() {
    // b is filled on [1, 3); the empty row is unfilled everywhere, so they
    // agree exactly where b is unfilled: [0, 1) and [3, 5], length 3.
    let e = Scanline::new();
    let mut b = Scanline::new();
    b.set_intersections(vec![bp(1, 1), bp(3, -1)]);
    assert_eq!(Scanline::overlap(&e, &b, 0, 5, FillRule::NonZero), 3);
    assert_eq!(Scanline::overlap(&b, &e, 0, 5, FillRule::NonZero), 3);
}

#[test]
fn overlap_window_inside_filled_region() {
    let mut a = Scanline::new();
    a.set_intersections(vec![bp(-10, 1), bp(10, -1)]);
    let mut b = Scanline::new();
    b.set_intersections(vec![bp(-10, 1), bp(10, -1)]);
    // Both filled across the whole window; the catch-up phase consumes the
    // crossings left of the window.
    assert_eq!(Scanline::overlap(&a, &b, 0, 5, FillRule::NonZero), 5);
}

#[test]
fn single_crossing_under_odd_even() {
    let mut s = Scanline::new();
    s.set_intersections(vec![bp(0, 1)]);
    assert!(s.filled(0, FillRule::OddEven));
    assert!(s.filled(1, FillRule::OddEven));
    assert!(s.filled(1000, FillRule::OddEven));
    assert!(!s.filled(-1, FillRule::OddEven));
}

#[test]
fn repopulation_with_identical_raw_set_is_stable() {
    let raw = vec![bp(3, 1), bp(1, 1), bp(3, -1), bp(7, -1)];
    let mut s = Scanline::new();
    s.set_intersections(raw.clone());
    let first: Vec<(i64, usize, bool)> = (-2..10)
        .map(|x| (s.winding_at(x), s.count_intersections(x), s.filled(x, FillRule::NonZero)))
        .collect();
    // Re-populate the same scanline with the identical raw set.
    s.set_intersections(raw.clone());
    let second: Vec<(i64, usize, bool)> = (-2..10)
        .map(|x| (s.winding_at(x), s.count_intersections(x), s.filled(x, FillRule::NonZero)))
        .collect();
    assert_eq!(first, second);
    // A fresh scanline fed the same raw set answers the same as well.
    let mut t = Scanline::new();
    t.set_intersections(raw);
    let third: Vec<(i64, usize, bool)> = (-2..10)
        .map(|x| (t.winding_at(x), t.count_intersections(x), t.filled(x, FillRule::NonZero)))
        .collect();
    assert_eq!(first, third);
}

#[test]
fn replacement_discards_previous_state() {
    let mut s = Scanline::new();
    s.set_intersections(vec![bp(1, 1), bp(2, -1)]);
    assert_eq!(s.winding_at(1), 1);
    s.set_intersections(vec![bp(5, 1)]);
    assert_eq!(s.winding_at(1), 0);
    assert_eq!(s.winding_at(5), 1);
    assert_eq!(s.count_intersections(10), 1);
}
