use sym_cts::geometry::{analyze, midpoint_of};
use sym_cts::model::MergeUnit;
use sym_cts::route::{manhattan_of, span_of, sum_lengths, Path};
use sym_cts::text::{decimal_string, numbered};

#[test]
fn four_collinear_sinks_merge_at_the_middle() {
    let e = analyze(&[(0, 0), (10, 0), (20, 0), (30, 0)]);
    assert_eq!(e.location, (15, 0));
    assert_eq!(e.common_length, 15);
    assert!(e.if_horizontal);
    assert_eq!(e.x_range, (0, 30));
    assert_eq!(e.y_range, (0, 0));
}

#[test]
fn a_tall_group_is_vertical() {
    let e = analyze(&[(3, 40), (0, 0), (5, 10)]);
    assert!(!e.if_horizontal);
    assert_eq!(e.location, (1, 20));
    assert_eq!(e.common_length, 1 + 20);
    assert_eq!(e.x_range, (0, 5));
    assert_eq!(e.y_range, (0, 40));
}

#[test]
fn a_square_group_is_vertical() {
    let e = analyze(&[(0, 0), (10, 10)]);
    assert!(!e.if_horizontal);
    assert_eq!(e.location, (5, 5));
    assert_eq!(e.common_length, 10);
}

#[test]
fn the_junction_joins_the_extreme_points_not_the_centroid() {
    let e = analyze(&[(0, 4), (1, 0), (2, 0), (100, 0)]);
    assert!(e.if_horizontal);
    assert_eq!(e.location, (50, 2));
    assert_eq!(e.common_length, 50 + 2);
}

#[test]
fn the_first_of_several_extreme_points_counts() {
    let e = analyze(&[(0, 8), (0, 2), (9, 6), (9, 0)]);
    assert!(e.if_horizontal);
    assert_eq!(e.location, (4, 7));
    assert_eq!(e.common_length, 4 + 1);
}

#[test]
fn one_point_is_its_own_junction() {
    let e = analyze(&[(7, -3)]);
    assert!(!e.if_horizontal);
    assert_eq!(e.location, (7, -3));
    assert_eq!(e.common_length, 0);
    assert_eq!(e.x_range, (7, 7));
}

#[test]
fn no_point_gives_the_origin() {
    let e = analyze(&[]);
    assert!(!e.if_horizontal);
    assert_eq!(e.location, (0, 0));
    assert_eq!(e.common_length, 0);
    assert_eq!(e.x_range, (i32::MAX, i32::MIN));
    assert_eq!(e.y_range, (i32::MAX, i32::MIN));
}

#[test]
fn the_widest_group_does_not_overflow() {
    let e = analyze(&[(i32::MIN, i32::MIN), (i32::MAX, i32::MAX)]);
    assert!(!e.if_horizontal);
    assert_eq!(e.location, (0, 0));
    assert_eq!(e.common_length, 1u64 << 32);
}

#[test]
fn midpoint_rounds_toward_zero() {
    assert_eq!(midpoint_of((0, 0), (3, -3)), (1, -1));
    assert_eq!(midpoint_of((-20, -20), (-10, -10)), (-15, -15));
    assert_eq!(midpoint_of((i32::MAX, i32::MIN), (i32::MAX, i32::MIN)), (i32::MAX, i32::MIN));
}

#[test]
fn analysis_is_repeatable() {
    let points = [(4, 9), (-3, 2), (8, 8), (0, -5)];
    let mut a = MergeUnit::default();
    let mut b = MergeUnit::default();
    a.analyze_child_location(&points);
    b.analyze_child_location(&points);
    b.analyze_child_location(&points);
    assert_eq!(a.location, b.location);
    assert_eq!(a.common_length, b.common_length);
    assert_eq!(a.if_horizontal, b.if_horizontal);
}

#[test]
fn analysis_keeps_the_first_node_and_the_path() {
    let mut unit = MergeUnit::default();
    unit.first_node = 3;
    unit.path.push(Path { from: (0, 0), turn: None, to: (0, 5) });
    unit.analyze_child_location(&[(0, 0), (10, 0), (20, 0), (30, 0)]);
    assert_eq!(unit.first_node, 3);
    assert_eq!(unit.path.len(), 1);
    assert_eq!(unit.location, (15, 0));
    assert_eq!(unit.common_length, 15);
    assert!(unit.if_horizontal);
    assert_eq!(unit.length(), 5);
}

#[test]
fn distances() {
    assert_eq!(span_of(3, -4), 7);
    assert_eq!(span_of(i32::MIN, i32::MAX), 0xffff_ffff);
    assert_eq!(manhattan_of((0, 0), (3, -4)), 7);
    assert_eq!(manhattan_of((i32::MIN, i32::MIN), (i32::MAX, i32::MAX)), 0x1_ffff_fffe);
}

#[test]
fn path_lengths() {
    let straight = Path { from: (0, 0), turn: None, to: (0, 9) };
    let bent = Path { from: (1, 1), turn: Some((1, 5)), to: (4, 5) };
    assert_eq!(straight.length(), 9);
    assert_eq!(bent.length(), 7);
    assert_eq!(sum_lengths(&vec![straight, bent]), 16);
    assert_eq!(sum_lengths(&vec![]), 0);
}

#[test]
fn decimal_numerals() {
    assert_eq!(decimal_string(0), "0");
    assert_eq!(decimal_string(7), "7");
    assert_eq!(decimal_string(10), "10");
    assert_eq!(decimal_string(4096), "4096");
    assert_eq!(decimal_string(usize::MAX), format!("{}", usize::MAX));
    assert_eq!(numbered("n_s", 12), "n_s12");
}
