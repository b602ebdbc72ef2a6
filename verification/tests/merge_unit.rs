use sym_cts::merge::MergeUnit;
use sym_cts::route::Path;

#[test]
fn a_new_unit_is_empty() {
    let unit = MergeUnit::new();
    assert!(unit.sink.is_empty());
    assert!(unit.path.is_empty());
    assert_eq!(unit.root, (0, 0));
    assert_eq!(unit.common_length(), 0);
    assert_eq!(unit.level, 0);
    assert!(!unit.is_root());
    assert_eq!(unit.length(), 0);
}

#[test]
fn the_unit_at_level_one_is_the_root() {
    let mut unit = MergeUnit::new();
    unit.set_level(1);
    assert!(unit.is_root());
    unit.set_level(2);
    assert!(!unit.is_root());
    assert_eq!(unit.level, 2);
}

#[test]
fn loading_collinear_sinks() {
    let mut unit = MergeUnit::new();
    unit.load_sink(&[(0, 0), (10, 0), (20, 0), (30, 0)]);
    assert_eq!(unit.root, (15, 0));
    assert_eq!(unit.common_length(), 15);
    assert!(unit.if_horizontal);
    assert_eq!(unit.x_range, (0, 30));
    assert_eq!(unit.y_range, (0, 0));
    assert_eq!(unit.sink, vec![(0, 0), (10, 0), (20, 0), (30, 0)]);
}

#[test]
fn loading_twice_keeps_the_points_and_repeats_the_analysis() {
    let mut unit = MergeUnit::new();
    unit.load_sink(&[(0, 0), (10, 0)]);
    let root = unit.root;
    let length = unit.common_length();
    unit.load_sink(&[(0, 0), (10, 0)]);
    assert_eq!(unit.root, root);
    assert_eq!(unit.common_length(), length);
    assert_eq!(unit.sink.len(), 4);
}

#[test]
fn merging_a_horizontal_group() {
    let mut unit = MergeUnit::new();
    unit.load_sink(&[(0, 4), (10, -2), (20, 6), (30, 0)]);
    assert!(unit.if_horizontal);
    assert_eq!(unit.root, (15, 2));
    assert_eq!(unit.common_length(), 17);
    unit.merge();
    assert_eq!(
        unit.path,
        vec![
            Path { from: (0, 4), turn: Some((0, 2)), to: (15, 2) },
            Path { from: (10, -2), turn: None, to: (10, 2) },
            Path { from: (20, 6), turn: None, to: (20, 2) },
            Path { from: (30, 0), turn: Some((30, 2)), to: (15, 2) },
        ]
    );
    assert_eq!(unit.length(), 17 + 4 + 4 + 17);
}

#[test]
fn merging_a_vertical_group() {
    let mut unit = MergeUnit::new();
    unit.load_sink(&[(1, 0), (5, 10), (-3, 20)]);
    assert!(!unit.if_horizontal);
    assert_eq!(unit.root, (-1, 10));
    unit.merge();
    assert_eq!(
        unit.path,
        vec![
            Path { from: (1, 0), turn: Some((-1, 0)), to: (-1, 10) },
            Path { from: (5, 10), turn: None, to: (-1, 10) },
            Path { from: (-3, 20), turn: Some((-1, 20)), to: (-1, 10) },
        ]
    );
}

#[test]
fn every_point_reaches_the_root_over_its_manhattan_distance() {
    let mut unit = MergeUnit::new();
    let points = [(0, 4), (10, -2), (20, 6), (30, 0), (12, 9)];
    unit.load_sink(&points);
    unit.merge();
    for (p, path) in points.iter().zip(unit.path.iter()) {
        let direct = (p.0 - unit.root.0).abs() + (p.1 - unit.root.1).abs();
        let along = (path.to.0 - unit.root.0).abs() + (path.to.1 - unit.root.1).abs();
        assert_eq!(path.length() as i32 + along, direct);
    }
}

#[test]
fn merging_appends_to_the_paths() {
    let mut unit = MergeUnit::new();
    unit.load_sink(&[(0, 0), (4, 0)]);
    unit.merge();
    unit.merge();
    assert_eq!(unit.path.len(), 4);
    assert_eq!(unit.path[0], unit.path[2]);
}

#[test]
fn adjusting_the_root_of_a_vertical_group() {
    let mut unit = MergeUnit::new();
    unit.load_sink(&[(0, 0), (10, 40)]);
    assert_eq!(unit.root, (5, 20));
    assert!(unit.adjust_root(3));
    assert_eq!(unit.root, (8, 20));
    assert_eq!(unit.path, vec![Path { from: (5, 20), turn: None, to: (8, 20) }]);
    assert!(unit.adjust_root(3));
    assert_eq!(unit.root, (5, 20));
    assert_eq!(unit.path[1], Path { from: (8, 20), turn: None, to: (5, 20) });
}

#[test]
fn adjusting_the_root_of_a_horizontal_group() {
    let mut unit = MergeUnit::new();
    unit.load_sink(&[(0, 0), (40, 10), (20, 3)]);
    assert!(unit.if_horizontal);
    assert_eq!(unit.root, (20, 5));
    assert!(unit.adjust_root(4));
    assert_eq!(unit.root, (5, 9));
    assert_eq!(unit.path, vec![Path { from: (20, 5), turn: None, to: (5, 9) }]);
    assert!(unit.adjust_root(1));
    assert_eq!(unit.root, (5, 10));
}

#[test]
fn adjusting_the_root_beyond_the_range_changes_nothing() {
    let mut unit = MergeUnit::new();
    unit.load_sink(&[(i32::MAX - 1, 0), (i32::MAX - 1, 40)]);
    assert_eq!(unit.root, (i32::MAX - 1, 20));
    assert!(!unit.adjust_root(2));
    assert_eq!(unit.root, (i32::MAX - 1, 20));
    assert!(unit.path.is_empty());
    assert!(unit.adjust_root(1));
    assert_eq!(unit.root, (i32::MAX, 20));
    assert!(unit.adjust_root(u32::MAX));
    assert_eq!(unit.root, (i32::MIN, 20));
}
