use sym_cts::error::PartitionError;
use sym_cts::stage::partition::{find_group, get_center, group, phase_before, sort_members};

#[test]
fn center_is_the_mean() {
    assert_eq!(get_center(&[(0, 0), (10, 0), (20, 0), (30, 0)]), (15, 0));
    assert_eq!(get_center(&[(1, 2), (3, 6)]), (2, 4));
}

#[test]
fn center_rounds_toward_zero() {
    assert_eq!(get_center(&[(-3, 3), (0, 0)]), (-1, 1));
    assert_eq!(get_center(&[(i32::MAX, i32::MIN), (i32::MAX, i32::MIN)]), (i32::MAX, i32::MIN));
}

#[test]
fn center_of_nothing_is_the_origin() {
    assert_eq!(get_center(&[]), (0, 0));
}

#[test]
fn phase_grows_counter_clockwise_above_the_axis() {
    let c = (0, 0);
    assert!(phase_before((1, 1), (-1, 1), c));
    assert!(!phase_before((-1, 1), (1, 1), c));
    assert!(phase_before((5, 1), (1, 5), c));
}

#[test]
fn points_of_equal_phase_are_not_before_each_other() {
    let c = (0, 0);
    assert!(!phase_before((1, 1), (2, 2), c));
    assert!(!phase_before((2, 2), (1, 1), c));
}

#[test]
fn lower_half_follows_upper_half() {
    let c = (0, 0);
    assert!(phase_before((-1, 1), (-1, -1), c));
    assert!(phase_before((-1, -1), (1, -1), c));
    assert!(!phase_before((1, -1), (1, 1), c));
}

#[test]
fn the_axis_comes_last() {
    let c = (0, 0);
    assert!(phase_before((1, -1), (1, 0), c));
    assert!(phase_before((1, 0), (-1, 0), c));
    assert!(phase_before((1, 1), (1, 0), c));
    assert!(!phase_before((0, 0), (3, 0), c));
    assert!(!phase_before((3, 0), (0, 0), c));
    assert!(!phase_before((-1, 0), (1, 0), c));
}

#[test]
fn phase_is_taken_around_the_center() {
    let c = (10, 10);
    assert!(phase_before((11, 11), (9, 11), c));
    assert!(phase_before((9, 9), (11, 9), c));
}

#[test]
fn phase_compares_extreme_offsets_exactly() {
    let c = (i32::MIN, i32::MIN);
    assert!(phase_before((i32::MAX, i32::MAX - 1), (i32::MAX - 1, i32::MAX), c));
    assert!(!phase_before((i32::MAX - 1, i32::MAX), (i32::MAX, i32::MAX - 1), c));
}

#[test]
fn sorting_is_stable() {
    let coords = [(2, 2), (-1, 1), (1, 1), (-1, -1), (3, 3)];
    let sorted = sort_members(&coords, (0, 0), &vec![0, 1, 2, 3, 4]);
    assert_eq!(sorted, vec![0, 2, 4, 1, 3]);
    let sorted = sort_members(&coords, (0, 0), &vec![4, 3, 2, 1, 0]);
    assert_eq!(sorted, vec![4, 2, 0, 1, 3]);
}

#[test]
fn find_group_cuts_the_sorted_members() {
    let coords = [(1, -1), (-1, -1), (-1, 1), (1, 1)];
    let groups = find_group(&coords, (0, 0), (0, vec![0, 1, 2, 3]), 2).unwrap();
    assert_eq!(groups, vec![(0, vec![3, 2]), (1, vec![1, 0])]);
}

#[test]
fn find_group_labels_children_from_the_parent() {
    let coords = [(1, 1), (-1, 1), (-1, -1)];
    let groups = find_group(&coords, (0, 0), (5, vec![0, 1, 2]), 3).unwrap();
    assert_eq!(groups, vec![(10, vec![0]), (11, vec![1]), (12, vec![2])]);
}

#[test]
fn find_group_folds_the_remainder_into_the_last_group() {
    let coords = [(5, 1), (4, 2), (3, 3), (2, 4), (1, 5)];
    let groups = find_group(&coords, (0, 0), (1, vec![0, 1, 2, 3, 4]), 2).unwrap();
    assert_eq!(groups, vec![(1, vec![0, 1]), (2, vec![2, 3, 4])]);
}

#[test]
fn find_group_with_one_child_keeps_the_group() {
    let coords = [(1, 1), (-1, 1)];
    let groups = find_group(&coords, (0, 0), (7, vec![1, 0]), 1).unwrap();
    assert_eq!(groups, vec![(0, vec![0, 1])]);
}

#[test]
fn find_group_rejects_a_zero_branch() {
    let coords = [(1, 1)];
    assert_eq!(
        find_group(&coords, (0, 0), (4, vec![0]), 0),
        Err(PartitionError::ZeroBranch { label: 4 })
    );
}

#[test]
fn find_group_rejects_too_few_members() {
    let coords = [(1, 1), (2, 2)];
    assert_eq!(
        find_group(&coords, (0, 0), (4, vec![0, 1]), 3),
        Err(PartitionError::TooFewMembers { label: 4, size: 2, branch: 3 })
    );
}

#[test]
fn find_group_rejects_a_label_beyond_u32() {
    let coords = [(1, 1), (2, 2), (3, 3)];
    assert_eq!(
        find_group(&coords, (0, 0), (u32::MAX, vec![0, 1, 2]), 3),
        Err(PartitionError::LabelOverflow { label: u32::MAX, branch: 3 })
    );
    assert!(find_group(&coords, (0, 0), (u32::MAX - 1, vec![0, 1, 2]), 2).is_ok());
}

#[test]
fn group_of_a_square() {
    let coords = [(1, 1), (-1, 1), (-1, -1), (1, -1)];
    let order = group(&coords, &vec![2, 2]).unwrap();
    assert_eq!(order, vec![(0, 0), (1, 1), (1, 2), (2, 3)]);
}

#[test]
fn group_of_two_concentric_squares() {
    let coords = [
        (20, 20),
        (-20, 20),
        (-20, -20),
        (20, -20),
        (10, 10),
        (-10, 10),
        (-10, -10),
        (10, -10),
    ];
    let order = group(&coords, &vec![2, 2, 2]).unwrap();
    assert_eq!(
        order,
        vec![(0, 0), (1, 4), (1, 1), (2, 5), (1, 2), (2, 6), (2, 3), (3, 7)]
    );
}

#[test]
fn group_without_factors_is_one_group() {
    let coords = [(3, 4), (5, 6)];
    assert_eq!(group(&coords, &vec![]), Ok(vec![(0, 0), (0, 1)]));
    assert_eq!(group(&[], &vec![]), Ok(vec![]));
}

#[test]
fn group_holds_every_index_once() {
    let mut coords: Vec<(i32, i32)> = Vec::new();
    let mut seed: i64 = 12345;
    for _ in 0..24 {
        seed = (seed * 1103515245 + 12345) % 2147483648;
        let x = (seed % 2001 - 1000) as i32;
        seed = (seed * 1103515245 + 12345) % 2147483648;
        let y = (seed % 2001 - 1000) as i32;
        coords.push((x, y));
    }
    let order = group(&coords, &vec![2, 3, 4]).unwrap();
    assert_eq!(order.len(), 24);
    let mut seen = vec![false; 24];
    for (_, sink) in &order {
        assert!(!seen[*sink]);
        seen[*sink] = true;
    }
    assert!(seen.iter().all(|s| *s));
}

#[test]
fn group_keeps_every_index_when_the_count_is_not_the_product() {
    let coords = [(1, 1), (-1, 1), (-1, -1), (1, -1), (2, 1)];
    let order = group(&coords, &vec![2, 2]).unwrap();
    let mut sinks: Vec<usize> = order.iter().map(|e| e.1).collect();
    sinks.sort();
    assert_eq!(sinks, vec![0, 1, 2, 3, 4]);
}

#[test]
fn group_fails_where_a_group_is_too_small() {
    let coords = [(1, 1), (-1, 1), (-1, -1)];
    assert_eq!(
        group(&coords, &vec![2, 2]),
        Err(PartitionError::TooFewMembers { label: 0, size: 1, branch: 2 })
    );
}

#[test]
fn group_fails_on_a_zero_factor() {
    let coords = [(1, 1), (-1, 1)];
    assert_eq!(group(&coords, &vec![2, 0]), Err(PartitionError::ZeroBranch { label: 0 }));
}
