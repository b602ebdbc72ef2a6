use sym_cts::error::PlanningError;
use sym_cts::stage::gen_topology::product_of;
use sym_cts::stage::planner::plan_branches;

#[test]
fn eight_sinks_split_by_the_smallest_divisor() {
    assert_eq!(plan_branches(8, 4), Ok(vec![2, 2, 2]));
    assert_eq!(product_of(&vec![2, 2, 2]), 8);
}

#[test]
fn five_sinks_are_padded_to_six() {
    let plan = plan_branches(5, 4).unwrap();
    assert_eq!(plan, vec![2, 3]);
    assert_eq!(product_of(&plan) - 5, 1);
}

#[test]
fn nine_sinks_take_the_factor_three() {
    assert_eq!(plan_branches(9, 4), Ok(vec![3, 3]));
}

#[test]
fn seven_sinks_with_binary_limit_are_padded_to_eight() {
    assert_eq!(plan_branches(7, 2), Ok(vec![2, 2, 2]));
}

#[test]
fn a_prime_count_within_the_limit_is_one_level() {
    assert_eq!(plan_branches(7, 7), Ok(vec![7]));
}

#[test]
fn a_count_is_padded_at_a_later_position_too() {
    // 10 = 2 * 5, and 5 has no divisor up to 4: it is raised to 6 = 2 * 3.
    assert_eq!(plan_branches(10, 4), Ok(vec![2, 2, 3]));
}

#[test]
fn one_sink_needs_no_level() {
    assert_eq!(plan_branches(1, 4), Ok(vec![]));
    assert_eq!(plan_branches(1, 0), Ok(vec![]));
    assert_eq!(product_of(&vec![]), 1);
}

#[test]
fn no_sink_needs_no_level() {
    assert_eq!(plan_branches(0, 4), Ok(vec![]));
}

#[test]
fn a_limit_below_two_fails() {
    assert_eq!(
        plan_branches(2, 1),
        Err(PlanningError::BranchLimitTooSmall { max_branch: 1 })
    );
    assert_eq!(
        plan_branches(100, 0),
        Err(PlanningError::BranchLimitTooSmall { max_branch: 0 })
    );
}

#[test]
fn a_padded_count_beyond_usize_fails() {
    assert_eq!(
        plan_branches(usize::MAX, 2),
        Err(PlanningError::CapacityExceeded)
    );
}

#[test]
fn the_product_covers_the_count_for_small_counts() {
    for n in 1..200usize {
        for max_branch in 2..9u32 {
            let plan = plan_branches(n, max_branch).unwrap();
            let padded = product_of(&plan);
            assert!(padded >= n);
            assert!(plan.iter().all(|f| 2 <= *f && *f <= max_branch));
            assert_eq!(plan_branches(n, max_branch).unwrap(), plan);
        }
    }
}
