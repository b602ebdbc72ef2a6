use sym_cts::error::{PlanningError, TopologyError};
use sym_cts::model::{ClockTree, Node, NodeOwner, Stage};
use sym_cts::stage::cfg::GenTopologyCfg;
use sym_cts::stage::gen_topology::draw_locations;

fn tree_with_sinks(locations: &[(i32, i32)]) -> ClockTree {
    let mut tree = ClockTree::new("clk");
    let sinks: Vec<(String, (i32, i32))> = locations
        .iter()
        .enumerate()
        .map(|(i, p)| (format!("ff{}", i), *p))
        .collect();
    tree.load_sinks(&sinks);
    tree
}

fn squares() -> ClockTree {
    tree_with_sinks(&[
        (20, 20),
        (-20, 20),
        (-20, -20),
        (20, -20),
        (10, 10),
        (-10, 10),
        (-10, -10),
        (10, -10),
    ])
}

fn children(tree: &ClockTree, unit: usize) -> Vec<usize> {
    tree.get_merge_unit_load_nodes(unit).collect()
}

#[test]
fn eight_sinks_on_two_squares() {
    let mut tree = squares();
    assert_eq!(tree.gen_topology(&GenTopologyCfg { max_branch: 4 }), Ok(()));
    assert_eq!(tree.stage, Stage::TopologyBuilt);
    assert!(tree.is_well_formed());
    // No sink is added.
    assert_eq!(tree.sinks.len(), 8);
    assert!(tree.sinks.iter().all(|s| !s.name.is_empty()));
    // Three levels of two-way merges.
    assert_eq!(tree.tree_level, 3);
    assert_eq!(tree.fanout_map.len(), 3);
    assert_eq!(tree.fanout_map[&0], 2);
    assert_eq!(tree.fanout_map[&1], 2);
    assert_eq!(tree.fanout_map[&2], 2);
    assert_eq!(tree.nodes.len(), 15);
    assert_eq!(tree.merges.len(), 7);
    assert_eq!(tree.root_node_index, 14);
    assert_eq!(tree.nodes[14], Node { node_owner: NodeOwner::MergeUnit(6), next_node: None });
    // The leaves follow the partition.
    let leaves: Vec<NodeOwner> = tree.nodes[0..8].iter().map(|n| n.node_owner).collect();
    let expected: Vec<NodeOwner> =
        [0, 4, 1, 5, 2, 6, 3, 7].iter().map(|s| NodeOwner::Sink(*s)).collect();
    assert_eq!(leaves, expected);
    for m in 0..7 {
        assert_eq!(tree.nodes[8 + m].node_owner, NodeOwner::MergeUnit(m));
        assert_eq!(children(&tree, m), vec![2 * m, 2 * m + 1]);
    }
    // The geometry of every merge.
    let locations: Vec<(i32, i32)> = tree.merges.iter().map(|m| m.location).collect();
    assert_eq!(
        locations,
        vec![(15, 15), (-15, 15), (-15, -15), (15, -15), (0, 15), (0, -15), (0, 0)]
    );
    let lengths: Vec<u64> = tree.merges.iter().map(|m| m.common_length).collect();
    assert_eq!(lengths, vec![10, 10, 10, 10, 15, 15, 15]);
    let flags: Vec<bool> = tree.merges.iter().map(|m| m.if_horizontal).collect();
    assert_eq!(flags, vec![false, false, false, false, true, true, false]);
    assert!(tree.merges.iter().all(|m| m.path.is_empty()));
    // The target length of every level.
    assert_eq!(tree.length_map.len(), 3);
    assert_eq!(tree.length_map[&0], 15);
    assert_eq!(tree.length_map[&1], 15);
    assert_eq!(tree.length_map[&2], 10);
    assert_eq!(tree.estimated_wirelength(), Some(15 * 2 + 15 * 4 + 10 * 8));
}

#[test]
fn five_sinks_are_padded_inside_the_bounding_box() {
    let mut tree = tree_with_sinks(&[(0, 0), (100, 0), (100, 50), (0, 50), (40, 20)]);
    assert_eq!(tree.gen_topology(&GenTopologyCfg { max_branch: 4 }), Ok(()));
    assert!(tree.is_well_formed());
    assert_eq!(tree.sinks.len(), 6);
    for i in 0..5 {
        assert_eq!(tree.sinks[i].name, format!("ff{}", i));
    }
    let pseudo = &tree.sinks[5];
    assert_eq!(pseudo.name, "");
    assert!(0 <= pseudo.location.0 && pseudo.location.0 <= 100);
    assert!(0 <= pseudo.location.1 && pseudo.location.1 <= 50);
    assert_eq!(tree.x_range, (0, 100));
    assert_eq!(tree.y_range, (0, 50));
    assert_eq!(tree.tree_level, 2);
    assert_eq!(tree.fanout_map[&0], 2);
    assert_eq!(tree.fanout_map[&1], 3);
    assert_eq!(tree.nodes.len(), 6 + 2 + 1);
    assert_eq!(tree.merges.len(), 3);
    assert_eq!(children(&tree, 0), vec![0, 1, 2]);
    assert_eq!(children(&tree, 1), vec![3, 4, 5]);
    assert_eq!(children(&tree, 2), vec![6, 7]);
    assert_eq!(tree.root_node_index, 8);
    let mut leaves: Vec<usize> = tree.nodes[0..6]
        .iter()
        .map(|n| match n.node_owner {
            NodeOwner::Sink(s) => s,
            _ => panic!("a leaf stands for a sink"),
        })
        .collect();
    leaves.sort();
    assert_eq!(leaves, vec![0, 1, 2, 3, 4, 5]);
}

#[test]
fn the_plan_does_not_depend_on_the_locations() {
    let mut a = tree_with_sinks(&[(0, 0), (100, 0), (100, 50), (0, 50), (40, 20)]);
    let mut b = tree_with_sinks(&[(7, 7), (-3, 9), (12, -50), (0, 1), (1000, 2000)]);
    let cfg = GenTopologyCfg { max_branch: 4 };
    assert_eq!(a.gen_topology(&cfg), Ok(()));
    assert_eq!(b.gen_topology(&cfg), Ok(()));
    assert_eq!(a.tree_level, b.tree_level);
    assert_eq!(a.fanout_map, b.fanout_map);
    assert_eq!(a.sinks.len(), b.sinks.len());
}

#[test]
fn nine_sinks_with_three_way_merges() {
    let mut locations = Vec::new();
    for x in 0..3 {
        for y in 0..3 {
            locations.push((x * 10 + 1, y * 10 + 2));
        }
    }
    let mut tree = tree_with_sinks(&locations);
    assert_eq!(tree.gen_topology(&GenTopologyCfg { max_branch: 3 }), Ok(()));
    assert_eq!(tree.tree_level, 2);
    assert_eq!(tree.sinks.len(), 9);
    assert_eq!(tree.merges.len(), 4);
    assert_eq!(tree.nodes.len(), 13);
    for m in 0..3 {
        assert_eq!(children(&tree, m), vec![3 * m, 3 * m + 1, 3 * m + 2]);
    }
    assert_eq!(children(&tree, 3), vec![9, 10, 11]);
    assert_eq!(tree.nodes[12].node_owner, NodeOwner::MergeUnit(3));
    assert_eq!(tree.root_node_index, 12);
}

#[test]
fn one_sink_is_its_own_root() {
    let mut tree = tree_with_sinks(&[(3, 4)]);
    assert_eq!(tree.gen_topology(&GenTopologyCfg { max_branch: 4 }), Ok(()));
    assert_eq!(tree.stage, Stage::TopologyBuilt);
    assert_eq!(tree.tree_level, 0);
    assert_eq!(tree.nodes, vec![Node { node_owner: NodeOwner::Sink(0), next_node: None }]);
    assert!(tree.merges.is_empty());
    assert_eq!(tree.root_node_index, 0);
    assert!(tree.fanout_map.is_empty());
    assert_eq!(tree.estimated_wirelength(), Some(0));
    assert!(tree.is_well_formed());
}

#[test]
fn sinks_at_one_point_can_be_padded() {
    let mut tree = tree_with_sinks(&[(5, 5), (5, 5), (5, 5)]);
    assert_eq!(tree.gen_topology(&GenTopologyCfg { max_branch: 2 }), Ok(()));
    assert_eq!(tree.sinks.len(), 4);
    assert_eq!(tree.sinks[3].location, (5, 5));
    assert_eq!(tree.sinks[3].name, "");
    assert!(tree.merges.iter().all(|m| m.location == (5, 5) && m.common_length == 0));
}

#[test]
fn a_branch_limit_below_two_leaves_the_tree_as_it_was() {
    let mut tree = tree_with_sinks(&[(0, 0), (10, 10)]);
    assert_eq!(
        tree.gen_topology(&GenTopologyCfg { max_branch: 1 }),
        Err(TopologyError::Planning(PlanningError::BranchLimitTooSmall { max_branch: 1 }))
    );
    assert_eq!(tree.stage, Stage::SinksLoaded);
    assert_eq!(tree.sinks.len(), 2);
    assert!(tree.nodes.is_empty());
    assert!(tree.merges.is_empty());
    assert_eq!(tree.tree_level, 0);
    // The stage can be run again with other settings.
    assert_eq!(tree.gen_topology(&GenTopologyCfg { max_branch: 2 }), Ok(()));
    assert_eq!(tree.tree_level, 1);
}

#[test]
fn building_with_given_pseudo_sinks() {
    let mut tree = tree_with_sinks(&[(0, 0), (30, 0), (10, 0)]);
    assert_eq!(tree.build_topology(&vec![2, 2], &vec![(20, 0)]), Ok(()));
    assert_eq!(tree.sinks.len(), 4);
    assert_eq!(tree.sinks[3].location, (20, 0));
    assert_eq!(tree.sinks[3].name, "");
    // All sinks lie on the axis through the centre (15, 0): the two on the
    // right come first, then the two on the left.
    let leaves: Vec<NodeOwner> = tree.nodes[0..4].iter().map(|n| n.node_owner).collect();
    assert_eq!(
        leaves,
        vec![NodeOwner::Sink(1), NodeOwner::Sink(3), NodeOwner::Sink(0), NodeOwner::Sink(2)]
    );
    assert_eq!(tree.merges[0].location, (25, 0));
    assert_eq!(tree.merges[1].location, (5, 0));
    assert_eq!(tree.merges[2].location, (15, 0));
    assert_eq!(tree.merges[2].common_length, 10);
    assert!(tree.merges[2].if_horizontal);
    assert_eq!(tree.length_map[&1], 5);
    assert_eq!(tree.length_map[&0], 10);
    assert_eq!(tree.estimated_wirelength(), Some(10 * 2 + 5 * 4));
}

#[test]
fn a_level_of_single_children() {
    let mut tree = tree_with_sinks(&[(1, 1), (-1, 1), (-1, -1), (1, -1)]);
    assert_eq!(tree.build_topology(&vec![2, 1, 2], &vec![]), Ok(()));
    assert_eq!(tree.tree_level, 3);
    assert_eq!(tree.nodes.len(), 4 + 2 + 2 + 1);
    assert_eq!(children(&tree, 0), vec![0, 1]);
    assert_eq!(children(&tree, 1), vec![2, 3]);
    assert_eq!(children(&tree, 2), vec![4]);
    assert_eq!(children(&tree, 3), vec![5]);
    assert_eq!(children(&tree, 4), vec![6, 7]);
    assert_eq!(tree.merges[2].location, tree.merges[0].location);
    assert_eq!(tree.merges[2].common_length, 0);
    assert_eq!(tree.length_map[&1], 0);
    assert_eq!(tree.root_node_index, 8);
    assert!(tree.is_well_formed());
}

#[test]
fn drawn_locations_lie_in_the_box() {
    let drawn = draw_locations((-5, 5), (100, 101), 200);
    assert_eq!(drawn.len(), 200);
    assert!(drawn.iter().all(|p| -5 <= p.0 && p.0 <= 5 && 100 <= p.1 && p.1 <= 101));
    assert!(drawn.iter().any(|p| p.0 != -5));
    let fixed = draw_locations((7, 7), (i32::MIN, i32::MIN), 3);
    assert_eq!(fixed, vec![(7, i32::MIN); 3]);
    let anywhere = draw_locations((i32::MIN, i32::MAX), (i32::MIN, i32::MAX), 4);
    assert_eq!(anywhere.len(), 4);
    assert!(draw_locations((0, 1), (0, 1), 0).is_empty());
}

#[test]
fn the_wirelength_estimate_reports_overflow() {
    let mut tree = ClockTree::new("clk");
    tree.tree_level = 3;
    for level in 0..3 {
        tree.fanout_map.insert(level, u32::MAX);
        tree.length_map.insert(level, 1);
    }
    assert_eq!(tree.estimated_wirelength(), None);
    tree.tree_level = 2;
    let fan = u32::MAX as u64;
    assert_eq!(tree.estimated_wirelength(), Some(fan + fan * fan));
    tree.length_map.insert(1, 2);
    assert_eq!(tree.estimated_wirelength(), None);
    tree.length_map.remove(&1);
    tree.fanout_map.remove(&0);
    assert_eq!(tree.estimated_wirelength(), Some(1));
}
