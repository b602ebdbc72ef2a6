use sym_cts::model::ClockTree;
use sym_cts::route::Path;
use sym_cts::stage::routing::lay_paths;

fn built(locations: &[(i32, i32)], branches: &[u32]) -> ClockTree {
    let mut tree = ClockTree::new("clk");
    let sinks: Vec<(String, (i32, i32))> =
        locations.iter().map(|p| (String::from("ff"), *p)).collect();
    tree.load_sinks(&sinks);
    assert_eq!(tree.build_topology(&branches.to_vec(), &vec![]), Ok(()));
    tree
}

#[test]
fn paths_of_a_horizontal_group() {
    let paths = lay_paths(&[(0, 4), (10, -2), (20, 6), (30, 0)], true, (15, 2));
    assert_eq!(
        paths,
        vec![
            Path { from: (0, 4), turn: Some((0, 2)), to: (15, 2) },
            Path { from: (10, -2), turn: None, to: (10, 2) },
            Path { from: (20, 6), turn: None, to: (20, 2) },
            Path { from: (30, 0), turn: Some((30, 2)), to: (15, 2) },
        ]
    );
}

#[test]
fn paths_of_a_vertical_group() {
    let paths = lay_paths(&[(1, 0), (5, 10), (-3, 20)], false, (-1, 10));
    assert_eq!(
        paths,
        vec![
            Path { from: (1, 0), turn: Some((-1, 0)), to: (-1, 10) },
            Path { from: (5, 10), turn: None, to: (-1, 10) },
            Path { from: (-3, 20), turn: Some((-1, 20)), to: (-1, 10) },
        ]
    );
    assert_eq!(lay_paths(&[], false, (0, 0)), vec![]);
}

#[test]
fn the_children_of_a_unit_and_their_locations() {
    let tree = built(&[(1, 1), (-1, 1), (-1, -1), (1, -1)], &[2, 2]);
    assert_eq!(tree.locations_of_children(0), vec![(1, 1), (-1, 1)]);
    assert_eq!(tree.locations_of_children(1), vec![(-1, -1), (1, -1)]);
    assert_eq!(tree.locations_of_children(2), vec![(0, 1), (0, -1)]);
}

#[test]
fn every_unit_gets_the_paths_of_its_children() {
    let mut tree = built(&[(1, 1), (-1, 1), (-1, -1), (1, -1)], &[2, 2]);
    let nodes = tree.nodes.clone();
    tree.materialize_paths();
    assert_eq!(
        tree.merges[0].path,
        vec![
            Path { from: (1, 1), turn: Some((1, 1)), to: (0, 1) },
            Path { from: (-1, 1), turn: Some((-1, 1)), to: (0, 1) },
        ]
    );
    assert_eq!(
        tree.merges[2].path,
        vec![
            Path { from: (0, 1), turn: Some((0, 1)), to: (0, 0) },
            Path { from: (0, -1), turn: Some((0, -1)), to: (0, 0) },
        ]
    );
    assert_eq!(tree.merges[0].length(), 2);
    assert_eq!(tree.merges[2].length(), 2);
    assert_eq!(tree.merges[2].location, (0, 0));
    assert_eq!(tree.merges[2].common_length, 1);
    assert_eq!(tree.nodes, nodes);
    // Laying the paths again replaces them.
    tree.materialize_paths();
    assert_eq!(tree.merges[0].path.len(), 2);
    assert!(tree.is_well_formed());
}

#[test]
fn one_unit_can_be_routed_alone() {
    let mut tree = built(&[(0, 0), (10, 3), (20, -3), (30, 0)], &[4]);
    tree.route_merge(0);
    // Around the centre (15, 0) the sinks above the axis come first, then
    // those below, then the sink on the right of the axis, then the one on
    // the left.
    assert_eq!(
        tree.merges[0].path,
        vec![
            Path { from: (10, 3), turn: None, to: (10, 0) },
            Path { from: (20, -3), turn: None, to: (20, 0) },
            Path { from: (30, 0), turn: Some((30, 0)), to: (15, 0) },
            Path { from: (0, 0), turn: Some((0, 0)), to: (15, 0) },
        ]
    );
    assert_eq!(tree.merges[0].length(), 3 + 3 + 15 + 15);
}
