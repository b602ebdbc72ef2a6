use sym_cts::geometry::analyze;
use sym_cts::model::{ClockTree, MergeUnit, Node, NodeOwner, Sink, Stage};
use sym_cts::node::{NodeData, TreeNode};

fn tree_with_sinks(locations: &[(i32, i32)]) -> ClockTree {
    let mut tree = ClockTree::new("clk");
    let sinks: Vec<(String, (i32, i32))> = locations
        .iter()
        .enumerate()
        .map(|(i, p)| (format!("ff{}", i), *p))
        .collect();
    tree.load_sinks(&sinks);
    tree
}

#[test]
fn a_new_tree_is_empty() {
    let tree = ClockTree::new("blif_clk_net");
    assert_eq!(tree.name, "blif_clk_net");
    assert_eq!(tree.stage, Stage::Empty);
    assert!(tree.sinks.is_empty());
    assert!(tree.nodes.is_empty());
    assert!(tree.is_well_formed());
    let tree = ClockTree::default();
    assert_eq!(tree.name, "");
    assert_eq!(tree.stage, Stage::Empty);
    assert!(tree.is_well_formed());
}

#[test]
fn loading_sinks_sets_the_bounding_box() {
    let tree = tree_with_sinks(&[(5, -2), (-7, 9), (3, 3)]);
    assert_eq!(tree.stage, Stage::SinksLoaded);
    assert_eq!(tree.sinks.len(), 3);
    assert_eq!(tree.sinks[1], Sink { name: "ff1".to_string(), location: (-7, 9) });
    assert_eq!(tree.x_range, (-7, 5));
    assert_eq!(tree.y_range, (-2, 9));
    assert_eq!(tree.name, "clk");
    assert!(tree.is_well_formed());
}

#[test]
fn loading_no_sinks_leaves_the_tree_empty() {
    let mut tree = ClockTree::new("clk");
    tree.load_sinks(&vec![]);
    assert_eq!(tree.stage, Stage::Empty);
    assert_eq!(tree.x_range, (i32::MAX, i32::MIN));
    assert!(tree.is_well_formed());
}

#[test]
fn loading_sinks_at_the_edge_of_the_range() {
    let tree = tree_with_sinks(&[(i32::MAX, i32::MIN), (i32::MAX, i32::MIN)]);
    assert_eq!(tree.x_range, (i32::MAX, i32::MAX));
    assert_eq!(tree.y_range, (i32::MIN, i32::MIN));
}

fn small_arena() -> ClockTree {
    let mut tree = tree_with_sinks(&[(0, 0), (10, 0), (20, 0)]);
    tree.stage = Stage::TopologyBuilt;
    assert_eq!(tree.push_sink_node(2), 0);
    assert_eq!(tree.push_sink_node(0), 1);
    assert_eq!(tree.push_sink_node(1), 2);
    tree
}

#[test]
fn pushing_sink_nodes_appends_unlinked_nodes() {
    let tree = small_arena();
    assert_eq!(
        tree.nodes,
        vec![
            Node { node_owner: NodeOwner::Sink(2), next_node: None },
            Node { node_owner: NodeOwner::Sink(0), next_node: None },
            Node { node_owner: NodeOwner::Sink(1), next_node: None },
        ]
    );
    assert!(tree.merges.is_empty());
}

#[test]
fn linking_siblings_sets_the_forward_pointer() {
    let mut tree = small_arena();
    tree.link_sibling(0, 2);
    assert_eq!(tree.nodes[0], Node { node_owner: NodeOwner::Sink(2), next_node: Some(2) });
    assert_eq!(tree.nodes[1].next_node, None);
    assert_eq!(tree.nodes[2].next_node, None);
    assert!(tree.is_well_formed());
}

#[test]
fn pushing_a_merge_node_appends_the_unit_and_its_node() {
    let mut tree = small_arena();
    tree.link_sibling(0, 1);
    let (node, unit) = tree.push_merge_node(0, &[(20, 0), (0, 0)]);
    assert_eq!((node, unit), (3, 0));
    assert_eq!(tree.nodes[3], Node { node_owner: NodeOwner::MergeUnit(0), next_node: None });
    assert_eq!(tree.merges.len(), 1);
    assert_eq!(tree.merges[0].first_node, 0);
    assert_eq!(tree.merges[0].location, (10, 0));
    assert_eq!(tree.merges[0].common_length, 10);
    assert!(tree.merges[0].if_horizontal);
    assert!(tree.merges[0].path.is_empty());
    assert!(tree.is_well_formed());
}

#[test]
fn merging_siblings_links_and_merges_a_run() {
    let mut tree = small_arena();
    let (node, unit) = tree.merge_siblings(0, 3);
    assert_eq!((node, unit), (3, 0));
    assert_eq!(tree.nodes[0].next_node, Some(1));
    assert_eq!(tree.nodes[1].next_node, Some(2));
    assert_eq!(tree.nodes[2].next_node, None);
    assert_eq!(tree.nodes[3], Node { node_owner: NodeOwner::MergeUnit(0), next_node: None });
    let e = analyze(&[(20, 0), (0, 0), (10, 0)]);
    assert_eq!(tree.merges[0].location, e.location);
    assert_eq!(tree.merges[0].location, (10, 0));
    assert_eq!(tree.merges[0].common_length, 10);
    assert_eq!(tree.location_of_node(3), (10, 0));
    assert_eq!(tree.location_of_node(0), (20, 0));
}

#[test]
fn the_walk_hands_out_the_children_once() {
    let mut tree = small_arena();
    tree.merge_siblings(0, 3);
    let mut walk = tree.get_merge_unit_load_nodes(0);
    assert_eq!(walk.next(), Some(0));
    assert_eq!(walk.next(), Some(1));
    assert_eq!(walk.next(), Some(2));
    assert_eq!(walk.next(), None);
    assert_eq!(walk.next(), None);
    assert_eq!(tree.get_merge_unit_load_nodes(0).collect(), vec![0, 1, 2]);
}

#[test]
fn the_walk_of_a_single_child() {
    let mut tree = small_arena();
    tree.push_merge_node(2, &[(10, 0)]);
    assert_eq!(tree.get_merge_unit_load_nodes(0).collect(), vec![2]);
}

#[test]
fn inserting_a_buffer_rewrites_the_owner() {
    let mut tree = small_arena();
    tree.merge_siblings(0, 3);
    assert_eq!(tree.insert_buffer("BUFX2", 0, 3), Some(()));
    assert_eq!(tree.nodes[3], Node { node_owner: NodeOwner::Buffer(0), next_node: None });
    assert_eq!(tree.buffers.len(), 1);
    assert_eq!(tree.buffers[0].buffer_name, "BUFX2_3");
    assert_eq!(tree.buffers[0].model_name, "BUFX2");
    assert_eq!(tree.buffers[0].location, (10, 0));
    assert_eq!(tree.buffers[0].load, 0);
    assert_eq!(tree.get_buffer_load_nodes(0).collect(), vec![0, 1, 2]);
    assert!(tree.is_well_formed());
}

#[test]
fn inserting_a_buffer_keeps_the_sibling_link() {
    let mut tree = tree_with_sinks(&[(0, 0), (4, 0), (0, 9), (4, 9)]);
    tree.stage = Stage::TopologyBuilt;
    for s in 0..4 {
        tree.push_sink_node(s);
    }
    tree.merge_siblings(0, 2);
    tree.merge_siblings(2, 2);
    tree.merge_siblings(4, 2);
    assert_eq!(tree.nodes[4].next_node, Some(5));
    assert_eq!(tree.insert_buffer("B", 0, 4), Some(()));
    assert_eq!(tree.nodes[4], Node { node_owner: NodeOwner::Buffer(0), next_node: Some(5) });
    assert_eq!(tree.buffers[0].buffer_name, "B_4");
    assert_eq!(tree.buffers[0].load, 0);
    assert_eq!(tree.buffers[0].location, (2, 0));
}

#[test]
fn inserting_a_buffer_at_a_sink_node_changes_nothing() {
    let mut tree = small_arena();
    tree.merge_siblings(0, 3);
    assert_eq!(tree.insert_buffer("BUFX2", 0, 1), None);
    assert!(tree.buffers.is_empty());
    assert_eq!(tree.nodes[1].node_owner, NodeOwner::Sink(0));
}

#[test]
fn inserting_a_buffer_twice_changes_nothing_the_second_time() {
    let mut tree = small_arena();
    tree.merge_siblings(0, 3);
    assert_eq!(tree.insert_buffer("BUFX2", 0, 3), Some(()));
    assert_eq!(tree.insert_buffer("BUFX2", 1, 3), None);
    assert_eq!(tree.buffers.len(), 1);
}

#[test]
fn inserting_a_buffer_at_a_wrong_index_changes_nothing() {
    let mut tree = small_arena();
    tree.merge_siblings(0, 3);
    assert_eq!(tree.insert_buffer("BUFX2", 1, 3), None);
    assert!(tree.buffers.is_empty());
    assert_eq!(tree.nodes[3].node_owner, NodeOwner::MergeUnit(0));
}

#[test]
fn a_dangling_index_is_not_well_formed() {
    let mut tree = small_arena();
    assert!(tree.is_well_formed());
    tree.nodes.push(Node { node_owner: NodeOwner::MergeUnit(0), next_node: None });
    assert!(!tree.is_well_formed());
    tree.nodes.pop();
    tree.nodes[1].next_node = Some(0);
    assert!(!tree.is_well_formed());
    tree.nodes[1].next_node = Some(3);
    assert!(!tree.is_well_formed());
    tree.nodes[1].next_node = Some(2);
    assert!(tree.is_well_formed());
    tree.merges.push(MergeUnit { first_node: 3, ..MergeUnit::default() });
    assert!(!tree.is_well_formed());
}

#[test]
fn the_stage_has_to_fit_the_contents() {
    let mut tree = small_arena();
    tree.stage = Stage::SinksLoaded;
    assert!(!tree.is_well_formed());
    tree.stage = Stage::Buffered;
    assert!(tree.is_well_formed());
    tree.root_node_index = 3;
    assert!(!tree.is_well_formed());
    let mut tree = tree_with_sinks(&[(0, 0)]);
    tree.stage = Stage::Empty;
    assert!(!tree.is_well_formed());
    tree.stage = Stage::SinksLoaded;
    tree.x_range = (1, 0);
    assert!(!tree.is_well_formed());
}

#[test]
fn merge_unit_default() {
    let unit = MergeUnit::default();
    assert_eq!(unit.first_node, 0);
    assert_eq!(unit.location, (0, 0));
    assert_eq!(unit.common_length, 0);
    assert!(unit.path.is_empty());
    assert!(!unit.if_horizontal);
    assert_eq!(unit.length(), 0);
}

#[test]
fn tree_node_constructors() {
    let sink = TreeNode::new_sink_node(4);
    assert_eq!(sink.node_data, NodeData::Sink(4));
    assert!(sink.child.is_empty());
    assert_eq!(sink.parent, None);
    assert_eq!(sink.level, 0);
    assert!(sink.if_leaf_node());
    assert_eq!(sink.get_dot_node_data(), None);
    let dot = TreeNode::new_dot_node(9);
    assert_eq!(dot.node_data, NodeData::Dot(9));
    assert!(!dot.if_leaf_node());
    assert_eq!(dot.get_dot_node_data(), Some(9));
}

#[test]
fn tree_node_labels() {
    assert_eq!(TreeNode::new_sink_node(0).label(), "n_s0");
    assert_eq!(TreeNode::new_sink_node(12).label(), "n_s12");
    assert_eq!(TreeNode::new_dot_node(305).label(), "n_d305");
    let mut node = TreeNode::new_dot_node(1);
    node.insert_buffer(77);
    assert_eq!(node.label(), "n_b77");
}

#[test]
fn tree_node_buffer_insertion_keeps_the_links() {
    let mut node = TreeNode::new_sink_node(3);
    node.child.push(8);
    node.parent = Some(2);
    node.level = 5;
    node.insert_buffer(1);
    assert_eq!(node.node_data, NodeData::Buffer(1));
    assert_eq!(node.child, vec![8]);
    assert_eq!(node.parent, Some(2));
    assert_eq!(node.level, 5);
    assert!(!node.if_leaf_node());
    assert_eq!(node.get_dot_node_data(), None);
}
