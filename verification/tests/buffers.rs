use sym_cts::error::{BufferingError, OptimizationError, StructuralError};
use sym_cts::model::{ClockTree, Node, NodeOwner, Stage};
use sym_cts::stage::buffering::{add_saturating, check_genes};
use sym_cts::stage::cfg::{BufferingCfg, GenTopologyCfg};

fn squares() -> ClockTree {
    let mut tree = ClockTree::new("clk");
    let locations = [
        (20, 20),
        (-20, 20),
        (-20, -20),
        (20, -20),
        (10, 10),
        (-10, 10),
        (-10, -10),
        (10, -10),
    ];
    let sinks: Vec<(String, (i32, i32))> = locations
        .iter()
        .enumerate()
        .map(|(i, p)| (format!("ff{}", i), *p))
        .collect();
    tree.load_sinks(&sinks);
    assert_eq!(tree.gen_topology(&GenTopologyCfg { max_branch: 4 }), Ok(()));
    tree
}

fn catalogue() -> Vec<String> {
    vec!["BUFX2".to_string(), "BUFX4".to_string()]
}

fn settings() -> BufferingCfg {
    BufferingCfg {
        buffer_list: catalogue(),
        input_slew: 100,
        max_slew: 120,
        rho_matrix_path: "rho.json".to_string(),
        pop_size: 20,
        elite_size: 4,
        mutation_rate: 10_000,
        generations: 30,
    }
}

#[test]
fn valid_settings_pass() {
    assert_eq!(settings().validate(), Ok(()));
    let mut cfg = settings();
    cfg.elite_size = 20;
    cfg.mutation_rate = 1_000_000;
    cfg.buffer_list = vec![String::new(); 255];
    assert_eq!(cfg.validate(), Ok(()));
}

#[test]
fn an_empty_population_is_rejected() {
    let mut cfg = settings();
    cfg.pop_size = 0;
    cfg.elite_size = 0;
    assert_eq!(cfg.validate(), Err(OptimizationError::EmptyPopulation));
}

#[test]
fn a_search_without_elite_is_rejected() {
    let mut cfg = settings();
    cfg.elite_size = 0;
    assert_eq!(cfg.validate(), Err(OptimizationError::NoElite));
}

#[test]
fn an_elite_beyond_the_population_is_rejected() {
    let mut cfg = settings();
    cfg.elite_size = 21;
    assert_eq!(
        cfg.validate(),
        Err(OptimizationError::EliteExceedsPopulation { pop_size: 20, elite_size: 21 })
    );
}

#[test]
fn a_search_without_generations_is_rejected() {
    let mut cfg = settings();
    cfg.generations = 0;
    assert_eq!(cfg.validate(), Err(OptimizationError::NoGenerations));
}

#[test]
fn a_mutation_rate_beyond_one_is_rejected() {
    let mut cfg = settings();
    cfg.mutation_rate = 1_000_001;
    assert_eq!(
        cfg.validate(),
        Err(OptimizationError::MutationRateOutOfRange { rate: 1_000_001 })
    );
}

#[test]
fn a_catalogue_beyond_the_genes_is_rejected() {
    let mut cfg = settings();
    cfg.buffer_list = vec![String::new(); 256];
    assert_eq!(cfg.validate(), Err(OptimizationError::CatalogueTooLarge { models: 256 }));
}

#[test]
fn genes_have_to_name_models() {
    assert_eq!(check_genes(&vec![0, 1, 2], 2), Ok(()));
    assert_eq!(check_genes(&vec![], 0), Ok(()));
    assert_eq!(
        check_genes(&vec![0, 3, 9], 2),
        Err(OptimizationError::GeneOutOfRange { level: 1, gene: 3 })
    );
    assert_eq!(
        check_genes(&vec![1], 0),
        Err(OptimizationError::GeneOutOfRange { level: 0, gene: 1 })
    );
}

#[test]
fn levels_and_targets_of_the_squares() {
    let tree = squares();
    assert_eq!(tree.expand(&vec![14]), vec![12, 13]);
    assert_eq!(tree.expand(&vec![12, 13]), vec![8, 9, 10, 11]);
    assert_eq!(tree.expand(&vec![8, 9, 10, 11]), vec![0, 1, 2, 3, 4, 5, 6, 7]);
    assert_eq!(tree.expand(&vec![0, 7]), Vec::<usize>::new());
    assert_eq!(
        tree.list_targets(&vec![1, 0, 2]),
        vec![(14, 1, 0), (8, 2, 2), (9, 2, 2), (10, 2, 2), (11, 2, 2)]
    );
    assert_eq!(tree.list_targets(&vec![0, 0, 0]), vec![]);
    assert_eq!(tree.check_targets(&vec![(14, 1, 0), (8, 2, 2)]), Ok(()));
    assert_eq!(
        tree.check_targets(&vec![(14, 1, 0), (8, 2, 2), (14, 1, 3)]),
        Err(StructuralError::NodeRevisited { level: 3, node: 14 })
    );
    assert_eq!(
        tree.check_targets(&vec![(14, 1, 0), (3, 2, 5), (14, 1, 3)]),
        Err(StructuralError::UnexpectedOwner { level: 5, node: 3 })
    );
}

#[test]
fn applying_a_solution_to_the_squares() {
    let mut tree = squares();
    assert_eq!(tree.apply_solution(&vec![1, 0, 2], &catalogue()), Ok(5));
    assert_eq!(tree.stage, Stage::Buffered);
    assert!(tree.is_well_formed());
    assert_eq!(tree.buffers.len(), 5);
    assert_eq!(tree.buffers[0].buffer_name, "BUFX2_14");
    assert_eq!(tree.buffers[0].model_name, "BUFX2");
    assert_eq!(tree.buffers[0].load, 6);
    assert_eq!(tree.buffers[0].location, (0, 0));
    let expected = [(15, 15), (-15, 15), (-15, -15), (15, -15)];
    for k in 0..4 {
        let buffer = &tree.buffers[1 + k];
        assert_eq!(buffer.buffer_name, format!("BUFX4_{}", 8 + k));
        assert_eq!(buffer.model_name, "BUFX4");
        assert_eq!(buffer.load, k);
        assert_eq!(buffer.location, expected[k]);
        assert!(buffer.load < tree.merges.len());
    }
    assert_eq!(tree.nodes[14], Node { node_owner: NodeOwner::Buffer(0), next_node: None });
    assert_eq!(tree.nodes[8], Node { node_owner: NodeOwner::Buffer(1), next_node: Some(9) });
    assert_eq!(tree.nodes[9], Node { node_owner: NodeOwner::Buffer(2), next_node: None });
    assert_eq!(tree.nodes[11], Node { node_owner: NodeOwner::Buffer(4), next_node: None });
    // The level between them is untouched, and so are the leaves.
    assert_eq!(tree.nodes[12], Node { node_owner: NodeOwner::MergeUnit(4), next_node: Some(13) });
    assert_eq!(tree.nodes[13], Node { node_owner: NodeOwner::MergeUnit(5), next_node: None });
    assert_eq!(tree.nodes[0], Node { node_owner: NodeOwner::Sink(0), next_node: Some(1) });
    assert_eq!(tree.merges.len(), 7);
    assert_eq!(tree.sinks.len(), 8);
    // The levels are still reached through the buffers.
    assert_eq!(tree.expand(&vec![14]), vec![12, 13]);
    assert_eq!(tree.expand(&vec![8]), vec![0, 1]);
}

#[test]
fn a_solution_of_zeros_creates_no_buffer() {
    let mut tree = squares();
    assert_eq!(tree.apply_solution(&vec![0, 0, 0], &catalogue()), Ok(0));
    assert_eq!(tree.stage, Stage::Buffered);
    assert!(tree.buffers.is_empty());
}

#[test]
fn buffers_on_every_level() {
    let mut tree = squares();
    assert_eq!(tree.apply_solution(&vec![2, 2, 1], &catalogue()), Ok(1 + 2 + 4));
    let owners: Vec<NodeOwner> = tree.nodes[8..15].iter().map(|n| n.node_owner).collect();
    assert_eq!(
        owners,
        vec![
            NodeOwner::Buffer(3),
            NodeOwner::Buffer(4),
            NodeOwner::Buffer(5),
            NodeOwner::Buffer(6),
            NodeOwner::Buffer(1),
            NodeOwner::Buffer(2),
            NodeOwner::Buffer(0),
        ]
    );
    assert!(tree.buffers.iter().all(|b| b.load < tree.merges.len()));
}

#[test]
fn a_wrong_gene_count_is_reported() {
    let mut tree = squares();
    assert_eq!(
        tree.apply_solution(&vec![1, 0], &catalogue()),
        Err(BufferingError::Structure(StructuralError::GeneCountMismatch {
            expected: 3,
            found: 2
        }))
    );
    assert_eq!(tree.stage, Stage::TopologyBuilt);
    assert!(tree.buffers.is_empty());
    assert_eq!(tree.nodes[14].node_owner, NodeOwner::MergeUnit(6));
}

#[test]
fn a_gene_beyond_the_catalogue_is_reported() {
    let mut tree = squares();
    assert_eq!(
        tree.apply_solution(&vec![1, 0, 3], &catalogue()),
        Err(BufferingError::Search(OptimizationError::GeneOutOfRange { level: 2, gene: 3 }))
    );
    assert_eq!(tree.stage, Stage::TopologyBuilt);
    assert!(tree.buffers.is_empty());
    assert_eq!(tree.nodes[14].node_owner, NodeOwner::MergeUnit(6));
}

#[test]
fn a_sink_above_the_leaves_is_reported() {
    let mut tree = squares();
    tree.nodes[13].node_owner = NodeOwner::Sink(0);
    assert_eq!(
        tree.apply_solution(&vec![1, 1, 0], &catalogue()),
        Err(BufferingError::Structure(StructuralError::UnexpectedOwner { level: 1, node: 13 }))
    );
    assert!(tree.buffers.is_empty());
    assert_eq!(tree.nodes[14].node_owner, NodeOwner::MergeUnit(6));
    assert_eq!(tree.nodes[12].node_owner, NodeOwner::MergeUnit(4));
    // Without a buffer on that level the sink is passed by.
    assert_eq!(tree.apply_solution(&vec![1, 0, 1], &catalogue()), Ok(3));
}

#[test]
fn a_node_that_is_reached_twice_is_reported() {
    let mut tree = squares();
    // Both units of the middle level share their children.
    tree.merges[5].first_node = 8;
    assert_eq!(
        tree.apply_solution(&vec![0, 0, 1], &catalogue()),
        Err(BufferingError::Structure(StructuralError::NodeRevisited { level: 2, node: 8 }))
    );
    assert!(tree.buffers.is_empty());
    assert_eq!(tree.stage, Stage::TopologyBuilt);
}

#[test]
fn one_sink_takes_the_empty_solution() {
    let mut tree = ClockTree::new("clk");
    tree.load_sinks(&vec![("ff".to_string(), (1, 1))]);
    assert_eq!(tree.gen_topology(&GenTopologyCfg { max_branch: 4 }), Ok(()));
    assert_eq!(tree.apply_solution(&vec![], &catalogue()), Ok(0));
    assert_eq!(tree.stage, Stage::Buffered);
}

#[test]
fn the_stage_checks_the_settings_first() {
    let mut tree = squares();
    let mut cfg = settings();
    cfg.elite_size = 21;
    assert_eq!(
        tree.buffering(&cfg, &vec![1, 0]),
        Err(BufferingError::Search(OptimizationError::EliteExceedsPopulation {
            pop_size: 20,
            elite_size: 21
        }))
    );
    assert_eq!(tree.stage, Stage::TopologyBuilt);
    let cfg = settings();
    assert_eq!(
        tree.buffering(&cfg, &vec![1, 0]),
        Err(BufferingError::Structure(StructuralError::GeneCountMismatch {
            expected: 3,
            found: 2
        }))
    );
    assert_eq!(tree.buffering(&cfg, &vec![1, 0, 2]), Ok(5));
    assert_eq!(tree.stage, Stage::Buffered);
    assert_eq!(tree.buffers[4].buffer_name, "BUFX4_11");
}

#[test]
fn the_cost_counts_buffers_and_slew_violations() {
    let tree = squares();
    let cfg = settings();
    assert_eq!(tree.buffering_cost(&vec![1, 0, 2], &cfg), 1 + 10 + 4);
    assert_eq!(tree.buffering_cost(&vec![0, 0, 0], &cfg), 10 + 20);
    assert_eq!(tree.buffering_cost(&vec![0, 1, 0], &cfg), 2 + 5);
    assert_eq!(tree.buffering_cost(&vec![1, 1, 1], &cfg), 1 + 2 + 4);
    assert_eq!(tree.buffering_cost(&vec![], &cfg), 0);
    let mut tight = settings();
    tight.max_slew = 0;
    assert_eq!(tree.buffering_cost(&vec![0, 0, 0], &tight), 115 + 130 + 140);
}

#[test]
fn the_cost_never_exceeds_the_range() {
    let mut tree = squares();
    tree.length_map.insert(1, u64::MAX);
    let cfg = settings();
    assert_eq!(tree.buffering_cost(&vec![0, 0, 0], &cfg), u64::MAX);
    assert_eq!(add_saturating(u64::MAX, 1), u64::MAX);
    assert_eq!(add_saturating(2, 3), 5);
    assert_eq!(add_saturating(u64::MAX - 1, 1), u64::MAX);
}
