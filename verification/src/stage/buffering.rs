//! Buffering: one decision for each level of the tree.
//!
//! A solution has one gene for each level, counted from the root: 0 leaves
//! the level as it is, and `g > 0` turns every node of the level into a
//! buffer of the model `g - 1` of the catalogue. The search for a solution
//! is not part of the library; what the library offers is the check of the
//! settings, the cost of a candidate, and the application of a solution.
use crate::error::{BufferingError, OptimizationError, StructuralError};
use crate::model::{ClockTree, Node, NodeIndex, NodeOwner, Stage};
use crate::stage::cfg::BufferingCfg;
use vstd::prelude::*;

verus! {

broadcast use vstd::std_specs::hash::group_hash_axioms;

/// A node that a solution turns into a buffer: the node, the gene that asks
/// for it, and the level of the node.
pub type Target = (NodeIndex, u8, usize);

/// What is wrong with the search settings, if anything: the first of the
/// conditions, in this order, that holds.
pub open spec fn settings_error(cfg: BufferingCfg) -> Option<OptimizationError> {
    if cfg.pop_size == 0 {
        Some(OptimizationError::EmptyPopulation)
    } else if cfg.elite_size == 0 {
        Some(OptimizationError::NoElite)
    } else if cfg.elite_size > cfg.pop_size {
        Some(
            OptimizationError::EliteExceedsPopulation {
                pop_size: cfg.pop_size,
                elite_size: cfg.elite_size,
            },
        )
    } else if cfg.generations == 0 {
        Some(OptimizationError::NoGenerations)
    } else if cfg.mutation_rate > 1_000_000 {
        Some(OptimizationError::MutationRateOutOfRange { rate: cfg.mutation_rate })
    } else if cfg.buffer_list@.len() > 255 {
        Some(OptimizationError::CatalogueTooLarge { models: cfg.buffer_list@.len() as usize })
    } else {
        None
    }
}

impl BufferingCfg {
    /// Checks that a search can run with these settings.
    pub fn validate(&self) -> (r: Result<(), OptimizationError>)
        ensures
            match r {
                Ok(()) => settings_error(*self) is None,
                Err(e) => settings_error(*self) == Some(e),
            },
    {
        if self.pop_size == 0 {
            Err(OptimizationError::EmptyPopulation)
        } else if self.elite_size == 0 {
            Err(OptimizationError::NoElite)
        } else if self.elite_size > self.pop_size {
            Err(
                OptimizationError::EliteExceedsPopulation {
                    pop_size: self.pop_size,
                    elite_size: self.elite_size,
                },
            )
        } else if self.generations == 0 {
            Err(OptimizationError::NoGenerations)
        } else if self.mutation_rate > 1_000_000 {
            Err(OptimizationError::MutationRateOutOfRange { rate: self.mutation_rate })
        } else if self.buffer_list.len() > 255 {
            Err(OptimizationError::CatalogueTooLarge { models: self.buffer_list.len() })
        } else {
            Ok(())
        }
    }
}

/// The first gene among the first `upto` that names no model of a catalogue
/// of `models` models, with its level.
pub open spec fn first_bad_gene(genes: Seq<u8>, models: nat, upto: nat) -> Option<
    OptimizationError,
>
    decreases upto,
{
    if upto == 0 {
        None
    } else {
        match first_bad_gene(genes, models, (upto - 1) as nat) {
            Some(e) => Some(e),
            None => if genes[upto - 1] > models {
                Some(
                    OptimizationError::GeneOutOfRange {
                        level: (upto - 1) as usize,
                        gene: genes[upto - 1],
                    },
                )
            } else {
                None
            },
        }
    }
}

/// Checks that every gene is 0 or names a model of the catalogue.
pub fn check_genes(genes: &Vec<u8>, models: usize) -> (r: Result<(), OptimizationError>)
    ensures
        match r {
            Ok(()) => {
                &&& first_bad_gene(genes@, models as nat, genes@.len()) is None
                &&& forall|level: int| 0 <= level < genes@.len() ==> genes@[level] <= models
            },
            Err(e) => first_bad_gene(genes@, models as nat, genes@.len()) == Some(e),
        },
{
    let mut level: usize = 0;
    while level < genes.len()
        invariant
            level <= genes@.len(),
            first_bad_gene(genes@, models as nat, level as nat) is None,
            forall|k: int| 0 <= k < level ==> genes@[k] <= models,
        decreases genes@.len() - level,
    {
        if genes[level] as usize > models {
            proof {
                lemma_bad_gene_stays(genes@, models as nat, (level + 1) as nat, genes@.len());
            }
            return Err(OptimizationError::GeneOutOfRange { level, gene: genes[level] });
        }
        level = level + 1;
    }
    Ok(())
}

/// The first bad gene stays the first, however many genes follow.
proof fn lemma_bad_gene_stays(genes: Seq<u8>, models: nat, upto: nat, more: nat)
    requires
        upto <= more,
        first_bad_gene(genes, models, upto) is Some,
    ensures
        first_bad_gene(genes, models, more) == first_bad_gene(genes, models, upto),
    decreases more - upto,
{
    if upto < more {
        lemma_bad_gene_stays(genes, models, upto, (more - 1) as nat);
    }
}

impl ClockTree {
    /// The merge unit below the node `node`: the unit that owns it, or the
    /// load of the buffer that owns it. A sink has none.
    pub open spec fn load_of(self, node: int) -> Option<usize> {
        match self.nodes@[node].node_owner {
            NodeOwner::MergeUnit(m) => Some(m),
            NodeOwner::Buffer(b) => Some(self.buffers@[b as int].load),
            NodeOwner::Sink(_) => None,
        }
    }

    /// The nodes one level below the node `node`.
    pub open spec fn children_of_node(self, node: int) -> Seq<NodeIndex> {
        match self.load_of(node) {
            Some(m) => self.children_of(m as int),
            None => Seq::empty(),
        }
    }

    /// The nodes one level below the nodes `frontier`, in order.
    pub open spec fn next_frontier(self, frontier: Seq<NodeIndex>) -> Seq<NodeIndex>
        decreases frontier.len(),
    {
        if frontier.len() == 0 {
            Seq::empty()
        } else {
            self.next_frontier(frontier.drop_last()) + self.children_of_node(
                frontier.last() as int,
            )
        }
    }

    /// The nodes of the level `level`, counted from the root, in order.
    pub open spec fn frontier(self, level: nat) -> Seq<NodeIndex>
        decreases level,
    {
        if level == 0 {
            seq![self.root_node_index]
        } else {
            self.next_frontier(self.frontier((level - 1) as nat))
        }
    }

    /// The nodes `frontier` of the level `level`, each with the gene `gene`.
    pub open spec fn level_targets(frontier: Seq<NodeIndex>, gene: u8, level: usize) -> Seq<
        Target,
    > {
        Seq::new(frontier.len(), |p: int| (frontier[p], gene, level))
    }

    /// The nodes that the first `upto` genes turn into buffers: for each
    /// level with a gene other than 0, in the order of the levels, the nodes
    /// of the level.
    pub open spec fn targets(self, genes: Seq<u8>, upto: nat) -> Seq<Target>
        decreases upto,
    {
        if upto == 0 {
            Seq::empty()
        } else {
            let level = (upto - 1) as nat;
            let above = self.targets(genes, level);
            if genes[level as int] != 0 {
                above + Self::level_targets(
                    self.frontier(level),
                    genes[level as int],
                    level as usize,
                )
            } else {
                above
            }
        }
    }

    /// The number of nodes on the levels, among the first `upto`, whose gene
    /// is not 0.
    pub open spec fn converted_count(self, genes: Seq<u8>, upto: nat) -> nat
        decreases upto,
    {
        if upto == 0 {
            0
        } else {
            let level = (upto - 1) as nat;
            self.converted_count(genes, level) + if genes[level as int] != 0 {
                self.frontier(level).len()
            } else {
                0
            }
        }
    }

    /// There are as many targets as nodes on the levels with a gene other
    /// than 0.
    pub proof fn lemma_targets_count(self, genes: Seq<u8>, upto: nat)
        ensures
            self.targets(genes, upto).len() == self.converted_count(genes, upto),
        decreases upto,
    {
        if upto > 0 {
            self.lemma_targets_count(genes, (upto - 1) as nat);
        }
    }

    /// What is wrong with the target `k`, if anything: its node is not owned
    /// by a merge unit, or it is the node of an earlier target.
    pub open spec fn defect_at(self, targets: Seq<Target>, k: int) -> Option<StructuralError> {
        let (node, gene, level) = targets[k];
        if !(self.nodes@[node as int].node_owner is MergeUnit) {
            Some(StructuralError::UnexpectedOwner { level, node })
        } else if exists|j: int| 0 <= j < k && (#[trigger] targets[j]).0 == node {
            Some(StructuralError::NodeRevisited { level, node })
        } else {
            None
        }
    }

    /// The defect of the first target, among the first `upto`, that has one.
    pub open spec fn first_defect(self, targets: Seq<Target>, upto: nat) -> Option<
        StructuralError,
    >
        decreases upto,
    {
        if upto == 0 {
            None
        } else {
            match self.first_defect(targets, (upto - 1) as nat) {
                Some(e) => Some(e),
                None => self.defect_at(targets, upto - 1),
            }
        }
    }

    /// Why the solution `genes` cannot be applied with a catalogue of
    /// `models` models, if it cannot: its gene count is not the tree depth,
    /// or a gene names no model, or a target has a defect.
    pub open spec fn solution_error(self, genes: Seq<u8>, models: nat) -> Option<BufferingError> {
        if genes.len() != self.tree_level {
            Some(
                BufferingError::Structure(
                    StructuralError::GeneCountMismatch {
                        expected: self.tree_level,
                        found: genes.len() as usize,
                    },
                ),
            )
        } else if first_bad_gene(genes, models, genes.len()) is Some {
            Some(BufferingError::Search(first_bad_gene(genes, models, genes.len())->Some_0))
        } else {
            let targets = self.targets(genes, genes.len());
            match self.first_defect(targets, targets.len()) {
                Some(e) => Some(BufferingError::Structure(e)),
                None => None,
            }
        }
    }

    /// Every solution with one gene for each level and no gene beyond the
    /// catalogue can be applied.
    pub open spec fn accepts_solutions(self) -> bool {
        forall|genes: Seq<u8>, models: nat|
            genes.len() == self.tree_level && first_bad_gene(genes, models, genes.len()) is None
                ==> #[trigger] self.solution_error(genes, models) is None
    }

    /// The nodes of a frontier are nodes of the arena.
    pub open spec fn frontier_in_range(self, frontier: Seq<NodeIndex>) -> bool {
        forall|p: int| 0 <= p < frontier.len() ==> #[trigger] frontier[p] < self.nodes@.len()
    }

    /// Walks one level down from the nodes `frontier`.
    pub fn expand(&self, frontier: &Vec<NodeIndex>) -> (next: Vec<NodeIndex>)
        requires
            self.arena_wf(),
            self.frontier_in_range(frontier@),
        ensures
            next@ == self.next_frontier(frontier@),
            self.frontier_in_range(next@),
    {
        let mut next: Vec<NodeIndex> = Vec::new();
        let mut p: usize = 0;
        proof {
            assert(frontier@.take(0) =~= Seq::empty());
        }
        while p < frontier.len()
            invariant
                p <= frontier@.len(),
                self.arena_wf(),
                self.frontier_in_range(frontier@),
                next@ == self.next_frontier(frontier@.take(p as int)),
                self.frontier_in_range(next@),
            decreases frontier@.len() - p,
        {
            let node = frontier[p];
            proof {
                assert(self.node_wf(node as int));
                assert(frontier@.take(p + 1).drop_last() =~= frontier@.take(p as int));
                assert(frontier@.take(p + 1).last() == node);
            }
            let load = match self.nodes[node].node_owner {
                NodeOwner::MergeUnit(m) => Some(m),
                NodeOwner::Buffer(b) => Some(self.buffers[b].load),
                NodeOwner::Sink(_) => None,
            };
            match load {
                Some(m) => {
                    let mut children = self.get_merge_unit_load_nodes(m).collect();
                    let ghost before = next@;
                    let ghost added = children@;
                    next.append(&mut children);
                    proof {
                        assert forall|q: int| 0 <= q < next@.len() implies #[trigger] next@[q]
                            < self.nodes@.len() by {
                            if q < before.len() {
                                assert(before[q] < self.nodes@.len());
                            } else {
                                assert(added[q - before.len()] < self.nodes@.len());
                            }
                        }
                    }
                },
                None => {
                    proof {
                        assert(next@ + Seq::<NodeIndex>::empty() =~= next@);
                    }
                },
            }
            p = p + 1;
        }
        proof {
            assert(frontier@.take(frontier@.len() as int) =~= frontier@);
        }
        next
    }
}

/// The node `x` is the node of one of the first `upto` targets.
pub open spec fn is_target_node(targets: Seq<Target>, upto: int, x: int) -> bool {
    exists|k: int| 0 <= k < upto && (#[trigger] targets[k]).0 == x
}

impl ClockTree {
    /// The first defect stays the first, however many targets follow.
    pub proof fn lemma_defect_stays(self, targets: Seq<Target>, upto: nat, more: nat)
        requires
            upto <= more,
            self.first_defect(targets, upto) is Some,
        ensures
            self.first_defect(targets, more) == self.first_defect(targets, upto),
        decreases more - upto,
    {
        if upto < more {
            self.lemma_defect_stays(targets, upto, (more - 1) as nat);
        }
    }

    /// Targets without a defect are distinct nodes owned by merge units.
    pub proof fn lemma_no_defect(self, targets: Seq<Target>, upto: nat, k: int)
        requires
            self.first_defect(targets, upto) is None,
            0 <= k < upto,
        ensures
            self.nodes@[targets[k].0 as int].node_owner is MergeUnit,
            forall|j: int| 0 <= j < k ==> (#[trigger] targets[j]).0 != targets[k].0,
        decreases upto,
    {
        if k < upto - 1 {
            self.lemma_no_defect(targets, (upto - 1) as nat, k);
        } else {
            assert(self.defect_at(targets, k) is None);
        }
    }

    /// Lists the nodes that the solution turns into buffers.
    pub fn list_targets(&self, genes: &Vec<u8>) -> (targets: Vec<Target>)
        requires
            self.arena_wf(),
            self.root_node_index < self.nodes@.len(),
        ensures
            targets@ == self.targets(genes@, genes@.len()),
            forall|k: int|
                0 <= k < targets@.len() ==> {
                    &&& (#[trigger] targets@[k]).0 < self.nodes@.len()
                    &&& targets@[k].1 != 0
                    &&& targets@[k].2 < genes@.len()
                    &&& targets@[k].1 == genes@[targets@[k].2 as int]
                },
    {
        let mut targets: Vec<Target> = Vec::new();
        let mut frontier: Vec<NodeIndex> = Vec::new();
        frontier.push(self.root_node_index);
        let mut level: usize = 0;
        while level < genes.len()
            invariant
                level <= genes@.len(),
                self.arena_wf(),
                frontier@ == self.frontier(level as nat),
                self.frontier_in_range(frontier@),
                targets@ == self.targets(genes@, level as nat),
                forall|k: int|
                    0 <= k < targets@.len() ==> {
                        &&& (#[trigger] targets@[k]).0 < self.nodes@.len()
                        &&& targets@[k].1 != 0
                        &&& targets@[k].2 < genes@.len()
                        &&& targets@[k].1 == genes@[targets@[k].2 as int]
                    },
            decreases genes@.len() - level,
        {
            let gene = genes[level];
            if gene != 0 {
                let ghost above = targets@;
                let ghost whole = Self::level_targets(frontier@, gene, level);
                let mut p: usize = 0;
                proof {
                    assert(above + whole.take(0) =~= above);
                }
                while p < frontier.len()
                    invariant
                        p <= frontier@.len(),
                        level < genes@.len(),
                        gene == genes@[level as int],
                        gene != 0,
                        self.frontier_in_range(frontier@),
                        whole == Self::level_targets(frontier@, gene, level),
                        targets@ == above + whole.take(p as int),
                        forall|k: int|
                            0 <= k < above.len() ==> {
                                &&& (#[trigger] above[k]).0 < self.nodes@.len()
                                &&& above[k].1 != 0
                                &&& above[k].2 < genes@.len()
                                &&& above[k].1 == genes@[above[k].2 as int]
                            },
                    decreases frontier@.len() - p,
                {
                    targets.push((frontier[p], gene, level));
                    proof {
                        assert(whole[p as int] == (frontier@[p as int], gene, level));
                        assert((above + whole.take(p as int)).push(whole[p as int]) =~= above
                            + whole.take(p + 1));
                    }
                    p = p + 1;
                }
                proof {
                    assert(whole.take(whole.len() as int) =~= whole);
                    assert forall|k: int| 0 <= k < targets@.len() implies {
                        &&& (#[trigger] targets@[k]).0 < self.nodes@.len()
                        &&& targets@[k].1 != 0
                        &&& targets@[k].2 < genes@.len()
                        &&& targets@[k].1 == genes@[targets@[k].2 as int]
                    } by {
                        if k < above.len() {
                            assert(targets@[k] == above[k]);
                        } else {
                            assert(targets@[k] == whole[k - above.len()]);
                            assert(frontier@[k - above.len()] < self.nodes@.len());
                        }
                    }
                }
            }
            frontier = self.expand(&frontier);
            level = level + 1;
        }
        targets
    }

    /// Checks that the targets are distinct nodes owned by merge units.
    pub fn check_targets(&self, targets: &Vec<Target>) -> (r: Result<(), StructuralError>)
        requires
            forall|k: int| 0 <= k < targets@.len() ==> (#[trigger] targets@[k]).0 < self.nodes@.len(),
        ensures
            match r {
                Ok(()) => self.first_defect(targets@, targets@.len()) is None,
                Err(e) => self.first_defect(targets@, targets@.len()) == Some(e),
            },
    {
        let mut marked: Vec<bool> = Vec::new();
        let mut x: usize = 0;
        while x < self.nodes.len()
            invariant
                x <= self.nodes@.len(),
                marked@.len() == x,
                forall|n: int| 0 <= n < x ==> !#[trigger] marked@[n],
            decreases self.nodes@.len() - x,
        {
            marked.push(false);
            x = x + 1;
        }
        let mut k: usize = 0;
        while k < targets.len()
            invariant
                k <= targets@.len(),
                marked@.len() == self.nodes@.len(),
                forall|t: int|
                    0 <= t < targets@.len() ==> (#[trigger] targets@[t]).0 < self.nodes@.len(),
                forall|n: int|
                    0 <= n < marked@.len() ==> (#[trigger] marked@[n] <==> is_target_node(
                        targets@,
                        k as int,
                        n,
                    )),
                self.first_defect(targets@, k as nat) is None,
            decreases targets@.len() - k,
        {
            let node = targets[k].0;
            let level = targets[k].2;
            let owned = match self.nodes[node].node_owner {
                NodeOwner::MergeUnit(_) => true,
                _ => false,
            };
            if !owned {
                proof {
                    self.lemma_defect_stays(targets@, (k + 1) as nat, targets@.len());
                }
                return Err(StructuralError::UnexpectedOwner { level, node });
            }
            if marked[node] {
                proof {
                    assert(is_target_node(targets@, k as int, node as int));
                    self.lemma_defect_stays(targets@, (k + 1) as nat, targets@.len());
                }
                return Err(StructuralError::NodeRevisited { level, node });
            }
            proof {
                assert(!is_target_node(targets@, k as int, node as int));
                assert(self.defect_at(targets@, k as int) is None);
            }
            let ghost before = marked@;
            marked.set(node, true);
            proof {
                assert forall|n: int| 0 <= n < marked@.len() implies (#[trigger] marked@[n]
                    <==> is_target_node(targets@, k + 1, n)) by {
                    if n == node {
                        assert(targets@[k as int].0 == n);
                    } else {
                        assert(before[n] <==> is_target_node(targets@, k as int, n));
                        if is_target_node(targets@, k + 1, n) {
                            let j = choose|j: int| 0 <= j < k + 1 && (#[trigger] targets@[j]).0 == n;
                            assert(j < k);
                        }
                        if is_target_node(targets@, k as int, n) {
                            let j = choose|j: int| 0 <= j < k && (#[trigger] targets@[j]).0 == n;
                            assert(0 <= j < k + 1 && targets@[j].0 == n);
                        }
                    }
                }
            }
            k = k + 1;
        }
        Ok(())
    }

    /// The target `k` is converted: its node is owned by the buffer
    /// `base + k`, which has the model that the gene names, drives the merge
    /// unit that owned the node in `before`, and stands at its junction.
    pub open spec fn converted(
        self,
        before: ClockTree,
        targets: Seq<Target>,
        models: Seq<String>,
        k: int,
    ) -> bool {
        let base = before.buffers@.len();
        let (node, gene, level) = targets[k];
        let unit = before.nodes@[node as int].node_owner->MergeUnit_0;
        let buffer = self.buffers@[base + k];
        &&& self.nodes@[node as int] == (Node {
            node_owner: NodeOwner::Buffer((base + k) as usize),
            next_node: before.nodes@[node as int].next_node,
        })
        &&& buffer.load == unit
        &&& unit < self.merges@.len()
        &&& buffer.location == before.merges@[unit as int].location
        &&& buffer.model_name@ == models[gene - 1]@
        &&& buffer.buffer_name@ == Self::buffer_name_of(models[gene - 1]@, node)
    }

    /// This tree is `before` with the first `upto` targets converted: one
    /// new buffer for each, in the order of the targets, and every other
    /// node, and all else but the stage, as it was.
    pub open spec fn is_converted_from(
        self,
        before: ClockTree,
        targets: Seq<Target>,
        models: Seq<String>,
        upto: int,
    ) -> bool {
        let base = before.buffers@.len();
        &&& self.buffers@.len() == base + upto
        &&& self.buffers@.take(base as int) == before.buffers@
        &&& self.nodes@.len() == before.nodes@.len()
        &&& forall|k: int| 0 <= k < upto ==> #[trigger] self.converted(before, targets, models, k)
        &&& forall|x: int|
            0 <= x < self.nodes@.len() && !is_target_node(targets, upto, x)
                ==> #[trigger] self.nodes@[x] == before.nodes@[x]
        &&& self == (ClockTree {
            nodes: self.nodes,
            buffers: self.buffers,
            stage: self.stage,
            ..before
        })
    }

    /// Converts the targets, in order.
    fn convert_targets(&mut self, targets: &Vec<Target>, buffer_list: &Vec<String>)
        requires
            old(self).arena_wf(),
            old(self).first_defect(targets@, targets@.len()) is None,
            forall|k: int|
                0 <= k < targets@.len() ==> (#[trigger] targets@[k]).0 < old(self).nodes@.len()
                    && 1 <= targets@[k].1 <= buffer_list@.len(),
        ensures
            final(self).arena_wf(),
            final(self).is_converted_from(
                *old(self),
                targets@,
                buffer_list@,
                targets@.len() as int,
            ),
            final(self).stage == old(self).stage,
    {
        let ghost base = self.buffers@.len();
        let mut k: usize = 0;
        proof {
            assert(self.buffers@.take(base as int) =~= old(self).buffers@);
        }
        while k < targets.len()
            invariant
                k <= targets@.len(),
                base == old(self).buffers@.len(),
                self.arena_wf(),
                old(self).first_defect(targets@, targets@.len()) is None,
                forall|t: int|
                    0 <= t < targets@.len() ==> (#[trigger] targets@[t]).0 < old(self).nodes@.len()
                        && 1 <= targets@[t].1 <= buffer_list@.len(),
                self.is_converted_from(*old(self), targets@, buffer_list@, k as int),
                self.stage == old(self).stage,
            decreases targets@.len() - k,
        {
            let node = targets[k].0;
            let gene = targets[k].1;
            let ghost before = *self;
            proof {
                old(self).lemma_no_defect(targets@, targets@.len(), k as int);
                assert(!is_target_node(targets@, k as int, node as int));
                assert(self.nodes@[node as int] == old(self).nodes@[node as int]);
            }
            let model = buffer_list[gene as usize - 1].as_str();
            let count = self.buffers.len();
            let r = self.insert_buffer(model, count, node);
            proof {
                assert(r is Some);
                let unit = old(self).nodes@[node as int].node_owner->MergeUnit_0;
                assert(before.node_wf(node as int));
                assert(self.buffers@.take(base as int) =~= old(self).buffers@) by {
                    assert forall|b: int| 0 <= b < base implies self.buffers@[b] == old(
                        self,
                    ).buffers@[b] by {
                        assert(self.buffers@.drop_last()[b] == self.buffers@[b]);
                        assert(before.buffers@.take(base as int)[b] == before.buffers@[b]);
                    }
                }
                assert forall|t: int| 0 <= t < k + 1 implies #[trigger] self.converted(
                    *old(self),
                    targets@,
                    buffer_list@,
                    t,
                ) by {
                    if t < k {
                        assert(before.converted(*old(self), targets@, buffer_list@, t));
                        assert(targets@[t].0 != node);
                        assert(self.buffers@.drop_last()[base + t] == self.buffers@[base + t]);
                    } else {
                        assert(self.buffers@.last() == self.buffers@[base + k]);
                    }
                }
                assert forall|x: int|
                    0 <= x < self.nodes@.len() && !is_target_node(
                        targets@,
                        k + 1,
                        x,
                    ) implies #[trigger] self.nodes@[x] == old(self).nodes@[x] by {
                    assert(targets@[k as int].0 == node);
                    assert(x != node);
                    if is_target_node(targets@, k as int, x) {
                        let j = choose|j: int| 0 <= j < k && (#[trigger] targets@[j]).0 == x;
                        assert(0 <= j < k + 1 && targets@[j].0 == x);
                    }
                    assert(before.nodes@[x] == old(self).nodes@[x]);
                }
            }
            k = k + 1;
        }
    }

    /// Applies the solution `genes`: for every level, from the root down,
    /// whose gene is not 0, every node of the level becomes a buffer of the
    /// model that the gene names. The level below a node is reached through
    /// the merge unit that owns the node, or that its buffer drives.
    ///
    /// Returns the number of buffers created. Where the solution cannot be
    /// applied, nothing changes.
    pub fn apply_solution(&mut self, genes: &Vec<u8>, buffer_list: &Vec<String>) -> (r: Result<
        usize,
        BufferingError,
    >)
        requires
            old(self).wf(),
            old(self).stage == Stage::TopologyBuilt,
        ensures
            final(self).wf(),
            match r {
                Ok(created) => {
                    let targets = old(self).targets(genes@, genes@.len());
                    &&& old(self).solution_error(genes@, buffer_list@.len()) is None
                    &&& created == targets.len()
                    &&& created == old(self).converted_count(genes@, genes@.len())
                    &&& final(self).stage == Stage::Buffered
                    &&& final(self).is_converted_from(
                        *old(self),
                        targets,
                        buffer_list@,
                        created as int,
                    )
                    &&& forall|b: int|
                        old(self).buffers@.len() <= b < final(self).buffers@.len() ==> (
                        #[trigger] final(self).buffers@[b]).load < final(self).merges@.len()
                },
                Err(e) => {
                    &&& old(self).solution_error(genes@, buffer_list@.len()) == Some(e)
                    &&& *final(self) == *old(self)
                },
            },
    {
        if genes.len() != self.tree_level {
            return Err(
                BufferingError::Structure(
                    StructuralError::GeneCountMismatch {
                        expected: self.tree_level,
                        found: genes.len(),
                    },
                ),
            );
        }
        match check_genes(genes, buffer_list.len()) {
            Err(e) => {
                return Err(BufferingError::Search(e));
            },
            Ok(()) => {},
        }
        let targets = self.list_targets(genes);
        match self.check_targets(&targets) {
            Err(e) => {
                return Err(BufferingError::Structure(e));
            },
            Ok(()) => {},
        }
        proof {
            self.lemma_targets_count(genes@, genes@.len());
        }
        self.convert_targets(&targets, buffer_list);
        let ghost done = *self;
        self.stage = Stage::Buffered;
        proof {
            assert forall|x: int| 0 <= x < self.nodes@.len() implies #[trigger] self.node_wf(x) by {
                assert(done.node_wf(x));
            }
            assert forall|k: int| 0 <= k < targets@.len() implies #[trigger] self.converted(
                *old(self),
                targets@,
                buffer_list@,
                k,
            ) by {
                assert(done.converted(*old(self), targets@, buffer_list@, k));
            }
            assert forall|b: int|
                old(self).buffers@.len() <= b < self.buffers@.len() implies (#[trigger] self.buffers@[b]).load
                < self.merges@.len() by {}
        }
        Ok(targets.len())
    }

    /// Runs the buffering stage with the solution `genes` that the search
    /// has found: checks the settings, then applies the solution with the
    /// catalogue of the settings.
    pub fn buffering(&mut self, cfg: &BufferingCfg, genes: &Vec<u8>) -> (r: Result<
        usize,
        BufferingError,
    >)
        requires
            old(self).wf(),
            old(self).stage == Stage::TopologyBuilt,
        ensures
            final(self).wf(),
            match r {
                Ok(created) => {
                    let targets = old(self).targets(genes@, genes@.len());
                    &&& settings_error(*cfg) is None
                    &&& old(self).solution_error(genes@, cfg.buffer_list@.len()) is None
                    &&& created == targets.len()
                    &&& created == old(self).converted_count(genes@, genes@.len())
                    &&& final(self).stage == Stage::Buffered
                    &&& final(self).is_converted_from(
                        *old(self),
                        targets,
                        cfg.buffer_list@,
                        created as int,
                    )
                },
                Err(e) => {
                    &&& *final(self) == *old(self)
                    &&& match settings_error(*cfg) {
                        Some(s) => e == BufferingError::Search(s),
                        None => old(self).solution_error(genes@, cfg.buffer_list@.len()) == Some(
                            e,
                        ),
                    }
                },
            },
    {
        match cfg.validate() {
            Err(e) => {
                return Err(BufferingError::Search(e));
            },
            Ok(()) => {},
        }
        self.apply_solution(genes, &cfg.buffer_list)
    }
}

/// The sum of two values, or the greatest value where the sum exceeds it.
pub open spec fn sat_add(a: u64, b: u64) -> u64 {
    if a + b > u64::MAX {
        u64::MAX
    } else {
        (a + b) as u64
    }
}

/// Computes [`sat_add`].
pub fn add_saturating(a: u64, b: u64) -> (r: u64)
    ensures
        r == sat_add(a, b),
{
    if a > u64::MAX - b {
        u64::MAX
    } else {
        a + b
    }
}

impl ClockTree {
    /// The common length recorded for the level, or 0 where none is.
    pub open spec fn level_length(self, level: usize) -> u64 {
        if self.length_map@.contains_key(level) {
            self.length_map@[level]
        } else {
            0
        }
    }

    /// The estimated slew below the first `upto` levels, in thousandths.
    ///
    /// The clock enters with `input_slew`. A buffered level restores the
    /// slew to `input_slew`; the wires of a level add one thousandth for
    /// each unit of the level's common length.
    pub open spec fn slew_after(self, genes: Seq<u8>, input_slew: u32, upto: nat) -> u64
        decreases upto,
    {
        if upto == 0 {
            input_slew as u64
        } else {
            let level = (upto - 1) as nat;
            let entering = if genes[level as int] != 0 {
                input_slew as u64
            } else {
                self.slew_after(genes, input_slew, level)
            };
            sat_add(entering, self.level_length(level as usize))
        }
    }

    /// By how much the estimated slew below the level exceeds `max_slew`.
    pub open spec fn slew_violation(
        self,
        genes: Seq<u8>,
        input_slew: u32,
        max_slew: u32,
        level: nat,
    ) -> u64 {
        let slew = self.slew_after(genes, input_slew, level + 1);
        if slew > max_slew {
            (slew - max_slew) as u64
        } else {
            0
        }
    }

    /// The number of buffers that the gene of the level asks for: the number
    /// of nodes of the level, or none.
    pub open spec fn level_buffers(self, genes: Seq<u8>, level: nat) -> u64 {
        if genes[level as int] != 0 {
            if self.frontier(level).len() > u64::MAX {
                u64::MAX
            } else {
                self.frontier(level).len() as u64
            }
        } else {
            0
        }
    }

    /// The cost of the first `upto` genes of a candidate: for each level the
    /// number of buffers that it inserts and its slew violation, added up
    /// without ever exceeding `u64::MAX`.
    pub open spec fn cost(self, genes: Seq<u8>, input_slew: u32, max_slew: u32, upto: nat) -> u64
        decreases upto,
    {
        if upto == 0 {
            0
        } else {
            let level = (upto - 1) as nat;
            sat_add(
                sat_add(
                    self.cost(genes, input_slew, max_slew, level),
                    self.level_buffers(genes, level),
                ),
                self.slew_violation(genes, input_slew, max_slew, level),
            )
        }
    }

    /// Computes the cost of a candidate solution, which the search
    /// minimises: the buffers that it inserts, and the slew violations that
    /// it leaves.
    pub fn buffering_cost(&self, genes: &Vec<u8>, cfg: &BufferingCfg) -> (r: u64)
        requires
            self.arena_wf(),
            self.root_node_index < self.nodes@.len(),
        ensures
            r == self.cost(genes@, cfg.input_slew, cfg.max_slew, genes@.len()),
    {
        let mut total: u64 = 0;
        let mut slew: u64 = cfg.input_slew as u64;
        let mut frontier: Vec<NodeIndex> = Vec::new();
        frontier.push(self.root_node_index);
        let mut level: usize = 0;
        while level < genes.len()
            invariant
                level <= genes@.len(),
                self.arena_wf(),
                frontier@ == self.frontier(level as nat),
                self.frontier_in_range(frontier@),
                slew == self.slew_after(genes@, cfg.input_slew, level as nat),
                total == self.cost(genes@, cfg.input_slew, cfg.max_slew, level as nat),
            decreases genes@.len() - level,
        {
            let buffered = genes[level] != 0;
            let buffers: u64 = if buffered {
                frontier.len() as u64
            } else {
                0
            };
            let entering: u64 = if buffered {
                cfg.input_slew as u64
            } else {
                slew
            };
            let length: u64 = match self.length_map.get(&level) {
                Some(v) => *v,
                None => 0,
            };
            slew = add_saturating(entering, length);
            let violation: u64 = if slew > cfg.max_slew as u64 {
                slew - cfg.max_slew as u64
            } else {
                0
            };
            total = add_saturating(add_saturating(total, buffers), violation);
            frontier = self.expand(&frontier);
            level = level + 1;
        }
        total
    }
}

} // verus!
