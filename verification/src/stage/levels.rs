//! The levels of a built tree.
//!
//! In a tree that topology generation has built, the nodes of a level lie
//! at consecutive indices: the root last, and below each level the children
//! of its merge units, down to the nodes of the sinks at the front. So a
//! buffering solution with one gene for each level and no gene beyond the
//! catalogue can always be applied.
use crate::model::{index_run, lemma_run_chain, ClockTree, NodeIndex, NodeOwner};
use crate::stage::buffering::{first_bad_gene, Target};
use crate::stage::gen_topology::{
    lemma_merges_before_ordered, lemma_merges_before_strict, lemma_product_prefix,
    level_start, merges_before,
};
use crate::stage::planner::product;
use vstd::prelude::*;

verus! {

/// The nodes of the level `level`, counted from the root, of the tree of the
/// plan `branches` over `leaves` sinks.
pub open spec fn level_nodes(branches: Seq<u32>, leaves: nat, level: nat) -> Seq<NodeIndex> {
    if level >= branches.len() {
        index_run(0, leaves as int)
    } else {
        let step = (branches.len() - 1 - level) as nat;
        index_run(
            (leaves + merges_before(branches, step)) as int,
            merges_before(branches, step + 1) - merges_before(branches, step),
        )
    }
}

/// Two runs of consecutive indices, one behind the other, are one run.
proof fn lemma_index_run_concat(first: int, a: int, b: int)
    requires
        0 <= a,
        0 <= b,
    ensures
        index_run(first, a) + index_run(first + a, b) == index_run(first, a + b),
{
    assert(index_run(first, a) + index_run(first + a, b) =~= index_run(first, a + b));
}

/// The children of the merge units `from .. from + count`, unit after unit,
/// are the nodes from the first child of the first unit to the last child of
/// the last.
proof fn lemma_children_of_units(tree: ClockTree, leaves: int, from: int, count: int)
    requires
        tree.arena_wf(),
        tree.tiled(tree.nodes@.len() - 1),
        tree.laid_out(leaves),
        tree.nodes@.len() <= usize::MAX,
        0 <= leaves,
        0 <= from,
        1 <= count,
        from + count <= tree.merges@.len(),
    ensures
        tree.next_frontier(index_run(leaves + from, count)) == index_run(
            tree.merges@[from].first_node as int,
            tree.run_end_of(from + count - 1, tree.nodes@.len() - 1)
                - tree.merges@[from].first_node,
        ),
        tree.merges@[from].first_node < tree.run_end_of(from + count - 1, tree.nodes@.len() - 1),
    decreases count,
{
    let root = tree.nodes@.len() - 1;
    let units = index_run(leaves + from, count);
    let last = from + count - 1;
    assert(tree.run_wf(last, root));
    let first_child = tree.merges@[last].first_node as int;
    let width = tree.width_of(last, root);
    lemma_run_chain(tree.nodes@, first_child, width);
    assert(units.last() == (leaves + last) as usize);
    assert(tree.nodes@[leaves + last].node_owner == NodeOwner::MergeUnit(last as usize));
    assert(tree.children_of_node(units.last() as int) == index_run(first_child, width));
    if count == 1 {
        assert(units.drop_last() =~= Seq::<NodeIndex>::empty());
        assert(tree.next_frontier(units.drop_last()) =~= Seq::<NodeIndex>::empty());
        assert(Seq::<NodeIndex>::empty() + index_run(first_child, width) =~= index_run(
            first_child,
            width,
        ));
    } else {
        assert(units.drop_last() =~= index_run(leaves + from, count - 1));
        lemma_children_of_units(tree, leaves, from, count - 1);
        let start = tree.merges@[from].first_node as int;
        assert(tree.run_end_of(last - 1, root) == first_child);
        lemma_index_run_concat(start, first_child - start, width);
    }
}

impl ClockTree {
    /// The frontier of every level of a built tree is the run of the
    /// level's nodes.
    pub proof fn lemma_frontier_of_level(self, branches: Seq<u32>, leaves: Seq<usize>, level: nat)
        requires
            self.tree_shape(branches, leaves),
            self.root_node_index == self.nodes@.len() - 1,
            self.nodes@.len() <= usize::MAX,
            leaves.len() == product(branches),
            leaves.len() >= 1,
            level <= branches.len(),
        ensures
            self.frontier(level) == level_nodes(branches, leaves.len(), level),
            level < branches.len() ==> self.frontier(level).len() == product(
                branches.take(level as int),
            ),
        decreases level,
    {
        let depth = branches.len();
        let count = leaves.len();
        let root = self.nodes@.len() - 1;
        if level == 0 {
            if depth == 0 {
                assert(product(branches) == 1);
                assert(self.frontier(0) =~= index_run(0, count as int));
            } else {
                assert(branches.take(0) =~= Seq::<u32>::empty());
                assert(product(branches.take(0)) == 1);
                assert(merges_before(branches, depth) == merges_before(
                    branches,
                    (depth - 1) as nat,
                ) + 1);
                assert(self.frontier(0) =~= level_nodes(branches, count, 0));
            }
        } else {
            let above = (level - 1) as nat;
            let step = (depth - 1 - above) as nat;
            self.lemma_frontier_of_level(branches, leaves, above);
            lemma_product_prefix(branches, depth - 1 - step);
            let from = merges_before(branches, step) as int;
            let units = merges_before(branches, step + 1) - from;
            lemma_merges_before_ordered(branches, step + 1, depth);
            lemma_children_of_units(self, count as int, from, units);
            assert(self.merges@[merges_before(branches, step) as int].first_node == level_start(
                branches,
                count,
                step,
            ));
            let end = self.run_end_of(from + units - 1, root);
            assert(end == count + from) by {
                if step + 1 < depth {
                    lemma_merges_before_strict(branches, step + 1, depth);
                    assert(self.merges@[merges_before(branches, step + 1) as int].first_node
                        == level_start(branches, count, step + 1));
                } else {
                    assert(branches.take(0) =~= Seq::<u32>::empty());
                    assert(product(branches.take(0)) == 1);
                }
            }
            if level < depth {
                lemma_product_prefix(branches, level as int);
                assert(depth - (step - 1) - 1 == level);
            }
        }
    }

    /// In a built tree, the targets of the first `upto` genes are distinct
    /// nodes that stand for merge units.
    pub proof fn lemma_targets_of_levels(
        self,
        branches: Seq<u32>,
        leaves: Seq<usize>,
        genes: Seq<u8>,
        upto: nat,
    )
        requires
            self.tree_shape(branches, leaves),
            self.root_node_index == self.nodes@.len() - 1,
            self.nodes@.len() <= usize::MAX,
            leaves.len() == product(branches),
            leaves.len() >= 1,
            upto <= branches.len(),
        ensures
            forall|t: int|
                0 <= t < self.targets(genes, upto).len() ==> leaves.len() + merges_before(
                    branches,
                    (branches.len() - upto) as nat,
                ) <= (#[trigger] self.targets(genes, upto)[t]).0 < self.nodes@.len(),
            forall|s: int, t: int|
                0 <= s < t < self.targets(genes, upto).len() ==> (#[trigger] self.targets(
                    genes,
                    upto,
                )[s]).0 != (#[trigger] self.targets(genes, upto)[t]).0,
        decreases upto,
    {
        let depth = branches.len();
        let count = leaves.len();
        if upto > 0 {
            let level = (upto - 1) as nat;
            let step = (depth - 1 - level) as nat;
            self.lemma_targets_of_levels(branches, leaves, genes, level);
            self.lemma_frontier_of_level(branches, leaves, level);
            lemma_merges_before_ordered(branches, step + 1, depth);
            lemma_merges_before_ordered(branches, step, step + 1);
            let above = self.targets(genes, level);
            let all = self.targets(genes, upto);
            let here = Self::level_targets(self.frontier(level), genes[level as int], level as usize);
            if genes[level as int] != 0 {
                assert(all == above + here);
                assert forall|t: int| 0 <= t < all.len() implies count + merges_before(
                    branches,
                    (depth - upto) as nat,
                ) <= (#[trigger] all[t]).0 < self.nodes@.len() by {
                    if t < above.len() {
                        assert(all[t] == above[t]);
                    } else {
                        assert(all[t] == here[t - above.len()]);
                    }
                }
                assert forall|s: int, t: int| 0 <= s < t < all.len() implies (#[trigger] all[s]).0
                    != (#[trigger] all[t]).0 by {
                    if t < above.len() {
                        assert(all[s] == above[s] && all[t] == above[t]);
                    } else if s < above.len() {
                        assert(all[s] == above[s]);
                        assert(all[t] == here[t - above.len()]);
                    } else {
                        assert(all[s] == here[s - above.len()]);
                        assert(all[t] == here[t - above.len()]);
                    }
                }
            } else {
                assert(all == above);
            }
        }
    }

    /// Targets that are distinct nodes standing for merge units have no
    /// defect.
    pub proof fn lemma_defect_free(self, targets: Seq<Target>, upto: nat)
        requires
            upto <= targets.len(),
            forall|t: int|
                0 <= t < targets.len() ==> self.nodes@[(#[trigger] targets[t]).0 as int].node_owner is MergeUnit,
            forall|s: int, t: int|
                0 <= s < t < targets.len() ==> (#[trigger] targets[s]).0 != (
                #[trigger] targets[t]).0,
        ensures
            self.first_defect(targets, upto) is None,
        decreases upto,
    {
        if upto > 0 {
            self.lemma_defect_free(targets, (upto - 1) as nat);
            let k = upto - 1;
            assert(self.nodes@[targets[k].0 as int].node_owner is MergeUnit);
        }
    }

    /// A solution for a tree that has just been built can be applied, if it
    /// has one gene for each level and no gene beyond the catalogue; and the
    /// level `k` then has as many nodes as the first `k` factors multiply to.
    pub proof fn lemma_built_tree_takes_solution(
        self,
        branches: Seq<u32>,
        leaves: Seq<usize>,
        genes: Seq<u8>,
        models: nat,
    )
        requires
            self.tree_shape(branches, leaves),
            self.root_node_index == self.nodes@.len() - 1,
            self.nodes@.len() <= usize::MAX,
            self.tree_level == branches.len(),
            leaves.len() == product(branches),
            leaves.len() >= 1,
            genes.len() == branches.len(),
            first_bad_gene(genes, models, genes.len()) is None,
        ensures
            self.solution_error(genes, models) is None,
    {
        let targets = self.targets(genes, genes.len());
        self.lemma_targets_of_levels(branches, leaves, genes, genes.len());
        assert forall|t: int| 0 <= t < targets.len() implies self.nodes@[(#[trigger] targets[t]).0 as int].node_owner is MergeUnit by {
            let x = targets[t].0 as int;
            assert(merges_before(branches, 0) == 0);
            assert(self.nodes@[leaves.len() + (x - leaves.len())].node_owner
                == NodeOwner::MergeUnit((x - leaves.len()) as usize));
        }
        self.lemma_defect_free(targets, targets.len());
    }
}

} // verus!
