//! Topology generation: from the sinks to the merge tree.
//!
//! The branch plan fixes the shape of the tree. The sink count is padded to
//! the product of the plan, the sinks are partitioned, and the tree is built
//! bottom-up: first a node for every sink in the order of the partition, then
//! level after level a merge unit for every run of siblings, each with the
//! node that stands for it one level up. The node of the last merge unit is
//! the root.
use crate::error::{PartitionError, PlanningError, TopologyError};
use crate::model::{
    is_run, linked_run, ClockTree, MergeUnit, Node, NodeOwner, Sink, Stage,
};
use crate::route::Location;
use crate::stage::cfg::GenTopologyCfg;
use crate::stage::partition::{
    center_of, child_label, group, group_spec, groups_at, lemma_run_bounds,
    lemma_sort_is_permutation, sinks_of, split_error, split_group, split_groups,
};
use crate::stage::planner::{
    lemma_plan_covers, lemma_product_concat, lemma_product_single, plan, plan_branches, product,
};
use rand::Rng;
use std::collections::HashMap;
use vstd::arithmetic::div_mod::*;
use vstd::arithmetic::mul::*;
use vstd::prelude::*;

verus! {

broadcast use vstd::std_specs::hash::group_hash_axioms;

/// The greatest common length among the merge units `from .. to`.
pub open spec fn max_common_length(merges: Seq<MergeUnit>, from: int, to: int) -> u64
    decreases to - from,
{
    if to <= from {
        0
    } else {
        let rest = max_common_length(merges, from, to - 1);
        if merges[to - 1].common_length > rest {
            merges[to - 1].common_length
        } else {
            rest
        }
    }
}

/// The number of merge units that the first `steps` levels hold, counted from
/// the bottom: the level above the sinks has one unit for each product of
/// all factors but the last, and so on up to the single unit at the top.
pub open spec fn merges_before(branches: Seq<u32>, steps: nat) -> nat
    decreases steps,
{
    if steps == 0 {
        0
    } else {
        merges_before(branches, (steps - 1) as nat) + product(
            branches.take(branches.len() - steps),
        )
    }
}

/// The first node of the level that is merged in the step `step`, counted
/// from the bottom, in a tree over `leaves` sinks: the first node of all for
/// the sinks, and else the node of the first merge unit of the step before.
pub open spec fn level_start(branches: Seq<u32>, leaves: nat, step: nat) -> nat {
    if step == 0 {
        0
    } else {
        leaves + merges_before(branches, (step - 1) as nat)
    }
}

impl ClockTree {
    /// Where the children of the merge unit `m` end: where the children of
    /// the next unit start, or at `cursor` for the last unit.
    pub open spec fn run_end_of(self, m: int, cursor: int) -> int {
        if m + 1 < self.merges@.len() {
            self.merges@[m + 1].first_node as int
        } else {
            cursor
        }
    }

    /// The number of children of the merge unit `m`.
    pub open spec fn width_of(self, m: int, cursor: int) -> int {
        self.run_end_of(m, cursor) - self.merges@[m].first_node
    }

    /// The children of the merge unit `m` are a chain of siblings at
    /// consecutive indices below `cursor`, and the unit has the geometry of
    /// their locations.
    pub open spec fn run_wf(self, m: int, cursor: int) -> bool {
        let first = self.merges@[m].first_node as int;
        let end = self.run_end_of(m, cursor);
        &&& first < end <= cursor
        &&& is_run(self.nodes@, first, end - first)
        &&& self.merges@[m].has_geometry_of(self.run_locations(first, end - first))
    }

    /// The nodes below `cursor` are the children of the merge units, unit
    /// after unit without a gap, and the nodes from `cursor` on are children
    /// of none.
    pub open spec fn tiled(self, cursor: int) -> bool {
        &&& 0 <= cursor <= self.nodes@.len()
        &&& self.merges@.len() == 0 ==> cursor == 0
        &&& self.merges@.len() > 0 ==> self.merges@[0].first_node == 0
        &&& forall|m: int| 0 <= m < self.merges@.len() ==> #[trigger] self.run_wf(m, cursor)
        &&& forall|x: int|
            cursor <= x < self.nodes@.len() ==> (#[trigger] self.nodes@[x]).next_node is None
    }

    /// The first `leaves` nodes stand for sinks, and the node behind them
    /// with the number `m` stands for the merge unit `m`.
    pub open spec fn laid_out(self, leaves: int) -> bool {
        &&& self.nodes@.len() == leaves + self.merges@.len()
        &&& forall|j: int| 0 <= j < leaves ==> (#[trigger] self.nodes@[j]).node_owner is Sink
        &&& forall|m: int|
            0 <= m < self.merges@.len() ==> (#[trigger] self.nodes@[leaves + m]).node_owner
                == NodeOwner::MergeUnit(m as usize)
    }

    /// No merge unit has a path yet.
    pub open spec fn paths_unlaid(self) -> bool {
        forall|m: int| 0 <= m < self.merges@.len() ==> (#[trigger] self.merges@[m]).path@.len() == 0
    }

    /// Merges one level: the nodes from `cursor` to the end of the arena, in
    /// `groups` runs of `branch` siblings. Returns the greatest common length
    /// of the new merge units.
    fn build_level(&mut self, branch: usize, cursor: usize, groups: usize, leaves: usize) -> (target:
        u64)
        requires
            old(self).arena_wf(),
            old(self).tiled(cursor as int),
            old(self).laid_out(leaves as int),
            old(self).paths_unlaid(),
            branch >= 1,
            cursor + groups * branch == old(self).nodes@.len(),
        ensures
            final(self).arena_wf(),
            final(self).paths_unlaid(),
            final(self).tiled(old(self).nodes@.len() as int),
            final(self).laid_out(leaves as int),
            final(self).nodes@.len() == old(self).nodes@.len() + groups,
            final(self).merges@.len() == old(self).merges@.len() + groups,
            final(self).merges@.take(old(self).merges@.len() as int) == old(self).merges@,
            groups >= 1 ==> final(self).merges@[old(self).merges@.len() as int].first_node
                == cursor,
            forall|x: int|
                0 <= x < old(self).nodes@.len() ==> (#[trigger] final(self).nodes@[x]).node_owner
                    == old(self).nodes@[x].node_owner,
            forall|m: int|
                0 <= m < old(self).merges@.len() ==> #[trigger] final(self).width_of(
                    m,
                    old(self).nodes@.len() as int,
                ) == old(self).width_of(m, cursor as int),
            forall|m: int|
                old(self).merges@.len() <= m < final(self).merges@.len()
                    ==> #[trigger] final(self).width_of(m, old(self).nodes@.len() as int)
                    == branch,
            target == max_common_length(
                final(self).merges@,
                old(self).merges@.len() as int,
                final(self).merges@.len() as int,
            ),
            *final(self) == (ClockTree {
                nodes: final(self).nodes,
                merges: final(self).merges,
                ..*old(self)
            }),
    {
        let ghost start_nodes = self.nodes@.len();
        let ghost start_merges = self.merges@.len();
        let level_end = self.nodes.len();
        let mut target: u64 = 0;
        let mut at: usize = cursor;
        let mut g: usize = 0;
        while g < groups
            invariant
                g <= groups,
                branch >= 1,
                level_end == start_nodes,
                start_nodes == old(self).nodes@.len(),
                start_merges == old(self).merges@.len(),
                at + (groups - g) * branch == level_end,
                cursor <= at,
                self.arena_wf(),
                self.tiled(at as int),
                self.laid_out(leaves as int),
                self.paths_unlaid(),
                self.nodes@.len() == start_nodes + g,
                self.merges@.len() == start_merges + g,
                self.merges@.take(start_merges as int) == old(self).merges@,
                g >= 1 ==> self.merges@[start_merges as int].first_node == cursor,
                g == 0 ==> at == cursor,
                forall|x: int|
                    0 <= x < start_nodes ==> (#[trigger] self.nodes@[x]).node_owner == old(
                        self,
                    ).nodes@[x].node_owner,
                forall|m: int|
                    0 <= m < start_merges ==> #[trigger] self.width_of(m, at as int) == old(
                        self,
                    ).width_of(m, cursor as int),
                forall|m: int|
                    start_merges <= m < self.merges@.len() ==> #[trigger] self.width_of(
                        m,
                        at as int,
                    ) == branch,
                target == max_common_length(
                    self.merges@,
                    start_merges as int,
                    self.merges@.len() as int,
                ),
                *self == (ClockTree { nodes: self.nodes, merges: self.merges, ..*old(self) }),
            decreases groups - g,
        {
            let ghost before = *self;
            proof {
                assert((groups - g) * branch == (groups - g - 1) * branch + branch)
                    by (nonlinear_arith);
                assert((groups - g - 1) * branch >= 0) by (nonlinear_arith)
                    requires
                        groups - g - 1 >= 0,
                        branch >= 1,
                ;
            }
            let r = self.merge_siblings(at, branch);
            proof {
                assert(self.merges.len() == self.merges@.len());
                lemma_level_step(before, *self, at as int, branch as int, leaves as int);
                assert(self.merges@.take(start_merges as int) =~= old(self).merges@) by {
                    assert(self.merges@.drop_last() == before.merges@);
                    assert forall|m: int| 0 <= m < start_merges implies self.merges@[m] == old(
                        self,
                    ).merges@[m] by {
                        assert(self.merges@[m] == self.merges@.drop_last()[m]);
                        assert(before.merges@[m] == before.merges@.take(start_merges as int)[m]);
                    }
                }
                assert forall|x: int| 0 <= x < start_nodes implies (#[trigger] self.nodes@[x]).node_owner
                    == old(self).nodes@[x].node_owner by {
                    assert(before.nodes@[x].node_owner == old(self).nodes@[x].node_owner);
                }
                assert forall|m: int| 0 <= m < start_merges implies #[trigger] self.width_of(
                    m,
                    at + branch,
                ) == old(self).width_of(m, cursor as int) by {
                    assert(before.width_of(m, at as int) == old(self).width_of(m, cursor as int));
                }
                assert forall|m: int|
                    start_merges <= m < self.merges@.len() implies #[trigger] self.width_of(
                    m,
                    at + branch,
                ) == branch by {
                    if m < before.merges@.len() {
                        assert(before.width_of(m, at as int) == branch);
                    }
                }
                assert(self.merges@.last() == self.merges@[self.merges@.len() - 1]);
                if g >= 1 {
                    assert(self.merges@.drop_last()[start_merges as int]
                        == self.merges@[start_merges as int]);
                }
                assert forall|m: int| 0 <= m < self.merges@.len() implies (#[trigger] self.merges@[m]).path@.len()
                    == 0 by {
                    if m < before.merges@.len() {
                        assert(self.merges@.drop_last()[m] == self.merges@[m]);
                        assert(before.merges@[m].path@.len() == 0);
                    }
                }
            }
            let length = self.merges[r.1].common_length;
            if length > target {
                target = length;
            }
            proof {
                lemma_max_common_length_frame(
                    before.merges@,
                    self.merges@,
                    start_merges as int,
                    before.merges@.len() as int,
                );
            }
            at = at + branch;
            g = g + 1;
        }
        proof {
            assert((groups - g) * branch == 0) by (nonlinear_arith)
                requires
                    groups - g == 0,
            ;
        }
        target
    }
}

/// The greatest common length of a range of merge units is the same in a
/// longer list of units.
pub proof fn lemma_max_common_length_frame(
    a: Seq<MergeUnit>,
    b: Seq<MergeUnit>,
    from: int,
    to: int,
)
    requires
        0 <= from,
        to <= a.len() <= b.len(),
        forall|m: int| 0 <= m < a.len() ==> a[m] == b[m],
    ensures
        max_common_length(a, from, to) == max_common_length(b, from, to),
    decreases to - from,
{
    if to > from {
        lemma_max_common_length_frame(a, b, from, to - 1);
    }
}

/// Merging the run of siblings at the cursor keeps the arena tiled and laid
/// out, moves the cursor behind the run, and leaves the earlier merge units
/// and their children as they were.
proof fn lemma_level_step(before: ClockTree, after: ClockTree, at: int, branch: int, leaves: int)
    requires
        before.arena_wf(),
        after.arena_wf(),
        before.tiled(at),
        before.laid_out(leaves),
        branch >= 1,
        0 <= at,
        0 <= leaves,
        after.merges@.len() <= usize::MAX,
        at + branch <= before.nodes@.len(),
        after.nodes@ == linked_run(before.nodes@, at, branch).push(
            Node {
                node_owner: NodeOwner::MergeUnit(before.merges@.len() as usize),
                next_node: None,
            },
        ),
        is_run(after.nodes@, at, branch),
        after.merges@.len() == before.merges@.len() + 1,
        after.merges@.drop_last() == before.merges@,
        after.merges@.last().first_node == at,
        after.merges@.last().has_geometry_of(before.run_locations(at, branch)),
        after.sinks == before.sinks,
        after.buffers == before.buffers,
    ensures
        after.tiled(at + branch),
        after.laid_out(leaves),
        forall|x: int|
            0 <= x < before.nodes@.len() ==> (#[trigger] after.nodes@[x]).node_owner
                == before.nodes@[x].node_owner,
        forall|m: int|
            0 <= m < before.merges@.len() ==> #[trigger] after.width_of(m, at + branch)
                == before.width_of(m, at),
        after.width_of(before.merges@.len() as int, at + branch) == branch,
{
    let count = before.merges@.len() as int;
    assert forall|m: int| 0 <= m < count implies after.merges@[m] == before.merges@[m] by {
        assert(after.merges@[m] == after.merges@.drop_last()[m]);
    }
    assert(after.merges@[count] == after.merges@.last());
    assert forall|x: int| 0 <= x < before.nodes@.len() implies (#[trigger] after.nodes@[x]).node_owner
        == before.nodes@[x].node_owner by {}
    assert forall|x: int| 0 <= x < before.nodes@.len() implies after.node_location(x)
        == before.node_location(x) by {
        assert(before.node_wf(x));
        match before.nodes@[x].node_owner {
            NodeOwner::MergeUnit(u) => {
                assert(after.merges@[u as int] == before.merges@[u as int]);
            },
            _ => {},
        }
    }
    assert forall|m: int| 0 <= m < count implies #[trigger] after.width_of(m, at + branch)
        == before.width_of(m, at) by {
        assert(before.run_wf(m, at));
    }
    assert forall|m: int| 0 <= m < after.merges@.len() implies #[trigger] after.run_wf(
        m,
        at + branch,
    ) by {
        if m < count {
            assert(before.run_wf(m, at));
            let first = before.merges@[m].first_node as int;
            let end = before.run_end_of(m, at);
            assert(after.run_end_of(m, at + branch) == end);
            assert forall|t: int| 0 <= t < end - first implies (#[trigger] after.nodes@[first + t])
                == before.nodes@[first + t] by {}
            assert(is_run(after.nodes@, first, end - first)) by {
                assert forall|t: int| 0 <= t < end - first - 1 implies (#[trigger] after.nodes@[first
                    + t]).next_node == Some((first + t + 1) as usize) by {
                    assert(before.nodes@[first + t].next_node == Some((first + t + 1) as usize));
                }
            }
            assert(after.run_locations(first, end - first) =~= before.run_locations(
                first,
                end - first,
            ));
        } else {
            assert(after.run_locations(at, branch) =~= before.run_locations(at, branch));
        }
    }
    assert forall|x: int| at + branch <= x < after.nodes@.len() implies (#[trigger] after.nodes@[x]).next_node is None by {
        if x < before.nodes@.len() {
            assert(before.nodes@[x].next_node is None);
        }
    }
    if count > 0 {
        assert(after.merges@[0] == before.merges@[0]);
    }
    assert forall|m: int| 0 <= m < after.merges@.len() implies (#[trigger] after.nodes@[leaves
        + m]).node_owner == NodeOwner::MergeUnit(m as usize) by {
        if m < count {
            assert(before.nodes@[leaves + m].node_owner == NodeOwner::MergeUnit(m as usize));
        }
    }
    assert forall|j: int| 0 <= j < leaves implies (#[trigger] after.nodes@[j]).node_owner is Sink by {
        assert(before.nodes@[j].node_owner is Sink);
    }
}

/// The merge unit `m` belongs to the level that is built in the step `step`,
/// counted from the bottom.
pub open spec fn in_step(branches: Seq<u32>, step: nat, m: int) -> bool {
    &&& step < branches.len()
    &&& merges_before(branches, step) <= m < merges_before(branches, step + 1)
}

/// A product that is not zero has no factor that is zero, and every product
/// of leading factors is the product of one factor less, times that factor.
pub proof fn lemma_product_prefix(factors: Seq<u32>, k: int)
    requires
        product(factors) >= 1,
        0 <= k <= factors.len(),
    ensures
        product(factors.take(k)) >= 1,
        k < factors.len() ==> factors[k] >= 1 && product(factors.take(k + 1)) == product(
            factors.take(k),
        ) * factors[k],
    decreases factors.len() - k,
{
    if k == factors.len() {
        assert(factors.take(k) =~= factors);
    } else {
        lemma_product_prefix(factors, k + 1);
        let longer = factors.take(k + 1);
        assert(longer.drop_last() =~= factors.take(k));
        assert(longer.last() == factors[k]);
        let a = product(factors.take(k));
        let b = factors[k] as nat;
        assert(product(longer) == a * b);
        assert(a >= 1 && b >= 1) by (nonlinear_arith)
            requires
                a * b >= 1,
                a >= 0,
                b >= 0,
        ;
    }
}

impl ClockTree {
    /// The arena holds the tree of the plan `branches` over the sinks
    /// `leaves`.
    ///
    /// The first nodes stand for the sinks, in the order of `leaves`; the
    /// node behind them with the number `m` stands for the merge unit `m`,
    /// and the last node, which stands for the last merge unit, is the root.
    /// The children of the merge units are runs of consecutive nodes that
    /// cover every node but the root, each unit has the geometry of its
    /// children's locations, and a unit of the level `k`, counted from the
    /// top, has `branches[k]` children.
    pub open spec fn tree_shape(self, branches: Seq<u32>, leaves: Seq<usize>) -> bool {
        let root = self.nodes@.len() - 1;
        &&& self.arena_wf()
        &&& self.merges@.len() == merges_before(branches, branches.len())
        &&& self.laid_out(leaves.len() as int)
        &&& forall|j: int|
            0 <= j < leaves.len() ==> (#[trigger] self.nodes@[j]).node_owner == NodeOwner::Sink(
                leaves[j],
            )
        &&& self.tiled(root)
        &&& forall|step: nat, m: int| #[trigger]
            in_step(branches, step, m) ==> self.width_of(m, root) == branches[branches.len() - 1
                - step]
        &&& forall|step: nat|
            step < branches.len() ==> self.merges@[#[trigger] merges_before(branches, step) as int].first_node
                == level_start(branches, leaves.len(), step)
    }

    /// Two arenas with the same nodes, merge units, sinks and buffers hold
    /// the same tree.
    pub proof fn lemma_tree_shape_frame(
        self,
        other: ClockTree,
        branches: Seq<u32>,
        leaves: Seq<usize>,
    )
        requires
            self.tree_shape(branches, leaves),
            other.nodes == self.nodes,
            other.merges == self.merges,
            other.sinks == self.sinks,
            other.buffers == self.buffers,
        ensures
            other.tree_shape(branches, leaves),
    {
        let root = self.nodes@.len() - 1;
        assert forall|i: int| 0 <= i < other.nodes@.len() implies #[trigger] other.node_wf(i) by {
            assert(self.node_wf(i));
        }
        assert forall|m: int| 0 <= m < other.merges@.len() implies #[trigger] other.run_wf(
            m,
            root,
        ) by {
            assert(self.run_wf(m, root));
            let first = self.merges@[m].first_node as int;
            let end = self.run_end_of(m, root);
            assert(other.run_locations(first, end - first) =~= self.run_locations(
                first,
                end - first,
            ));
        }
        assert forall|step: nat, m: int| #[trigger]
            in_step(branches, step, m) implies other.width_of(m, root) == branches[branches.len()
            - 1 - step] by {
            assert(self.width_of(m, root) == other.width_of(m, root));
        }
        assert forall|step: nat| step < branches.len() implies other.merges@[#[trigger] merges_before(
            branches,
            step,
        ) as int].first_node == level_start(branches, leaves.len(), step) by {
            assert(self.merges@[merges_before(branches, step) as int].first_node == level_start(
                branches,
                leaves.len(),
                step,
            ));
        }
    }

    /// Builds the tree of the plan `branchs` over the sinks in the order
    /// `order`, in an arena without nodes and merge units. Returns, for each
    /// level from the bottom, the greatest common length of its merge units.
    pub fn build_tree(&mut self, branchs: &Vec<u32>, order: &Vec<(u32, usize)>) -> (targets: Vec<
        u64,
    >)
        requires
            old(self).arena_wf(),
            old(self).nodes@.len() == 0,
            old(self).merges@.len() == 0,
            order@.len() >= 1,
            order@.len() == product(branchs@),
            forall|k: int| 0 <= k < order@.len() ==> (#[trigger] order@[k]).1 < old(self).sinks@.len(),
        ensures
            final(self).tree_shape(branchs@, sinks_of(order@)),
            final(self).paths_unlaid(),
            targets@.len() == branchs@.len(),
            forall|step: int|
                0 <= step < branchs@.len() ==> #[trigger] targets@[step] == max_common_length(
                    final(self).merges@,
                    merges_before(branchs@, step as nat) as int,
                    merges_before(branchs@, (step + 1) as nat) as int,
                ),
            *final(self) == (ClockTree {
                nodes: final(self).nodes,
                merges: final(self).merges,
                ..*old(self)
            }),
    {
        let ghost leaves = sinks_of(order@);
        let ghost plan = branchs@;
        let leaf_count = order.len();
        let depth = branchs.len();
        let mut j: usize = 0;
        while j < leaf_count
            invariant
                j <= leaf_count,
                leaf_count == order@.len(),
                leaves == sinks_of(order@),
                self.arena_wf(),
                self.nodes@.len() == j,
                self.merges@.len() == 0,
                forall|k: int|
                    0 <= k < order@.len() ==> (#[trigger] order@[k]).1 < self.sinks@.len(),
                forall|x: int|
                    0 <= x < j ==> #[trigger] self.nodes@[x] == (Node {
                        node_owner: NodeOwner::Sink(leaves[x]),
                        next_node: None,
                    }),
                *self == (ClockTree { nodes: self.nodes, merges: self.merges, ..*old(self) }),
            decreases leaf_count - j,
        {
            let sink = order[j].1;
            let ghost before = self.nodes@;
            self.push_sink_node(sink);
            proof {
                assert forall|x: int| 0 <= x < j + 1 implies #[trigger] self.nodes@[x] == (Node {
                    node_owner: NodeOwner::Sink(leaves[x]),
                    next_node: None,
                }) by {
                    if x < j {
                        assert(self.nodes@[x] == before[x]);
                    }
                }
            }
            j = j + 1;
        }
        proof {
            assert(plan.take(depth as int) =~= plan);
            assert(self.tiled(0));
            assert(self.laid_out(leaf_count as int));
        }
        let mut targets: Vec<u64> = Vec::new();
        let mut cursor: usize = 0;
        let mut i: usize = 0;
        while i < depth
            invariant
                i <= depth,
                depth == branchs@.len(),
                plan == branchs@,
                leaves == sinks_of(order@),
                leaf_count == order@.len(),
                product(plan) >= 1,
                product(plan) == leaf_count,
                self.arena_wf(),
                cursor <= self.nodes@.len(),
                self.tiled(cursor as int),
                self.laid_out(leaf_count as int),
                self.paths_unlaid(),
                self.nodes@.len() - cursor == product(plan.take(depth - i)),
                self.merges@.len() == merges_before(plan, i as nat),
                cursor == level_start(plan, leaf_count as nat, i as nat),
                forall|step: nat|
                    step < i ==> self.merges@[#[trigger] merges_before(plan, step) as int].first_node
                        == level_start(plan, leaf_count as nat, step),
                forall|x: int|
                    0 <= x < leaf_count ==> (#[trigger] self.nodes@[x]).node_owner
                        == NodeOwner::Sink(leaves[x]),
                forall|step: nat, m: int| #[trigger]
                    in_step(plan, step, m) && step < i ==> self.width_of(m, cursor as int)
                        == plan[depth - 1 - step],
                targets@.len() == i,
                forall|step: int|
                    0 <= step < i ==> #[trigger] targets@[step] == max_common_length(
                        self.merges@,
                        merges_before(plan, step as nat) as int,
                        merges_before(plan, (step + 1) as nat) as int,
                    ),
                *self == (ClockTree { nodes: self.nodes, merges: self.merges, ..*old(self) }),
            decreases depth - i,
        {
            let branch = branchs[depth - 1 - i] as usize;
            let count = self.nodes.len() - cursor;
            let ghost before = *self;
            let ghost fewer = product(plan.take(depth - i - 1));
            proof {
                lemma_product_prefix(plan, depth - i - 1);
                assert(count == fewer * branch);
                lemma_div_multiples_vanish(fewer as int, branch as int);
                assert(branch * fewer == fewer * branch) by (nonlinear_arith);
            }
            let groups = count / branch;
            let next_cursor = self.nodes.len();
            let target = self.build_level(branch, cursor, groups, leaf_count);
            proof {
                lemma_merges_before_monotonic(plan, i as nat);
                assert forall|step: nat| step < i + 1 implies self.merges@[#[trigger] merges_before(
                    plan,
                    step,
                ) as int].first_node == level_start(plan, leaf_count as nat, step) by {
                    if step < i {
                        lemma_merges_before_strict(plan, step, i as nat);
                        assert(self.merges@.take(before.merges@.len() as int)[merges_before(
                            plan,
                            step,
                        ) as int] == self.merges@[merges_before(plan, step) as int]);
                    }
                }
                assert forall|x: int| 0 <= x < leaf_count implies (#[trigger] self.nodes@[x]).node_owner
                    == NodeOwner::Sink(leaves[x]) by {
                    assert(before.nodes@[x].node_owner == NodeOwner::Sink(leaves[x]));
                }
                assert forall|step: nat, m: int| #[trigger]
                    in_step(plan, step, m) && step < i + 1 implies self.width_of(
                    m,
                    next_cursor as int,
                ) == plan[depth - 1 - step] by {
                    if step < i {
                        lemma_merges_before_ordered(plan, step + 1, i as nat);
                        assert(self.width_of(m, next_cursor as int) == before.width_of(
                            m,
                            cursor as int,
                        ));
                    }
                }
                assert forall|step: int| 0 <= step < i implies #[trigger] targets@[step]
                    == max_common_length(
                    self.merges@,
                    merges_before(plan, step as nat) as int,
                    merges_before(plan, (step + 1) as nat) as int,
                ) by {
                    lemma_merges_before_ordered(plan, (step + 1) as nat, i as nat);
                    assert forall|m: int| 0 <= m < before.merges@.len() implies before.merges@[m]
                        == self.merges@[m] by {
                        assert(self.merges@.take(before.merges@.len() as int)[m]
                            == self.merges@[m]);
                    }
                    lemma_max_common_length_frame(
                        before.merges@,
                        self.merges@,
                        merges_before(plan, step as nat) as int,
                        merges_before(plan, (step + 1) as nat) as int,
                    );
                }
            }
            targets.push(target);
            cursor = next_cursor;
            i = i + 1;
        }
        proof {
            assert(plan.take(0) =~= Seq::<u32>::empty());
            assert(product(plan.take(0)) == 1);
        }
        targets
    }
}

/// The count of merge units grows with the number of levels.
pub proof fn lemma_merges_before_monotonic(branches: Seq<u32>, steps: nat)
    ensures
        merges_before(branches, steps) <= merges_before(branches, steps + 1),
{
}

/// The count of merge units grows with the number of levels.
pub proof fn lemma_merges_before_ordered(branches: Seq<u32>, fewer: nat, more: nat)
    requires
        fewer <= more,
    ensures
        merges_before(branches, fewer) <= merges_before(branches, more),
    decreases more - fewer,
{
    if fewer < more {
        lemma_merges_before_ordered(branches, fewer, (more - 1) as nat);
    }
}

/// A product of leading factors is not greater than the whole product,
/// unless that is zero.
pub proof fn lemma_product_prefix_bound(factors: Seq<u32>, k: int)
    requires
        product(factors) >= 1,
        0 <= k <= factors.len(),
    ensures
        product(factors.take(k)) <= product(factors),
    decreases factors.len() - k,
{
    if k == factors.len() {
        assert(factors.take(k) =~= factors);
    } else {
        lemma_product_prefix(factors, k);
        lemma_product_prefix_bound(factors, k + 1);
        let a = product(factors.take(k));
        let b = factors[k] as nat;
        assert(a <= a * b) by (nonlinear_arith)
            requires
                b >= 1,
                a >= 0,
        ;
    }
}

/// Multiplies the factors.
pub fn product_of(factors: &Vec<u32>) -> (r: usize)
    requires
        1 <= product(factors@) <= usize::MAX,
    ensures
        r == product(factors@),
{
    let mut acc: usize = 1;
    let mut k: usize = 0;
    proof {
        assert(factors@.take(0) =~= Seq::<u32>::empty());
    }
    while k < factors.len()
        invariant
            k <= factors@.len(),
            1 <= product(factors@) <= usize::MAX,
            acc == product(factors@.take(k as int)),
        decreases factors@.len() - k,
    {
        proof {
            lemma_product_prefix(factors@, k as int);
            lemma_product_prefix_bound(factors@, k + 1);
        }
        acc = acc * (factors[k] as usize);
        k = k + 1;
    }
    proof {
        assert(factors@.take(factors@.len() as int) =~= factors@);
    }
    acc
}

/// Draws a coordinate between `low` and `high`, both included, from the
/// thread's random number generator: `rand::thread_rng()` and
/// `rand::Rng::gen_range` over the inclusive range.
///
/// The contract is trusted, not proved. It states what holds of every draw,
/// that the value lies in the range, and leaves open which value it is: two
/// draws from one range may differ. `gen_range` panics on an empty range,
/// which `low <= high` rules out.
#[verifier::external_body]
fn random_coordinate(low: i32, high: i32) -> (r: i32)
    requires
        low <= high,
    ensures
        low <= r <= high,
{
    rand::thread_rng().gen_range(low..=high)
}

/// The point lies in the box of the two ranges.
pub open spec fn in_box(p: Location, x_range: (i32, i32), y_range: (i32, i32)) -> bool {
    x_range.0 <= p.0 <= x_range.1 && y_range.0 <= p.1 <= y_range.1
}

/// Draws `count` random locations in the box of the two ranges.
pub fn draw_locations(x_range: (i32, i32), y_range: (i32, i32), count: usize) -> (drawn: Vec<
    (i32, i32),
>)
    requires
        x_range.0 <= x_range.1,
        y_range.0 <= y_range.1,
    ensures
        drawn@.len() == count,
        forall|k: int| 0 <= k < count ==> in_box(#[trigger] drawn@[k], x_range, y_range),
{
    let mut drawn: Vec<(i32, i32)> = Vec::new();
    let mut k: usize = 0;
    while k < count
        invariant
            k <= count,
            x_range.0 <= x_range.1,
            y_range.0 <= y_range.1,
            drawn@.len() == k,
            forall|t: int| 0 <= t < k ==> in_box(#[trigger] drawn@[t], x_range, y_range),
        decreases count - k,
    {
        let x = random_coordinate(x_range.0, x_range.1);
        let y = random_coordinate(y_range.0, y_range.1);
        drawn.push((x, y));
        k = k + 1;
    }
    drawn
}

impl ClockTree {
    /// The locations of the sinks, followed by `pseudo`.
    pub open spec fn padded_locations(self, pseudo: Seq<Location>) -> Seq<Location> {
        self.sink_locations() + pseudo
    }

    /// This tree is `before` with its topology built: the sinks padded with
    /// nameless sinks at the locations `pseudo`, the tree of the plan
    /// `branches` over the sinks in the order `order`, the factor of every
    /// level in `fanout_map`, and in `length_map` for every level the
    /// greatest common length of its merge units. Levels count from the top.
    pub open spec fn is_topology_of(
        self,
        before: ClockTree,
        branches: Seq<u32>,
        pseudo: Seq<Location>,
        order: Seq<(u32, usize)>,
    ) -> bool {
        let depth = branches.len();
        let given = before.sinks@.len();
        &&& self.stage == Stage::TopologyBuilt
        &&& self.name == before.name
        &&& self.x_range == before.x_range
        &&& self.y_range == before.y_range
        &&& self.buffers == before.buffers
        &&& self.sinks@.len() == given + pseudo.len()
        &&& self.sinks@.take(given as int) == before.sinks@
        &&& forall|k: int|
            0 <= k < pseudo.len() ==> (#[trigger] self.sinks@[given + k]).name@ == Seq::<
                char,
            >::empty() && self.sinks@[given + k].location == pseudo[k]
        &&& self.tree_level == depth
        &&& self.root_node_index == self.nodes@.len() - 1
        &&& self.tree_shape(branches, sinks_of(order))
        &&& self.paths_unlaid()
        &&& self.fanout_map@ == Map::new(|k: usize| k < depth, |k: usize| branches[k as int])
        &&& self.length_map@.dom() == Set::new(|k: usize| k < depth)
        &&& forall|step: int|
            0 <= step < depth ==> #[trigger] self.length_map@[(depth - 1 - step) as usize]
                == max_common_length(
                self.merges@,
                merges_before(branches, step as nat) as int,
                merges_before(branches, (step + 1) as nat) as int,
            )
    }

    /// Reads the locations of the sinks and appends `pseudo`.
    fn gather_locations(&self, pseudo: &Vec<(i32, i32)>) -> (coords: Vec<(i32, i32)>)
        ensures
            coords@ == self.padded_locations(pseudo@),
    {
        let mut coords: Vec<(i32, i32)> = Vec::new();
        let mut k: usize = 0;
        while k < self.sinks.len()
            invariant
                k <= self.sinks@.len(),
                coords@ == self.sink_locations().take(k as int),
            decreases self.sinks@.len() - k,
        {
            coords.push(self.sinks[k].location);
            proof {
                assert(coords@ =~= self.sink_locations().take(k + 1));
            }
            k = k + 1;
        }
        proof {
            assert(self.sink_locations().take(self.sinks@.len() as int) =~= self.sink_locations());
        }
        let mut t: usize = 0;
        while t < pseudo.len()
            invariant
                t <= pseudo@.len(),
                coords@ == self.sink_locations() + pseudo@.take(t as int),
            decreases pseudo@.len() - t,
        {
            coords.push(pseudo[t]);
            proof {
                assert(coords@ =~= self.sink_locations() + pseudo@.take(t + 1));
            }
            t = t + 1;
        }
        proof {
            assert(pseudo@.take(pseudo@.len() as int) =~= pseudo@);
        }
        coords
    }

    /// Appends a nameless sink at each of the locations.
    fn pad_sinks(&mut self, pseudo: &Vec<(i32, i32)>)
        ensures
            final(self).sinks@.len() == old(self).sinks@.len() + pseudo@.len(),
            final(self).sinks@.take(old(self).sinks@.len() as int) == old(self).sinks@,
            forall|k: int|
                0 <= k < pseudo@.len() ==> (#[trigger] final(self).sinks@[old(self).sinks@.len()
                    + k]).name@ == Seq::<char>::empty() && final(self).sinks@[old(
                    self,
                ).sinks@.len() + k].location == pseudo@[k],
            final(self).sink_locations() == old(self).padded_locations(pseudo@),
            *final(self) == (ClockTree { sinks: final(self).sinks, ..*old(self) }),
    {
        let ghost given = self.sinks@.len();
        let mut t: usize = 0;
        proof {
            assert(self.sinks@.take(given as int) =~= old(self).sinks@);
        }
        while t < pseudo.len()
            invariant
                t <= pseudo@.len(),
                given == old(self).sinks@.len(),
                self.sinks@.len() == given + t,
                self.sinks@.take(given as int) == old(self).sinks@,
                forall|k: int|
                    0 <= k < t ==> (#[trigger] self.sinks@[given + k]).name@ == Seq::<
                        char,
                    >::empty() && self.sinks@[given + k].location == pseudo@[k],
                *self == (ClockTree { sinks: self.sinks, ..*old(self) }),
            decreases pseudo@.len() - t,
        {
            let ghost before = self.sinks@;
            self.sinks.push(Sink { name: String::new(), location: pseudo[t] });
            proof {
                assert(self.sinks@.take(given as int) =~= before.take(given as int));
                assert forall|k: int| 0 <= k < t + 1 implies (#[trigger] self.sinks@[given + k]).name@
                    == Seq::<char>::empty() && self.sinks@[given + k].location == pseudo@[k] by {
                    if k < t {
                        assert(self.sinks@[given + k] == before[given + k]);
                    }
                }
            }
            t = t + 1;
        }
        proof {
            let a = self.sink_locations();
            let b = old(self).padded_locations(pseudo@);
            assert(a.len() == b.len());
            assert forall|x: int| 0 <= x < a.len() implies a[x] == b[x] by {
                if x < given {
                    assert(self.sinks@.take(given as int)[x] == self.sinks@[x]);
                } else {
                    assert(self.sinks@[given + (x - given)].location == pseudo@[x - given]);
                }
            }
            assert(a =~= b);
        }
    }

    /// Records the factor of every level and, from `targets`, which holds
    /// them bottom-up, the greatest common length of every level.
    fn record_levels(&mut self, branchs: &Vec<u32>, targets: &Vec<u64>)
        requires
            targets@.len() == branchs@.len(),
        ensures
            final(self).fanout_map@ == Map::new(
                |k: usize| k < branchs@.len(),
                |k: usize| branchs@[k as int],
            ),
            final(self).length_map@.dom() == Set::new(|k: usize| k < branchs@.len()),
            forall|step: int|
                0 <= step < branchs@.len() ==> #[trigger] final(self).length_map@[(branchs@.len()
                    - 1 - step) as usize] == targets@[step],
            final(self).tree_level == branchs@.len(),
            *final(self) == (ClockTree {
                fanout_map: final(self).fanout_map,
                length_map: final(self).length_map,
                tree_level: final(self).tree_level,
                ..*old(self)
            }),
    {
        let depth = branchs.len();
        let mut fanout: HashMap<usize, u32> = HashMap::new();
        let mut lengths: HashMap<usize, u64> = HashMap::new();
        let mut k: usize = 0;
        while k < depth
            invariant
                k <= depth,
                depth == branchs@.len(),
                targets@.len() == depth,
                fanout@ == Map::new(|x: usize| x < k, |x: usize| branchs@[x as int]),
                lengths@ == Map::new(|x: usize| x < k, |x: usize| targets@[depth - 1 - x]),
            decreases depth - k,
        {
            fanout.insert(k, branchs[k]);
            lengths.insert(k, targets[depth - 1 - k]);
            proof {
                assert(fanout@ =~= Map::new(|x: usize| x < k + 1, |x: usize| branchs@[x as int]));
                assert(lengths@ =~= Map::new(
                    |x: usize| x < k + 1,
                    |x: usize| targets@[depth - 1 - x],
                ));
            }
            k = k + 1;
        }
        proof {
            assert(lengths@.dom() =~= Set::new(|x: usize| x < depth));
        }
        self.fanout_map = fanout;
        self.length_map = lengths;
        self.tree_level = depth;
    }

    /// Builds the topology for the plan `branchs`, with the sinks padded by
    /// nameless sinks at the locations `pseudo`.
    ///
    /// The padded sinks are partitioned around their centre and the tree is
    /// built over them in the order of the partition. Where the partition
    /// fails, nothing changes.
    pub fn build_topology(&mut self, branchs: &Vec<u32>, pseudo: &Vec<(i32, i32)>) -> (r: Result<
        (),
        PartitionError,
    >)
        requires
            old(self).wf(),
            old(self).stage == Stage::SinksLoaded,
            product(branchs@) == old(self).sinks@.len() + pseudo@.len(),
        ensures
            final(self).wf(),
            match r {
                Ok(()) => {
                    &&& group_spec(old(self).padded_locations(pseudo@), branchs@) is Ok
                    &&& final(self).is_topology_of(
                        *old(self),
                        branchs@,
                        pseudo@,
                        group_spec(old(self).padded_locations(pseudo@), branchs@)->Ok_0,
                    )
                    &&& final(self).accepts_solutions()
                },
                Err(e) => {
                    &&& group_spec(old(self).padded_locations(pseudo@), branchs@) == Err::<
                        Seq<(u32, usize)>,
                        _,
                    >(e)
                    &&& product(branchs@) > u32::MAX
                    &&& *final(self) == *old(self)
                },
            },
    {
        let coords = self.gather_locations(pseudo);
        proof {
            if product(branchs@) <= u32::MAX {
                lemma_group_succeeds(coords@, branchs@);
            }
        }
        let order = match group(coords.as_slice(), branchs) {
            Err(e) => {
                return Err(e);
            },
            Ok(order) => order,
        };
        self.pad_sinks(pseudo);
        let ghost padded = *self;
        let targets = self.build_tree(branchs, &order);
        let ghost built = *self;
        self.record_levels(branchs, &targets);
        self.root_node_index = self.nodes.len() - 1;
        self.stage = Stage::TopologyBuilt;
        proof {
            built.lemma_tree_shape_frame(*self, branchs@, sinks_of(order@));
            assert(self.nodes.len() == self.nodes@.len());
            assert forall|genes: Seq<u8>, models: nat|
                genes.len() == self.tree_level && crate::stage::buffering::first_bad_gene(
                    genes,
                    models,
                    genes.len(),
                ) is None implies #[trigger] self.solution_error(genes, models) is None by {
                self.lemma_built_tree_takes_solution(branchs@, sinks_of(order@), genes, models);
            }
        }
        Ok(())
    }

    /// Generates the topology: plans the branch factors from the sink count,
    /// pads the sinks to the product of the plan with nameless sinks at
    /// random locations inside the bounding box, and builds the tree.
    ///
    /// The plan depends on the number of sinks and on `cfg.max_branch` alone,
    /// not on where the sinks are. Where a stage fails, nothing changes.
    pub fn gen_topology(&mut self, cfg: &GenTopologyCfg) -> (r: Result<(), TopologyError>)
        requires
            old(self).wf(),
            old(self).stage == Stage::SinksLoaded,
        ensures
            final(self).wf(),
            match r {
                Ok(()) => {
                    let branches = plan(old(self).sinks@.len(), cfg.max_branch as nat);
                    let pseudo = final(self).sink_locations().skip(old(self).sinks@.len() as int);
                    &&& final(self).sinks@.len() == product(branches)
                    &&& final(self).sinks@.len() >= old(self).sinks@.len()
                    &&& forall|k: int|
                        old(self).sinks@.len() <= k < final(self).sinks@.len() ==> in_box(
                            (#[trigger] final(self).sinks@[k]).location,
                            old(self).x_range,
                            old(self).y_range,
                        )
                    &&& group_spec(final(self).sink_locations(), branches) is Ok
                    &&& final(self).is_topology_of(
                        *old(self),
                        branches,
                        pseudo,
                        group_spec(final(self).sink_locations(), branches)->Ok_0,
                    )
                    &&& final(self).accepts_solutions()
                },
                Err(TopologyError::Planning(PlanningError::BranchLimitTooSmall { max_branch })) => {
                    &&& *final(self) == *old(self)
                    &&& old(self).sinks@.len() > 1
                    &&& cfg.max_branch < 2
                    &&& max_branch == cfg.max_branch
                },
                Err(TopologyError::Planning(PlanningError::CapacityExceeded)) => {
                    &&& *final(self) == *old(self)
                    &&& cfg.max_branch >= 2
                    &&& product(plan(old(self).sinks@.len(), cfg.max_branch as nat)) > usize::MAX
                },
                Err(TopologyError::Partition(_)) => {
                    &&& *final(self) == *old(self)
                    &&& product(plan(old(self).sinks@.len(), cfg.max_branch as nat)) > u32::MAX
                },
            },
    {
        let given = self.sinks.len();
        let factors = match plan_branches(given, cfg.max_branch) {
            Err(e) => {
                return Err(TopologyError::Planning(e));
            },
            Ok(factors) => factors,
        };
        proof {
            if given > 1 {
                lemma_plan_covers(given as nat, cfg.max_branch as nat);
            } else {
                assert(product(factors@) == 1);
            }
        }
        let padded = product_of(&factors);
        let pseudo = draw_locations(self.x_range, self.y_range, padded - given);
        let ghost before = *self;
        match self.build_topology(&factors, &pseudo) {
            Err(e) => Err(TopologyError::Partition(e)),
            Ok(()) => {
                proof {
                    let locations = self.sink_locations();
                    assert(locations =~= before.padded_locations(pseudo@)) by {
                        assert forall|x: int| 0 <= x < locations.len() implies locations[x]
                            == before.padded_locations(pseudo@)[x] by {
                            if x < given {
                                assert(self.sinks@.take(given as int)[x] == self.sinks@[x]);
                            } else {
                                assert(self.sinks@[given + (x - given)].location == pseudo@[x
                                    - given]);
                            }
                        }
                    }
                    assert(locations.skip(given as int) =~= pseudo@);
                    assert forall|k: int| given <= k < self.sinks@.len() implies in_box(
                        (#[trigger] self.sinks@[k]).location,
                        before.x_range,
                        before.y_range,
                    ) by {
                        assert(self.sinks@[given + (k - given)].location == pseudo@[k - given]);
                    }
                }
                Ok(())
            },
        }
    }
}

/// In a built tree, the children of a merge unit are as many consecutive
/// nodes as the branch factor of the unit's level says, starting at the
/// unit's first node.
pub proof fn lemma_children_of_merge(
    tree: ClockTree,
    branches: Seq<u32>,
    leaves: Seq<usize>,
    step: nat,
    m: int,
)
    requires
        tree.tree_shape(branches, leaves),
        tree.nodes@.len() <= usize::MAX,
        in_step(branches, step, m),
    ensures
        0 <= m < tree.merges@.len(),
        tree.children_of(m).len() == branches[branches.len() - 1 - step],
        tree.children_of(m) == crate::model::index_run(
            tree.merges@[m].first_node as int,
            branches[branches.len() - 1 - step] as int,
        ),
{
    let root = tree.nodes@.len() - 1;
    lemma_merges_before_ordered(branches, step + 1, branches.len());
    assert(tree.run_wf(m, root));
    assert(tree.width_of(m, root) == branches[branches.len() - 1 - step]);
    crate::model::lemma_run_chain(
        tree.nodes@,
        tree.merges@[m].first_node as int,
        tree.width_of(m, root),
    );
}

/// In a built tree, every node but the root is a child of exactly one merge
/// unit, and the root is a child of none.
pub proof fn lemma_single_root(tree: ClockTree, branches: Seq<u32>, leaves: Seq<usize>, x: int)
    requires
        tree.tree_shape(branches, leaves),
        0 <= x < tree.nodes@.len(),
    ensures
        x == tree.nodes@.len() - 1 ==> forall|m: int|
            0 <= m < tree.merges@.len() ==> !(tree.merges@[m].first_node <= x
                < #[trigger] tree.run_end_of(m, tree.nodes@.len() - 1)),
        x < tree.nodes@.len() - 1 ==> exists|m: int|
            0 <= m < tree.merges@.len() && tree.merges@[m].first_node <= x
                < #[trigger] tree.run_end_of(m, tree.nodes@.len() - 1),
        forall|m: int, other: int|
            0 <= m < other < tree.merges@.len() ==> #[trigger] tree.run_end_of(
                m,
                tree.nodes@.len() - 1,
            ) <= (#[trigger] tree.merges@[other]).first_node,
{
    let root = tree.nodes@.len() - 1;
    assert forall|m: int| 0 <= m < tree.merges@.len() implies !(tree.merges@[m].first_node <= root
        < #[trigger] tree.run_end_of(m, root)) by {
        assert(tree.run_wf(m, root));
    }
    assert forall|m: int, other: int| 0 <= m < other < tree.merges@.len() implies #[trigger] tree.run_end_of(
        m,
        root,
    ) <= (#[trigger] tree.merges@[other]).first_node by {
        lemma_runs_ordered(tree, root, m, other);
    }
    if x < root {
        lemma_covered(tree, root, x, tree.merges@.len() as int);
    }
}

/// The children of a later merge unit lie behind those of an earlier one.
proof fn lemma_runs_ordered(tree: ClockTree, cursor: int, m: int, other: int)
    requires
        tree.tiled(cursor),
        0 <= m < other < tree.merges@.len(),
    ensures
        tree.run_end_of(m, cursor) <= tree.merges@[other].first_node,
    decreases other - m,
{
    if m + 1 < other {
        lemma_runs_ordered(tree, cursor, m, other - 1);
        assert(tree.run_wf(other - 1, cursor));
    }
}

/// A node in front of the children of the merge unit `upto`, or in front of
/// the cursor, belongs to the children of an earlier unit.
proof fn lemma_covered(tree: ClockTree, cursor: int, x: int, upto: int)
    requires
        tree.tiled(cursor),
        0 <= upto <= tree.merges@.len(),
        0 <= x,
        upto < tree.merges@.len() ==> x < tree.merges@[upto].first_node,
        upto == tree.merges@.len() ==> x < cursor,
    ensures
        exists|m: int|
            0 <= m < tree.merges@.len() && tree.merges@[m].first_node <= x
                < #[trigger] tree.run_end_of(m, cursor),
    decreases upto,
{
    if upto == 0 {
        assert(false);
    } else {
        let m = upto - 1;
        assert(tree.run_wf(m, cursor));
        if tree.merges@[m].first_node <= x {
            assert(x < tree.run_end_of(m, cursor));
        } else {
            lemma_covered(tree, cursor, x, m);
        }
    }
}

impl ClockTree {
    /// The branch factor recorded for the level, or 1 where none is.
    pub open spec fn level_fanout(self, level: usize) -> nat {
        if self.fanout_map@.contains_key(level) {
            self.fanout_map@[level] as nat
        } else {
            1
        }
    }

    /// The common length recorded for the level, or 0 where none is.
    pub open spec fn recorded_length(self, level: usize) -> nat {
        if self.length_map@.contains_key(level) {
            self.length_map@[level] as nat
        } else {
            0
        }
    }

    /// The number of nodes below the first `upto` levels: the product of
    /// their branch factors.
    pub open spec fn nodes_below(self, upto: nat) -> nat
        decreases upto,
    {
        if upto == 0 {
            1
        } else {
            self.nodes_below((upto - 1) as nat) * self.level_fanout((upto - 1) as usize)
        }
    }

    /// The estimated wire length of the first `upto` levels: for each level
    /// its common length, once for each node below it.
    pub open spec fn wirelength(self, upto: nat) -> nat
        decreases upto,
    {
        if upto == 0 {
            0
        } else {
            self.wirelength((upto - 1) as nat) + self.recorded_length((upto - 1) as usize)
                * self.nodes_below(upto)
        }
    }

    /// Every quantity that the estimate of the first `upto` levels passes
    /// through fits in `u64`.
    pub open spec fn estimate_fits(self, upto: nat) -> bool
        decreases upto,
    {
        if upto == 0 {
            true
        } else {
            &&& self.estimate_fits((upto - 1) as nat)
            &&& self.nodes_below(upto) <= u64::MAX
            &&& self.recorded_length((upto - 1) as usize) * self.nodes_below(upto) <= u64::MAX
            &&& self.wirelength(upto) <= u64::MAX
        }
    }

    /// Estimates the wire length of the tree from the recorded common
    /// lengths and branch factors. The answer is `None` where a quantity on
    /// the way does not fit in `u64`.
    pub fn estimated_wirelength(&self) -> (r: Option<u64>)
        ensures
            match r {
                Some(total) => self.estimate_fits(self.tree_level as nat) && total
                    == self.wirelength(self.tree_level as nat),
                None => !self.estimate_fits(self.tree_level as nat),
            },
    {
        let mut total: u64 = 0;
        let mut below: u64 = 1;
        let mut level: usize = 0;
        while level < self.tree_level
            invariant
                level <= self.tree_level,
                self.estimate_fits(level as nat),
                total == self.wirelength(level as nat),
                below == self.nodes_below(level as nat),
            decreases self.tree_level - level,
        {
            let fanout: u64 = match self.fanout_map.get(&level) {
                Some(v) => *v as u64,
                None => 1,
            };
            let length: u64 = match self.length_map.get(&level) {
                Some(v) => *v,
                None => 0,
            };
            below = match below.checked_mul(fanout) {
                Some(v) => v,
                None => {
                    proof {
                        self.lemma_estimate_stays_unfit((level + 1) as nat, self.tree_level as nat);
                    }
                    return None;
                },
            };
            let wires = match length.checked_mul(below) {
                Some(v) => v,
                None => {
                    proof {
                        self.lemma_estimate_stays_unfit((level + 1) as nat, self.tree_level as nat);
                    }
                    return None;
                },
            };
            total = match total.checked_add(wires) {
                Some(v) => v,
                None => {
                    proof {
                        self.lemma_estimate_stays_unfit((level + 1) as nat, self.tree_level as nat);
                    }
                    return None;
                },
            };
            level = level + 1;
        }
        Some(total)
    }

    /// An estimate that does not fit for some levels does not fit for more.
    pub proof fn lemma_estimate_stays_unfit(self, upto: nat, more: nat)
        requires
            upto <= more,
            !self.estimate_fits(upto),
        ensures
            !self.estimate_fits(more),
        decreases more - upto,
    {
        if upto < more {
            self.lemma_estimate_stays_unfit(upto, (more - 1) as nat);
        }
    }
}

/// Every group has `size` members and a label below `bound`.
pub open spec fn uniform_groups(groups: Seq<(u32, Seq<usize>)>, size: int, bound: int) -> bool {
    forall|g: int|
        0 <= g < groups.len() ==> (#[trigger] groups[g]).1.len() == size && groups[g].0 < bound
}

/// A product is the product of its leading factors times the product of
/// the factors behind them, and the first of these times the product of
/// the rest.
pub proof fn lemma_product_split(factors: Seq<u32>, k: int)
    requires
        product(factors) >= 1,
        0 <= k <= factors.len(),
    ensures
        product(factors) == product(factors.take(k)) * product(factors.skip(k)),
        product(factors.skip(k)) >= 1,
        k < factors.len() ==> product(factors.skip(k)) == factors[k] * product(factors.skip(k + 1)),
{
    assert(factors.take(k) + factors.skip(k) =~= factors);
    lemma_product_concat(factors.take(k), factors.skip(k));
    let a = product(factors.take(k));
    let b = product(factors.skip(k));
    assert(b >= 1) by (nonlinear_arith)
        requires
            a * b >= 1,
            a >= 0,
            b >= 0,
    ;
    if k < factors.len() {
        assert(seq![factors[k]] + factors.skip(k + 1) =~= factors.skip(k));
        lemma_product_concat(seq![factors[k]], factors.skip(k + 1));
        lemma_product_single(factors[k]);
    }
}

/// A group whose size is a multiple of the branch factor splits into equal
/// groups, and their labels stay below the bound of the next depth.
proof fn lemma_split_group_uniform(
    label: u32,
    ids: Seq<usize>,
    branch: u32,
    coords: Seq<Location>,
    c: Location,
    rest: nat,
    bound: nat,
)
    requires
        branch >= 1,
        rest >= 1,
        ids.len() == branch * rest,
        label < bound,
        branch * bound <= u32::MAX,
    ensures
        split_error(label, ids.len(), branch) is None,
        uniform_groups(split_group(label, ids, branch, coords, c), rest as int, branch * bound),
        split_group(label, ids, branch, coords, c).len() == branch,
{
    let size = ids.len();
    let b = branch as nat;
    assert(size >= b) by (nonlinear_arith)
        requires
            size == b * rest,
            rest >= 1,
            b >= 1,
    ;
    assert((b - 1) * label + b <= b * bound) by (nonlinear_arith)
        requires
            label + 1 <= bound,
            b >= 1,
    ;
    assert(size / b == rest) by {
        vstd::arithmetic::div_mod::lemma_div_multiples_vanish(rest as int, b as int);
    }
    lemma_sort_is_permutation(ids, coords, c);
    let all = split_group(label, ids, branch, coords, c);
    assert forall|g: int| 0 <= g < all.len() implies (#[trigger] all[g]).1.len() == rest
        && all[g].0 < branch * bound by {
        lemma_run_bounds(size, b, g as nat);
        assert((g + 1) * rest == g * rest + rest) by (nonlinear_arith);
        if g + 1 == b {
            assert(b * rest == (b - 1) * rest + rest) by (nonlinear_arith);
        }
        assert(child_label(label, branch, g) == (b - 1) * label + g);
    }
}

/// Equal groups whose size is a multiple of the branch factor all split.
proof fn lemma_split_groups_uniform(
    groups: Seq<(u32, Seq<usize>)>,
    branch: u32,
    coords: Seq<Location>,
    c: Location,
    rest: nat,
    bound: nat,
)
    requires
        branch >= 1,
        rest >= 1,
        uniform_groups(groups, branch * rest, bound as int),
        branch * bound <= u32::MAX,
    ensures
        split_groups(groups, branch, coords, c) is Ok,
        uniform_groups(split_groups(groups, branch, coords, c)->Ok_0, rest as int, branch * bound),
        split_groups(groups, branch, coords, c)->Ok_0.len() == groups.len() * branch,
    decreases groups.len(),
{
    if groups.len() > 0 {
        let front = groups.drop_last();
        assert forall|g: int| 0 <= g < front.len() implies (#[trigger] front[g]).1.len() == branch
            * rest && front[g].0 < bound by {
            assert(front[g] == groups[g]);
        }
        lemma_split_groups_uniform(front, branch, coords, c, rest, bound);
        let last = groups[groups.len() - 1];
        lemma_split_group_uniform(last.0, last.1, branch, coords, c, rest, bound);
        let done = split_groups(front, branch, coords, c)->Ok_0;
        let new = split_group(last.0, last.1, branch, coords, c);
        assert forall|g: int| 0 <= g < (done + new).len() implies (#[trigger] (done + new)[g]).1.len()
            == rest && (done + new)[g].0 < branch * bound by {
            if g < done.len() {
                assert((done + new)[g] == done[g]);
            } else {
                assert((done + new)[g] == new[g - done.len()]);
            }
        }
        assert(groups.len() * branch == front.len() * branch + branch) by (nonlinear_arith)
            requires
                groups.len() == front.len() + 1,
        ;
    } else {
        assert(groups.len() * branch == 0) by (nonlinear_arith)
            requires
                groups.len() == 0,
        ;
    }
}

/// Where the point count is the product of the factors and fits in `u32`,
/// every depth is reached, and at each depth all groups have the same size:
/// the product of the factors that are still to come.
pub proof fn lemma_groups_are_uniform(coords: Seq<Location>, branches: Seq<u32>, depth: nat)
    requires
        product(branches) == coords.len(),
        1 <= coords.len() <= u32::MAX,
        depth <= branches.len(),
    ensures
        groups_at(coords, branches, depth) is Ok,
        uniform_groups(
            groups_at(coords, branches, depth)->Ok_0,
            product(branches.skip(depth as int)) as int,
            product(branches.take(depth as int)) as int,
        ),
        groups_at(coords, branches, depth)->Ok_0.len() == product(branches.take(depth as int)),
    decreases depth,
{
    if depth == 0 {
        assert(branches.skip(0) =~= branches);
        assert(branches.take(0) =~= Seq::<u32>::empty());
        assert(product(branches.take(0)) == 1);
    } else {
        let k = (depth - 1) as int;
        lemma_groups_are_uniform(coords, branches, k as nat);
        lemma_product_split(branches, k);
        lemma_product_split(branches, k + 1);
        lemma_product_prefix(branches, k);
        lemma_product_prefix_bound(branches, k + 1);
        let above = groups_at(coords, branches, k as nat)->Ok_0;
        let rest = product(branches.skip(k + 1));
        let bound = product(branches.take(k));
        assert(branches[k] * bound == bound * branches[k]) by (nonlinear_arith);
        lemma_split_groups_uniform(above, branches[k], coords, center_of(coords), rest, bound);
    }
}

/// Where the point count is the product of the factors and fits in `u32`,
/// the partition succeeds, and every innermost group has one member.
pub proof fn lemma_group_succeeds(coords: Seq<Location>, branches: Seq<u32>)
    requires
        product(branches) == coords.len(),
        1 <= coords.len() <= u32::MAX,
    ensures
        group_spec(coords, branches) is Ok,
        uniform_groups(groups_at(coords, branches, branches.len())->Ok_0, 1, coords.len() as int),
        groups_at(coords, branches, branches.len())->Ok_0.len() == coords.len(),
{
    lemma_groups_are_uniform(coords, branches, branches.len());
    assert(branches.skip(branches.len() as int) =~= Seq::<u32>::empty());
    assert(branches.take(branches.len() as int) =~= branches);
    assert(product(Seq::<u32>::empty()) == 1);
}

/// Every level holds a merge unit, so the count of merge units grows from
/// level to level.
pub proof fn lemma_merges_before_strict(branches: Seq<u32>, fewer: nat, more: nat)
    requires
        product(branches) >= 1,
        fewer < more <= branches.len(),
    ensures
        merges_before(branches, fewer) < merges_before(branches, more),
    decreases more - fewer,
{
    lemma_product_prefix(branches, branches.len() - more);
    if fewer + 1 < more {
        lemma_merges_before_strict(branches, fewer, (more - 1) as nat);
    }
}

} // verus!
