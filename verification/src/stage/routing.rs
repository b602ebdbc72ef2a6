//! Routing: the paths of every merge unit of the arena.
//!
//! When the tree is built, every merge unit gets the paths from its
//! children: each child runs across the dominant axis of its group onto the
//! backbone through the junction, and the two children at the ends of the
//! group run on along the backbone to the junction.
use crate::geometry::{analyze, extent_of};
use crate::merge::tap_path;
use crate::model::{ClockTree, MergeUnit, MergeUnitIndex};
use crate::route::{Location, Path};
use vstd::prelude::*;

verus! {

/// The paths from the points `points` of a group with the given orientation
/// and root, in order. The ends of the group are taken from the points.
pub open spec fn tap_paths(points: Seq<Location>, horizontal: bool, root: Location) -> Seq<Path> {
    Seq::new(
        points.len(),
        |i: int|
            tap_path(
                points[i],
                horizontal,
                extent_of(points).x_range,
                extent_of(points).y_range,
                root,
            ),
    )
}

/// Lays the paths from the points of a group.
pub fn lay_paths(points: &[(i32, i32)], horizontal: bool, root: (i32, i32)) -> (paths: Vec<Path>)
    ensures
        paths@ == tap_paths(points@, horizontal, root),
{
    let e = analyze(points);
    let ghost whole = tap_paths(points@, horizontal, root);
    let mut paths: Vec<Path> = Vec::new();
    let mut i: usize = 0;
    while i < points.len()
        invariant
            i <= points@.len(),
            e == extent_of(points@),
            whole == tap_paths(points@, horizontal, root),
            paths@ == whole.take(i as int),
        decreases points@.len() - i,
    {
        let p = points[i];
        let path = if horizontal {
            if p.0 == e.x_range.0 || p.0 == e.x_range.1 {
                Path { from: p, turn: Some((p.0, root.1)), to: root }
            } else {
                Path { from: p, turn: None, to: (p.0, root.1) }
            }
        } else {
            if p.1 == e.y_range.0 || p.1 == e.y_range.1 {
                Path { from: p, turn: Some((root.0, p.1)), to: root }
            } else {
                Path { from: p, turn: None, to: (root.0, p.1) }
            }
        };
        paths.push(path);
        proof {
            assert(whole[i as int] == path);
            assert(paths@ =~= whole.take(i + 1));
        }
        i = i + 1;
    }
    proof {
        assert(whole.take(whole.len() as int) =~= whole);
    }
    paths
}

impl ClockTree {
    /// The locations of the children of the merge unit `m`, in order.
    pub open spec fn child_locations(self, m: int) -> Seq<Location> {
        Seq::new(
            self.children_of(m).len(),
            |t: int| self.node_location(self.children_of(m)[t] as int),
        )
    }

    /// The paths from the children of the merge unit `m` to its junction.
    pub open spec fn routed_paths(self, m: int) -> Seq<Path> {
        tap_paths(
            self.child_locations(m),
            self.merges@[m].if_horizontal,
            self.merges@[m].location,
        )
    }

    /// The merge unit `m` of this tree is that of `before`, with its paths
    /// laid.
    pub open spec fn routed(self, before: ClockTree, m: int) -> bool {
        &&& self.merges@[m].path@ == before.routed_paths(m)
        &&& self.merges@[m].first_node == before.merges@[m].first_node
        &&& self.merges@[m].location == before.merges@[m].location
        &&& self.merges@[m].common_length == before.merges@[m].common_length
        &&& self.merges@[m].if_horizontal == before.merges@[m].if_horizontal
    }

    /// Reads the locations of the children of the merge unit `m`.
    pub fn locations_of_children(&self, m: MergeUnitIndex) -> (locations: Vec<(i32, i32)>)
        requires
            self.arena_wf(),
            m < self.merges@.len(),
        ensures
            locations@ == self.child_locations(m as int),
    {
        let children = self.get_merge_unit_load_nodes(m).collect();
        let mut locations: Vec<(i32, i32)> = Vec::new();
        let mut t: usize = 0;
        while t < children.len()
            invariant
                t <= children@.len(),
                self.arena_wf(),
                children@ == self.children_of(m as int),
                forall|k: int| 0 <= k < children@.len() ==> children@[k] < self.nodes@.len(),
                locations@ == self.child_locations(m as int).take(t as int),
            decreases children@.len() - t,
        {
            let p = self.location_of_node(children[t]);
            locations.push(p);
            proof {
                assert(locations@ =~= self.child_locations(m as int).take(t + 1));
            }
            t = t + 1;
        }
        proof {
            assert(self.child_locations(m as int).take(children@.len() as int)
                =~= self.child_locations(m as int));
        }
        locations
    }

    /// Replaces the paths of the merge unit `m` by the paths from its
    /// children.
    pub fn route_merge(&mut self, m: MergeUnitIndex)
        requires
            old(self).arena_wf(),
            m < old(self).merges@.len(),
        ensures
            final(self).arena_wf(),
            final(self).merges@.len() == old(self).merges@.len(),
            final(self).routed(*old(self), m as int),
            forall|other: int|
                0 <= other < old(self).merges@.len() && other != m
                    ==> #[trigger] final(self).merges@[other] == old(self).merges@[other],
            *final(self) == (ClockTree { merges: final(self).merges, ..*old(self) }),
    {
        let locations = self.locations_of_children(m);
        let first_node = self.merges[m].first_node;
        let location = self.merges[m].location;
        let common_length = self.merges[m].common_length;
        let if_horizontal = self.merges[m].if_horizontal;
        let path = lay_paths(locations.as_slice(), if_horizontal, location);
        self.merges.set(m, MergeUnit { first_node, location, common_length, path, if_horizontal });
        proof {
            assert forall|i: int| 0 <= i < self.nodes@.len() implies #[trigger] self.node_wf(i) by {
                assert(old(self).node_wf(i));
            }
            assert forall|u: int| 0 <= u < self.merges@.len() implies (#[trigger] self.merges@[u]).first_node
                < self.nodes@.len() by {
                assert(old(self).merges@[u].first_node < old(self).nodes@.len());
            }
        }
    }

    /// Laying the paths of merge units changes neither the children of a
    /// unit nor where they lie.
    pub proof fn lemma_routing_keeps_paths(self, other: ClockTree, m: int)
        requires
            self.arena_wf(),
            0 <= m < self.merges@.len(),
            other.nodes == self.nodes,
            other.sinks == self.sinks,
            other.buffers == self.buffers,
            other.merges@.len() == self.merges@.len(),
            forall|u: int|
                0 <= u < self.merges@.len() ==> (#[trigger] other.merges@[u]).first_node
                    == self.merges@[u].first_node && other.merges@[u].location
                    == self.merges@[u].location && other.merges@[u].if_horizontal
                    == self.merges@[u].if_horizontal,
        ensures
            other.routed_paths(m) == self.routed_paths(m),
    {
        assert(other.merges@[m].first_node == self.merges@[m].first_node);
        crate::model::lemma_chain_members(self, self.merges@[m].first_node);
        let children = self.children_of(m);
        assert(other.children_of(m) == children);
        assert forall|t: int| 0 <= t < children.len() implies other.node_location(
            children[t] as int,
        ) == self.node_location(children[t] as int) by {
            let x = children[t] as int;
            assert(self.node_wf(x));
            match self.nodes@[x].node_owner {
                crate::model::NodeOwner::MergeUnit(u) => {
                    assert(other.merges@[u as int].location == self.merges@[u as int].location);
                },
                _ => {},
            }
        }
        assert(other.child_locations(m) =~= self.child_locations(m));
    }

    /// Lays the paths of every merge unit: for each unit, the paths from its
    /// children to its junction replace what paths it had.
    pub fn materialize_paths(&mut self)
        requires
            old(self).arena_wf(),
        ensures
            final(self).arena_wf(),
            final(self).merges@.len() == old(self).merges@.len(),
            forall|m: int|
                0 <= m < old(self).merges@.len() ==> #[trigger] final(self).routed(*old(self), m),
            *final(self) == (ClockTree { merges: final(self).merges, ..*old(self) }),
    {
        let mut m: usize = 0;
        while m < self.merges.len()
            invariant
                m <= self.merges@.len(),
                self.arena_wf(),
                old(self).arena_wf(),
                self.merges@.len() == old(self).merges@.len(),
                forall|u: int| 0 <= u < m ==> #[trigger] self.routed(*old(self), u),
                forall|u: int|
                    m <= u < self.merges@.len() ==> #[trigger] self.merges@[u] == old(
                        self,
                    ).merges@[u],
                *self == (ClockTree { merges: self.merges, ..*old(self) }),
            decreases self.merges@.len() - m,
        {
            let ghost before = *self;
            proof {
                assert forall|u: int| 0 <= u < old(self).merges@.len() implies (
                #[trigger] before.merges@[u]).first_node == old(self).merges@[u].first_node
                    && before.merges@[u].location == old(self).merges@[u].location
                    && before.merges@[u].if_horizontal == old(self).merges@[u].if_horizontal by {
                    if u < m {
                        assert(before.routed(*old(self), u));
                    }
                }
                old(self).lemma_routing_keeps_paths(before, m as int);
            }
            self.route_merge(m);
            proof {
                assert forall|u: int| 0 <= u < m + 1 implies #[trigger] self.routed(
                    *old(self),
                    u,
                ) by {
                    if u < m {
                        assert(before.routed(*old(self), u));
                        assert(self.merges@[u] == before.merges@[u]);
                    }
                }
                assert forall|u: int| m + 1 <= u < self.merges@.len() implies #[trigger] self.merges@[u]
                    == old(self).merges@[u] by {
                    assert(self.merges@[u] == before.merges@[u]);
                }
            }
            m = m + 1;
        }
    }
}

} // verus!
