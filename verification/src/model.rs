//! The tree arena: sinks, merge units, buffers and the nodes that link them.
//!
//! Every entity lives in a flat, append-only collection and is named by its
//! index there. A node refers to the entity that owns it and to the next
//! sibling under the same parent; a merge unit refers to the first node of
//! its children. The links of siblings only ever point forward, so a chain of
//! siblings ends.
use crate::geometry::{analyze, common_length_of, extent_of, is_horizontal, junction};
use crate::route::{sum_lengths, total_length, Location, Path};
use crate::text::{decimal, decimal_string};
use std::collections::HashMap;
use vstd::prelude::*;
use vstd::string::*;

verus! {

broadcast use vstd::std_specs::hash::group_hash_axioms;

pub type MergeUnitIndex = usize;

pub type ClockTreeLevel = usize;

pub type SinkIndex = usize;

pub type BufferIndex = usize;

pub type NodeIndex = usize;

/// A clock sink: the cell's name, empty for a sink that only pads the count,
/// and its location.
#[derive(Debug, Default, PartialEq, Eq)]
pub struct Sink {
    pub name: String,
    pub location: Location,
}

/// A buffer, placed at the junction of the merge unit that it drives.
#[derive(Debug, PartialEq, Eq)]
pub struct Buffer {
    pub buffer_name: String,
    pub model_name: String,
    pub location: Location,
    pub load: MergeUnitIndex,
}

/// The entity that a node stands for.
#[derive(Clone, Copy, Debug, PartialEq, Eq, Structural)]
pub enum NodeOwner {
    Buffer(BufferIndex),
    MergeUnit(MergeUnitIndex),
    Sink(SinkIndex),
}

/// A link of the tree: its owner, and the next sibling under the same parent.
#[derive(Clone, Copy, Debug, PartialEq, Eq)]
pub struct Node {
    pub node_owner: NodeOwner,
    pub next_node: Option<NodeIndex>,
}

/// A merge of sibling locations into one junction.
#[derive(Debug, PartialEq, Eq)]
pub struct MergeUnit {
    /// The first node of the children.
    pub first_node: NodeIndex,
    /// The junction.
    pub location: Location,
    /// The length of the backbone that the merges of one level aim for.
    pub common_length: u64,
    /// The routing segments.
    pub path: Vec<Path>,
    /// Whether the group is wider than it is tall.
    pub if_horizontal: bool,
}

/// How far the synthesis of a clock tree has come.
#[derive(Clone, Copy, Debug, PartialEq, Eq, Structural)]
pub enum Stage {
    Empty,
    SinksLoaded,
    TopologyBuilt,
    Buffered,
}

/// A clock tree and all that it owns.
pub struct ClockTree {
    pub name: String,
    pub x_range: (i32, i32),
    pub y_range: (i32, i32),
    pub nodes: Vec<Node>,
    pub tree_level: ClockTreeLevel,
    pub root_node_index: NodeIndex,
    pub sinks: Vec<Sink>,
    pub buffers: Vec<Buffer>,
    pub merges: Vec<MergeUnit>,
    /// For each level, the greatest common length of its merge units.
    pub length_map: HashMap<ClockTreeLevel, u64>,
    /// For each level, its branch factor.
    pub fanout_map: HashMap<ClockTreeLevel, u32>,
    pub stage: Stage,
}

/// The siblings from the node `start` on: `start`, the node that it links to,
/// and so on to the node without a link. A link that does not point forward
/// to a node of the arena ends the chain as well.
pub open spec fn chain_from(nodes: Seq<Node>, start: NodeIndex) -> Seq<NodeIndex>
    decreases nodes.len() - start,
{
    if start >= nodes.len() {
        Seq::empty()
    } else {
        let rest = match nodes[start as int].next_node {
            Some(next) => if start < next < nodes.len() {
                chain_from(nodes, next)
            } else {
                Seq::empty()
            },
            None => Seq::empty(),
        };
        seq![start] + rest
    }
}

impl MergeUnit {
    /// This unit has the geometry of the group `points`.
    pub open spec fn has_geometry_of(self, points: Seq<Location>) -> bool {
        &&& self.location == junction(points)
        &&& self.common_length == common_length_of(points)
        &&& self.if_horizontal == is_horizontal(points)
    }

    /// The wire length of the routing segments.
    pub fn length(&self) -> (r: u128)
        ensures
            r == total_length(self.path@, self.path@.len() as int),
    {
        sum_lengths(&self.path)
    }

    /// Sets the orientation, the junction and the common length from the
    /// locations of the children.
    pub fn analyze_child_location(&mut self, sink: &[(i32, i32)])
        ensures
            final(self).has_geometry_of(sink@),
            final(self).first_node == old(self).first_node,
            final(self).path == old(self).path,
    {
        let e = analyze(sink);
        self.if_horizontal = e.if_horizontal;
        self.location = e.location;
        self.common_length = e.common_length;
    }
}

impl Default for MergeUnit {
    fn default() -> (unit: MergeUnit)
        ensures
            unit.first_node == 0,
            unit.location == (0i32, 0i32),
            unit.common_length == 0,
            unit.path@ == Seq::<Path>::empty(),
            !unit.if_horizontal,
    {
        MergeUnit {
            first_node: 0,
            location: (0, 0),
            common_length: 0,
            path: Vec::new(),
            if_horizontal: false,
        }
    }
}

/// Two analyses of the same children agree: the geometry of a merge unit
/// depends on the locations of its children alone.
pub proof fn lemma_geometry_repeatable(a: MergeUnit, b: MergeUnit, points: Seq<Location>)
    requires
        a.has_geometry_of(points),
        b.has_geometry_of(points),
    ensures
        a.location == b.location,
        a.common_length == b.common_length,
        a.if_horizontal == b.if_horizontal,
{
}

impl ClockTree {
    /// The owner `owner` exists.
    pub open spec fn owner_in_range(self, owner: NodeOwner) -> bool {
        match owner {
            NodeOwner::Buffer(b) => b < self.buffers@.len(),
            NodeOwner::MergeUnit(m) => m < self.merges@.len(),
            NodeOwner::Sink(s) => s < self.sinks@.len(),
        }
    }

    /// The node `i` has an owner that exists, and links forward to a node
    /// that exists, if it links at all.
    pub open spec fn node_wf(self, i: int) -> bool {
        &&& self.owner_in_range(self.nodes@[i].node_owner)
        &&& match self.nodes@[i].next_node {
            Some(next) => i < next < self.nodes@.len(),
            None => true,
        }
    }

    /// Every index held in the arena names an entity of the arena, and every
    /// link of siblings points forward.
    pub open spec fn arena_wf(self) -> bool {
        &&& forall|i: int| 0 <= i < self.nodes@.len() ==> #[trigger] self.node_wf(i)
        &&& forall|m: int|
            0 <= m < self.merges@.len() ==> (#[trigger] self.merges@[m]).first_node
                < self.nodes@.len()
        &&& forall|b: int|
            0 <= b < self.buffers@.len() ==> (#[trigger] self.buffers@[b]).load
                < self.merges@.len()
    }

    /// The arena is well formed, and it holds what its stage says: nothing
    /// before the sinks are loaded, sinks inside an ordered bounding box
    /// before the topology is built, and a root from then on.
    pub open spec fn wf(self) -> bool {
        &&& self.arena_wf()
        &&& self.stage == Stage::Empty ==> self.sinks@.len() == 0
        &&& (self.stage == Stage::Empty || self.stage == Stage::SinksLoaded) ==> {
            &&& self.nodes@.len() == 0
            &&& self.merges@.len() == 0
            &&& self.buffers@.len() == 0
        }
        &&& self.stage == Stage::SinksLoaded ==> {
            &&& self.sinks@.len() > 0
            &&& self.x_range.0 <= self.x_range.1
            &&& self.y_range.0 <= self.y_range.1
        }
        &&& (self.stage == Stage::TopologyBuilt || self.stage == Stage::Buffered)
            ==> self.root_node_index < self.nodes@.len()
    }

    /// The tree holds nothing: it is in the first stage, without sinks,
    /// nodes, merge units, buffers and levels.
    pub open spec fn is_blank(self) -> bool {
        &&& self.stage == Stage::Empty
        &&& self.x_range == (0i32, 0i32)
        &&& self.y_range == (0i32, 0i32)
        &&& self.nodes@.len() == 0
        &&& self.tree_level == 0
        &&& self.root_node_index == 0
        &&& self.sinks@.len() == 0
        &&& self.buffers@.len() == 0
        &&& self.merges@.len() == 0
        &&& self.length_map@ == Map::<usize, u64>::empty()
        &&& self.fanout_map@ == Map::<usize, u32>::empty()
    }

    /// The children of the merge unit `m`: the chain of siblings from its
    /// first node on.
    pub open spec fn children_of(self, m: int) -> Seq<NodeIndex> {
        chain_from(self.nodes@, self.merges@[m].first_node)
    }

    /// The locations of the sinks, in order.
    pub open spec fn sink_locations(self) -> Seq<Location> {
        Seq::new(self.sinks@.len(), |i: int| self.sinks@[i].location)
    }

    /// Appends a node owned by the sink `sink`, without a sibling, and
    /// returns its index.
    pub fn push_sink_node(&mut self, sink: SinkIndex) -> (node: NodeIndex)
        requires
            old(self).arena_wf(),
            sink < old(self).sinks@.len(),
        ensures
            final(self).arena_wf(),
            node == old(self).nodes@.len(),
            final(self).nodes@ == old(self).nodes@.push(
                Node { node_owner: NodeOwner::Sink(sink), next_node: None },
            ),
            *final(self) == (ClockTree { nodes: final(self).nodes, ..*old(self) }),
    {
        let node = self.nodes.len();
        self.nodes.push(Node { node_owner: NodeOwner::Sink(sink), next_node: None });
        proof {
            assert forall|i: int| 0 <= i < self.nodes@.len() implies #[trigger] self.node_wf(i) by {
                if i < node {
                    assert(old(self).node_wf(i));
                }
            }
        }
        node
    }

    /// Appends a merge unit over the children whose chain starts at
    /// `first_node`, with the geometry of their locations `children`, and a
    /// node owned by that unit. Returns the indices of the node and the unit.
    pub fn push_merge_node(&mut self, first_node: NodeIndex, children: &[(i32, i32)]) -> (r: (
        NodeIndex,
        MergeUnitIndex,
    ))
        requires
            old(self).arena_wf(),
            first_node < old(self).nodes@.len(),
        ensures
            final(self).arena_wf(),
            r.0 == old(self).nodes@.len(),
            r.1 == old(self).merges@.len(),
            final(self).nodes@ == old(self).nodes@.push(
                Node { node_owner: NodeOwner::MergeUnit(r.1), next_node: None },
            ),
            final(self).merges@.len() == old(self).merges@.len() + 1,
            final(self).merges@.drop_last() == old(self).merges@,
            final(self).merges@.last().first_node == first_node,
            final(self).merges@.last().has_geometry_of(children@),
            final(self).merges@.last().path@ == Seq::<Path>::empty(),
            *final(self) == (ClockTree {
                nodes: final(self).nodes,
                merges: final(self).merges,
                ..*old(self)
            }),
    {
        let node = self.nodes.len();
        let unit_index = self.merges.len();
        let mut unit = MergeUnit::default();
        unit.first_node = first_node;
        unit.analyze_child_location(children);
        self.merges.push(unit);
        self.nodes.push(Node { node_owner: NodeOwner::MergeUnit(unit_index), next_node: None });
        proof {
            assert(self.merges@.drop_last() =~= old(self).merges@);
            assert forall|i: int| 0 <= i < self.nodes@.len() implies #[trigger] self.node_wf(i) by {
                if i < node {
                    assert(old(self).node_wf(i));
                }
            }
            assert forall|m: int| 0 <= m < self.merges@.len() implies (#[trigger] self.merges@[m]).first_node
                < self.nodes@.len() by {
                if m < unit_index {
                    assert(self.merges@[m] == old(self).merges@[m]);
                }
            }
        }
        (node, unit_index)
    }

    /// Makes `next_idx` the next sibling of `node_idx`.
    pub fn link_sibling(&mut self, node_idx: NodeIndex, next_idx: NodeIndex)
        requires
            old(self).arena_wf(),
            node_idx < next_idx < old(self).nodes@.len(),
        ensures
            final(self).arena_wf(),
            final(self).nodes@ == old(self).nodes@.update(
                node_idx as int,
                Node {
                    node_owner: old(self).nodes@[node_idx as int].node_owner,
                    next_node: Some(next_idx),
                },
            ),
            *final(self) == (ClockTree { nodes: final(self).nodes, ..*old(self) }),
    {
        let owner = self.nodes[node_idx].node_owner;
        self.nodes.set(node_idx, Node { node_owner: owner, next_node: Some(next_idx) });
        proof {
            assert forall|i: int| 0 <= i < self.nodes@.len() implies #[trigger] self.node_wf(i) by {
                assert(old(self).node_wf(i));
            }
        }
    }
}

/// A walk along the children of a merge unit: each call of
/// [`NodeSuccessor::next`] hands out one child. The walk cannot be restarted.
pub struct NodeSuccessor<'a> {
    tree: &'a ClockTree,
    cursor: Option<NodeIndex>,
}

impl<'a> NodeSuccessor<'a> {
    /// The tree that is walked.
    pub closed spec fn tree(self) -> ClockTree {
        *self.tree
    }

    /// The walk stands on a node of a well-formed arena, or is over.
    pub closed spec fn wf(self) -> bool {
        &&& self.tree.arena_wf()
        &&& match self.cursor {
            Some(node) => node < self.tree.nodes@.len(),
            None => true,
        }
    }

    /// The children that the walk has not handed out yet.
    pub closed spec fn remaining(self) -> Seq<NodeIndex> {
        match self.cursor {
            Some(node) => chain_from(self.tree.nodes@, node),
            None => Seq::empty(),
        }
    }

    /// Hands out the next child, or `None` when the walk is over.
    pub fn next(&mut self) -> (r: Option<NodeIndex>)
        requires
            old(self).wf(),
        ensures
            final(self).wf(),
            final(self).tree() == old(self).tree(),
            match r {
                Some(node) => {
                    &&& old(self).remaining().len() > 0
                    &&& node == old(self).remaining()[0]
                    &&& final(self).remaining() == old(self).remaining().drop_first()
                },
                None => old(self).remaining().len() == 0 && final(self).remaining().len() == 0,
            },
    {
        match self.cursor {
            None => None,
            Some(node) => {
                proof {
                    assert(self.tree.node_wf(node as int));
                }
                let ghost before = self.remaining();
                self.cursor = self.tree.nodes[node].next_node;
                proof {
                    assert(before.drop_first() =~= self.remaining());
                }
                Some(node)
            },
        }
    }

    /// Hands out all the children that are left, in order.
    pub fn collect(self) -> (r: Vec<NodeIndex>)
        requires
            self.wf(),
        ensures
            r@ == self.remaining(),
            forall|k: int| 0 <= k < r@.len() ==> r@[k] < self.tree().nodes@.len(),
    {
        let ghost whole = self.remaining();
        let mut walk = self;
        let mut out: Vec<NodeIndex> = Vec::new();
        loop
            invariant
                walk.wf(),
                walk.tree() == self.tree(),
                whole == self.remaining(),
                out@ + walk.remaining() == whole,
                forall|k: int| 0 <= k < out@.len() ==> out@[k] < self.tree().nodes@.len(),
            decreases walk.remaining().len(),
        {
            let ghost rest = walk.remaining();
            let ghost at = walk.cursor;
            match walk.next() {
                None => {
                    proof {
                        assert(out@ + rest =~= out@);
                    }
                    return out;
                },
                Some(node) => {
                    proof {
                        assert(at == Some(node));
                        assert(out@.push(node) + rest.drop_first() =~= out@ + rest);
                    }
                    out.push(node);
                },
            }
        }
    }
}

/// The chain of a node of a well-formed arena starts with that node, and
/// all its members are nodes of the arena.
pub proof fn lemma_chain_members(tree: ClockTree, start: NodeIndex)
    requires
        tree.arena_wf(),
        start < tree.nodes@.len(),
    ensures
        chain_from(tree.nodes@, start).len() >= 1,
        chain_from(tree.nodes@, start)[0] == start,
        forall|k: int|
            0 <= k < chain_from(tree.nodes@, start).len() ==> start <= #[trigger] chain_from(
                tree.nodes@,
                start,
            )[k] < tree.nodes@.len(),
    decreases tree.nodes@.len() - start,
{
    assert(tree.node_wf(start as int));
    match tree.nodes@[start as int].next_node {
        Some(next) => {
            lemma_chain_members(tree, next);
        },
        None => {},
    }
}

impl ClockTree {
    /// An empty clock tree with the given name.
    pub fn new(name: &str) -> (tree: ClockTree)
        ensures
            tree.wf(),
            tree.is_blank(),
            tree.name@ == name@,
    {
        let mut tree = ClockTree::default();
        tree.name = name.to_owned();
        tree
    }

    /// The walk along the children of the merge unit `idx`.
    pub fn get_merge_unit_load_nodes(&self, idx: MergeUnitIndex) -> (walk: NodeSuccessor<'_>)
        requires
            self.arena_wf(),
            idx < self.merges@.len(),
        ensures
            walk.wf(),
            walk.tree() == *self,
            walk.remaining() == self.children_of(idx as int),
    {
        NodeSuccessor { tree: self, cursor: Some(self.merges[idx].first_node) }
    }

    /// The walk along the nodes that the buffer `idx` drives: the children
    /// of its load.
    pub fn get_buffer_load_nodes(&self, idx: BufferIndex) -> (walk: NodeSuccessor<'_>)
        requires
            self.arena_wf(),
            idx < self.buffers@.len(),
        ensures
            walk.wf(),
            walk.tree() == *self,
            walk.remaining() == self.children_of(self.buffers@[idx as int].load as int),
    {
        let merge_unit_load = self.buffers[idx].load;
        self.get_merge_unit_load_nodes(merge_unit_load)
    }

    /// The name of the buffer of model `model` at the node `node`: the model's
    /// name, an underscore and the node's index.
    pub open spec fn buffer_name_of(model: Seq<char>, node: NodeIndex) -> Seq<char> {
        model + seq!['_'] + decimal(node as nat)
    }

    /// Turns the node `node_idx` into a buffer of the model `buffer_model`
    /// that drives the merge unit which owned the node.
    ///
    /// The buffer is appended, so `buffer_idx` has to be the number of
    /// buffers so far. Where it is not, or where the node is not owned by a
    /// merge unit, nothing changes and the answer is `None`.
    pub fn insert_buffer(
        &mut self,
        buffer_model: &str,
        buffer_idx: BufferIndex,
        node_idx: NodeIndex,
    ) -> (r: Option<()>)
        requires
            old(self).arena_wf(),
            node_idx < old(self).nodes@.len(),
        ensures
            final(self).arena_wf(),
            r is Some <==> (old(self).nodes@[node_idx as int].node_owner is MergeUnit
                && buffer_idx == old(self).buffers@.len()),
            r is None ==> *final(self) == *old(self),
            r is Some ==> {
                let unit = old(self).nodes@[node_idx as int].node_owner->MergeUnit_0;
                &&& final(self).nodes@ == old(self).nodes@.update(
                    node_idx as int,
                    Node {
                        node_owner: NodeOwner::Buffer(buffer_idx),
                        next_node: old(self).nodes@[node_idx as int].next_node,
                    },
                )
                &&& final(self).buffers@.len() == buffer_idx + 1
                &&& final(self).buffers@.drop_last() == old(self).buffers@
                &&& final(self).buffers@.last().buffer_name@ == Self::buffer_name_of(
                    buffer_model@,
                    node_idx,
                )
                &&& final(self).buffers@.last().model_name@ == buffer_model@
                &&& final(self).buffers@.last().location == old(self).merges@[unit as int].location
                &&& final(self).buffers@.last().load == unit
                &&& *final(self) == (ClockTree {
                    nodes: final(self).nodes,
                    buffers: final(self).buffers,
                    ..*old(self)
                })
            },
    {
        let node = self.nodes[node_idx];
        proof {
            assert(self.node_wf(node_idx as int));
        }
        match node.node_owner {
            NodeOwner::MergeUnit(d) => {
                if buffer_idx != self.buffers.len() {
                    return None;
                }
                let mut buffer_name = String::new();
                buffer_name.append(buffer_model);
                buffer_name.append("_");
                let digits = decimal_string(node_idx);
                buffer_name.append(digits.as_str());
                proof {
                    reveal_strlit("_");
                    assert("_"@ =~= seq!['_']);
                }
                let new_buffer = Buffer {
                    buffer_name,
                    model_name: buffer_model.to_owned(),
                    location: self.merges[d].location,
                    load: d,
                };
                self.buffers.push(new_buffer);
                self.nodes.set(
                    node_idx,
                    Node { node_owner: NodeOwner::Buffer(buffer_idx), next_node: node.next_node },
                );
                proof {
                    assert(self.buffers@.drop_last() =~= old(self).buffers@);
                    assert forall|i: int| 0 <= i < self.nodes@.len() implies #[trigger] self.node_wf(
                        i,
                    ) by {
                        assert(old(self).node_wf(i));
                    }
                    assert forall|b: int| 0 <= b < self.buffers@.len() implies (#[trigger] self.buffers@[b]).load
                        < self.merges@.len() by {
                        if b < buffer_idx {
                            assert(self.buffers@[b] == old(self).buffers@[b]);
                        }
                    }
                }
                Some(())
            },
            _ => None,
        }
    }
}

impl Default for ClockTree {
    fn default() -> (tree: ClockTree)
        ensures
            tree.wf(),
            tree.is_blank(),
            tree.name@ == Seq::<char>::empty(),
    {
        ClockTree {
            name: String::new(),
            x_range: (0, 0),
            y_range: (0, 0),
            nodes: Vec::new(),
            tree_level: 0,
            root_node_index: 0,
            sinks: Vec::new(),
            buffers: Vec::new(),
            merges: Vec::new(),
            length_map: HashMap::new(),
            fanout_map: HashMap::new(),
            stage: Stage::Empty,
        }
    }
}

/// The nodes `first .. first + count` are a chain of siblings: each links to
/// the next, and the last links to none.
pub open spec fn is_run(nodes: Seq<Node>, first: int, count: int) -> bool {
    &&& 0 <= first
    &&& 1 <= count
    &&& first + count <= nodes.len()
    &&& forall|t: int|
        0 <= t < count - 1 ==> (#[trigger] nodes[first + t]).next_node == Some(
            (first + t + 1) as usize,
        )
    &&& nodes[first + count - 1].next_node is None
}

/// The nodes `nodes`, with each of `first .. first + count - 1` linked to the
/// node behind it.
pub open spec fn linked_run(nodes: Seq<Node>, first: int, count: int) -> Seq<Node> {
    Seq::new(
        nodes.len(),
        |x: int|
            if first <= x < first + count - 1 {
                Node { node_owner: nodes[x].node_owner, next_node: Some((x + 1) as usize) }
            } else {
                nodes[x]
            },
    )
}

/// The consecutive indices `first .. first + count`.
pub open spec fn index_run(first: int, count: int) -> Seq<NodeIndex> {
    Seq::new(count as nat, |t: int| (first + t) as usize)
}

/// A chain of siblings that lies at consecutive indices is walked in the
/// order of the indices.
pub proof fn lemma_run_chain(nodes: Seq<Node>, first: int, count: int)
    requires
        is_run(nodes, first, count),
        nodes.len() <= usize::MAX,
    ensures
        chain_from(nodes, first as usize) == index_run(first, count),
    decreases count,
{
    if count == 1 {
        assert(nodes[first + 0].next_node is None);
        assert(chain_from(nodes, first as usize) =~= index_run(first, count));
    } else {
        assert(nodes[first + 0].next_node == Some((first + 1) as usize));
        assert(is_run(nodes, first + 1, count - 1)) by {
            assert forall|t: int| 0 <= t < count - 2 implies (#[trigger] nodes[first + 1 + t]).next_node
                == Some((first + 1 + t + 1) as usize) by {
                assert(nodes[first + (t + 1)].next_node == Some((first + (t + 1) + 1) as usize));
            }
        }
        lemma_run_chain(nodes, first + 1, count - 1);
        assert(seq![first as usize] + index_run(first + 1, count - 1) =~= index_run(first, count));
    }
}

impl ClockTree {
    /// The location of the entity that owns the node `x`.
    pub open spec fn node_location(self, x: int) -> Location {
        match self.nodes@[x].node_owner {
            NodeOwner::Buffer(b) => self.buffers@[b as int].location,
            NodeOwner::MergeUnit(m) => self.merges@[m as int].location,
            NodeOwner::Sink(s) => self.sinks@[s as int].location,
        }
    }

    /// The locations of the owners of the nodes `first .. first + count`.
    pub open spec fn run_locations(self, first: int, count: int) -> Seq<Location> {
        Seq::new(count as nat, |t: int| self.node_location(first + t))
    }

    /// Reads the location of the entity that owns the node `node`.
    pub fn location_of_node(&self, node: NodeIndex) -> (p: Location)
        requires
            self.arena_wf(),
            node < self.nodes@.len(),
        ensures
            p == self.node_location(node as int),
    {
        proof {
            assert(self.node_wf(node as int));
        }
        match self.nodes[node].node_owner {
            NodeOwner::Buffer(b) => self.buffers[b].location,
            NodeOwner::MergeUnit(m) => self.merges[m].location,
            NodeOwner::Sink(s) => self.sinks[s].location,
        }
    }

    /// Merges the `count` nodes from `first` on: links them into a chain of
    /// siblings, and appends a merge unit with the geometry of their
    /// locations and the node that it owns. Returns the indices of that node
    /// and of the unit.
    pub fn merge_siblings(&mut self, first: NodeIndex, count: usize) -> (r: (
        NodeIndex,
        MergeUnitIndex,
    ))
        requires
            old(self).arena_wf(),
            count >= 1,
            first + count <= old(self).nodes@.len(),
            forall|x: int| first <= x < first + count ==> (#[trigger] old(self).nodes@[x]).next_node is None,
        ensures
            final(self).arena_wf(),
            r.0 == old(self).nodes@.len(),
            r.1 == old(self).merges@.len(),
            final(self).nodes@ == linked_run(old(self).nodes@, first as int, count as int).push(
                Node { node_owner: NodeOwner::MergeUnit(r.1), next_node: None },
            ),
            is_run(final(self).nodes@, first as int, count as int),
            final(self).merges@.len() == old(self).merges@.len() + 1,
            final(self).merges@.drop_last() == old(self).merges@,
            final(self).merges@.last().first_node == first,
            final(self).merges@.last().has_geometry_of(
                old(self).run_locations(first as int, count as int),
            ),
            final(self).merges@.last().path@ == Seq::<Path>::empty(),
            *final(self) == (ClockTree {
                nodes: final(self).nodes,
                merges: final(self).merges,
                ..*old(self)
            }),
    {
        let mut locations: Vec<Location> = Vec::new();
        let total = self.nodes.len();
        let mut t: usize = 0;
        while t < count
            invariant
                t <= count,
                first + count <= total,
                total == old(self).nodes@.len(),
                self.arena_wf(),
                self.nodes@.len() == old(self).nodes@.len(),
                self.nodes@ == linked_run(old(self).nodes@, first as int, t as int),
                *self == (ClockTree { nodes: self.nodes, ..*old(self) }),
                locations@ == old(self).run_locations(first as int, t as int),
                forall|x: int|
                    first <= x < first + count ==> (#[trigger] old(self).nodes@[x]).next_node is None,
            decreases count - t,
        {
            let p = self.location_of_node(first + t);
            locations.push(p);
            if t > 0 {
                let ghost before = self.nodes@;
                self.link_sibling(first + t - 1, first + t);
                proof {
                    assert(self.nodes@ =~= linked_run(old(self).nodes@, first as int, t + 1));
                }
            } else {
                proof {
                    assert(self.nodes@ =~= linked_run(old(self).nodes@, first as int, t + 1));
                }
            }
            proof {
                assert(self.node_location(first + t) == old(self).node_location(first + t));
                assert(locations@ =~= old(self).run_locations(first as int, t + 1));
            }
            t = t + 1;
        }
        let r = self.push_merge_node(first, locations.as_slice());
        r
    }
}

/// The locations of a list of named sinks, in order.
pub open spec fn named_locations(sinks: Seq<(String, Location)>) -> Seq<Location> {
    Seq::new(sinks.len(), |i: int| sinks[i].1)
}

impl ClockTree {
    /// Loads the sinks into an empty clock tree and sets the bounding box:
    /// the least and the greatest coordinate along each axis.
    ///
    /// The tree moves on to [`Stage::SinksLoaded`], unless there is no sink.
    pub fn load_sinks(&mut self, sinks: &Vec<(String, (i32, i32))>)
        requires
            old(self).wf(),
            old(self).stage == Stage::Empty,
        ensures
            final(self).wf(),
            final(self).sinks@.len() == sinks@.len(),
            forall|i: int|
                0 <= i < sinks@.len() ==> (#[trigger] final(self).sinks@[i]).name == sinks@[i].0
                    && final(self).sinks@[i].location == sinks@[i].1,
            final(self).sink_locations() == named_locations(sinks@),
            final(self).x_range == extent_of(named_locations(sinks@)).x_range,
            final(self).y_range == extent_of(named_locations(sinks@)).y_range,
            final(self).stage == if sinks@.len() == 0 {
                Stage::Empty
            } else {
                Stage::SinksLoaded
            },
            *final(self) == (ClockTree {
                sinks: final(self).sinks,
                x_range: final(self).x_range,
                y_range: final(self).y_range,
                stage: final(self).stage,
                ..*old(self)
            }),
    {
        let mut locations: Vec<Location> = Vec::new();
        let mut i: usize = 0;
        while i < sinks.len()
            invariant
                i <= sinks@.len(),
                self.sinks@.len() == i,
                locations@ == named_locations(sinks@).take(i as int),
                forall|k: int|
                    0 <= k < i ==> (#[trigger] self.sinks@[k]).name == sinks@[k].0
                        && self.sinks@[k].location == sinks@[k].1,
                *self == (ClockTree { sinks: self.sinks, ..*old(self) }),
            decreases sinks@.len() - i,
        {
            let ghost before = self.sinks@;
            let name = sinks[i].0.clone();
            let location = sinks[i].1;
            self.sinks.push(Sink { name, location });
            locations.push(location);
            proof {
                assert(locations@ =~= named_locations(sinks@).take(i + 1));
                assert forall|k: int| 0 <= k < i + 1 implies (#[trigger] self.sinks@[k]).name
                    == sinks@[k].0 && self.sinks@[k].location == sinks@[k].1 by {
                    if k < i {
                        assert(self.sinks@[k] == before[k]);
                    }
                }
            }
            i = i + 1;
        }
        proof {
            assert(named_locations(sinks@).take(sinks@.len() as int) =~= named_locations(sinks@));
            assert(self.sink_locations() =~= named_locations(sinks@));
        }
        let e = analyze(locations.as_slice());
        self.x_range = e.x_range;
        self.y_range = e.y_range;
        if sinks.len() > 0 {
            proof {
                crate::geometry::lemma_extent_nonnegative(named_locations(sinks@));
            }
            self.stage = Stage::SinksLoaded;
        }
        proof {
            assert forall|x: int| 0 <= x < self.nodes@.len() implies #[trigger] self.node_wf(x) by {}
        }
    }

    /// Decides whether the arena is well formed.
    pub fn is_well_formed(&self) -> (r: bool)
        ensures
            r == self.wf(),
    {
        let mut i: usize = 0;
        while i < self.nodes.len()
            invariant
                i <= self.nodes@.len(),
                forall|x: int| 0 <= x < i ==> #[trigger] self.node_wf(x),
            decreases self.nodes@.len() - i,
        {
            let node = self.nodes[i];
            let owner_ok = match node.node_owner {
                NodeOwner::Buffer(b) => b < self.buffers.len(),
                NodeOwner::MergeUnit(m) => m < self.merges.len(),
                NodeOwner::Sink(s) => s < self.sinks.len(),
            };
            let link_ok = match node.next_node {
                Some(next) => i < next && next < self.nodes.len(),
                None => true,
            };
            if !owner_ok || !link_ok {
                proof {
                    assert(!self.node_wf(i as int));
                }
                return false;
            }
            i = i + 1;
        }
        let mut m: usize = 0;
        while m < self.merges.len()
            invariant
                m <= self.merges@.len(),
                forall|x: int|
                    0 <= x < m ==> (#[trigger] self.merges@[x]).first_node < self.nodes@.len(),
            decreases self.merges@.len() - m,
        {
            if self.merges[m].first_node >= self.nodes.len() {
                return false;
            }
            m = m + 1;
        }
        let mut b: usize = 0;
        while b < self.buffers.len()
            invariant
                b <= self.buffers@.len(),
                forall|x: int| 0 <= x < b ==> (#[trigger] self.buffers@[x]).load < self.merges@.len(),
            decreases self.buffers@.len() - b,
        {
            if self.buffers[b].load >= self.merges.len() {
                return false;
            }
            b = b + 1;
        }
        let unloaded = match self.stage {
            Stage::Empty => self.sinks.len() == 0,
            _ => true,
        };
        let unbuilt = match self.stage {
            Stage::Empty | Stage::SinksLoaded => self.nodes.len() == 0 && self.merges.len() == 0
                && self.buffers.len() == 0,
            _ => true,
        };
        let loaded = match self.stage {
            Stage::SinksLoaded => self.sinks.len() > 0 && self.x_range.0 <= self.x_range.1
                && self.y_range.0 <= self.y_range.1,
            _ => true,
        };
        let rooted = match self.stage {
            Stage::TopologyBuilt | Stage::Buffered => self.root_node_index < self.nodes.len(),
            _ => true,
        };
        unloaded && unbuilt && loaded && rooted
    }
}

} // verus!
