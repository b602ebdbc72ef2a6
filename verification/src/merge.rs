//! A merge of any number of points in Manhattan geometry.
//!
//! The unit collects the points to merge, finds the root that joins them, and
//! lays a path from every point: the two points at the ends of the dominant
//! axis run to the root through one corner, and every other point drops
//! straight onto the backbone, the line through the root along that axis.
use crate::geometry::{analyze, extent_of};
use crate::route::{manhattan, sum_lengths, total_length, Location, Path};
use vstd::prelude::*;

verus! {

/// A merge unit that keeps the points that it merges.
#[derive(Debug, PartialEq, Eq)]
pub struct MergeUnit {
    /// The points that the unit merges.
    pub sink: Vec<(i32, i32)>,
    /// The root, where the points are joined.
    pub root: (i32, i32),
    /// The least and the greatest x-coordinate of the points loaded last.
    pub x_range: (i32, i32),
    /// The least and the greatest y-coordinate of the points loaded last.
    pub y_range: (i32, i32),
    /// The common length of the points loaded last.
    pub common_length: u64,
    /// The routing segments.
    pub path: Vec<Path>,
    /// Whether the points loaded last are wider than tall.
    pub if_horizontal: bool,
    /// The level of the unit. The unit at level 1 is the root of the tree.
    pub level: u8,
}

/// The path from the point `p` of a group with the given orientation, ranges
/// and root.
///
/// In a horizontal group, a point at the least or the greatest x runs
/// vertically to the backbone and along it to the root; any other point runs
/// vertically to the backbone and ends there, at its tap point. A vertical
/// group has x and y exchanged.
pub open spec fn tap_path(
    p: Location,
    horizontal: bool,
    x_range: (i32, i32),
    y_range: (i32, i32),
    root: Location,
) -> Path {
    if horizontal {
        if p.0 == x_range.0 || p.0 == x_range.1 {
            Path { from: p, turn: Some((p.0, root.1)), to: root }
        } else {
            Path { from: p, turn: None, to: (p.0, root.1) }
        }
    } else {
        if p.1 == y_range.0 || p.1 == y_range.1 {
            Path { from: p, turn: Some((root.0, p.1)), to: root }
        } else {
            Path { from: p, turn: None, to: (root.0, p.1) }
        }
    }
}

/// Where the root moves when it is adjusted by `margin`, before the range of
/// the coordinates is considered.
///
/// The root of a horizontal group moves up by `margin`; where it does not
/// lie nearer to the top of the group than to the bottom, its x-coordinate
/// becomes its old y-coordinate as well. The root of a vertical group moves
/// left by `margin` where it lies nearer to the right end, and right
/// otherwise.
pub open spec fn adjusted_root(
    root: Location,
    horizontal: bool,
    x_range: (i32, i32),
    y_range: (i32, i32),
    margin: u32,
) -> (int, int) {
    if horizontal {
        if root.1 - y_range.0 > y_range.1 - root.1 {
            (root.0 as int, root.1 + margin)
        } else {
            (root.1 as int, root.1 + margin)
        }
    } else {
        if root.0 - x_range.0 > x_range.1 - root.0 {
            (root.0 - margin, root.1 as int)
        } else {
            (root.0 + margin, root.1 as int)
        }
    }
}

/// Both coordinates fit in `i32`.
pub open spec fn fits(p: (int, int)) -> bool {
    i32::MIN <= p.0 <= i32::MAX && i32::MIN <= p.1 <= i32::MAX
}

/// A path from a point, and the backbone from where the path ends to the
/// root, are together as long as the Manhattan distance from the point to
/// the root: a point that lies farther from the root is never reached by a
/// shorter wire.
pub proof fn lemma_tap_path_length(
    p: Location,
    horizontal: bool,
    x_range: (i32, i32),
    y_range: (i32, i32),
    root: Location,
)
    ensures
        tap_path(p, horizontal, x_range, y_range, root).spec_length() + manhattan(
            tap_path(p, horizontal, x_range, y_range, root).to,
            root,
        ) == manhattan(p, root),
{
}

/// Two points of a group whose paths meet the backbone at the same tap point
/// lie on one line across the backbone.
pub proof fn lemma_shared_tap(
    p: Location,
    q: Location,
    horizontal: bool,
    x_range: (i32, i32),
    y_range: (i32, i32),
    root: Location,
)
    requires
        tap_path(p, horizontal, x_range, y_range, root).turn is None,
        tap_path(q, horizontal, x_range, y_range, root).turn is None,
        tap_path(p, horizontal, x_range, y_range, root).to == tap_path(
            q,
            horizontal,
            x_range,
            y_range,
            root,
        ).to,
    ensures
        horizontal ==> p.0 == q.0,
        !horizontal ==> p.1 == q.1,
{
}

impl MergeUnit {
    /// A unit without points, at the origin.
    pub fn new() -> (unit: Self)
        ensures
            unit.sink@ == Seq::<Location>::empty(),
            unit.path@ == Seq::<Path>::empty(),
            unit.root == (0i32, 0i32),
            unit.x_range == (0i32, 0i32),
            unit.y_range == (0i32, 0i32),
            unit.common_length == 0,
            !unit.if_horizontal,
            unit.level == 0,
    {
        MergeUnit {
            sink: Vec::new(),
            root: (0, 0),
            x_range: (0, 0),
            y_range: (0, 0),
            common_length: 0,
            path: Vec::new(),
            if_horizontal: false,
            level: 0,
        }
    }

    /// Whether the unit is the root of the tree.
    pub fn is_root(&self) -> (r: bool)
        ensures
            r == (self.level == 1),
    {
        self.level == 1
    }

    /// The wire length of the routing segments.
    pub fn length(&self) -> (r: u128)
        ensures
            r == total_length(self.path@, self.path@.len() as int),
    {
        sum_lengths(&self.path)
    }

    /// Sets the level.
    pub fn set_level(&mut self, level: u8)
        ensures
            *final(self) == (MergeUnit { level, ..*old(self) }),
    {
        self.level = level;
    }

    /// The common length of the points loaded last.
    pub fn common_length(&self) -> (r: u64)
        ensures
            r == self.common_length,
    {
        self.common_length
    }

    /// Adds the points `sink` to the unit and analyses them: the ranges, the
    /// orientation, the root and the common length are those of `sink`.
    pub fn load_sink(&mut self, sink: &[(i32, i32)])
        ensures
            final(self).sink@ == old(self).sink@ + sink@,
            final(self).x_range == extent_of(sink@).x_range,
            final(self).y_range == extent_of(sink@).y_range,
            final(self).if_horizontal == extent_of(sink@).if_horizontal,
            final(self).root == extent_of(sink@).location,
            final(self).common_length == extent_of(sink@).common_length,
            final(self).path == old(self).path,
            final(self).level == old(self).level,
    {
        let mut i: usize = 0;
        let ghost before = self.sink@;
        proof {
            assert(before + sink@.take(0) =~= before);
        }
        while i < sink.len()
            invariant
                i <= sink@.len(),
                before == old(self).sink@,
                self.sink@ == before + sink@.take(i as int),
                *self == (MergeUnit { sink: self.sink, ..*old(self) }),
            decreases sink@.len() - i,
        {
            self.sink.push(sink[i]);
            proof {
                assert(self.sink@ =~= before + sink@.take(i + 1));
            }
            i = i + 1;
        }
        proof {
            assert(sink@.take(sink@.len() as int) =~= sink@);
        }
        let e = analyze(sink);
        self.x_range = e.x_range;
        self.y_range = e.y_range;
        self.if_horizontal = e.if_horizontal;
        self.root = e.location;
        self.common_length = e.common_length;
    }

    /// The paths of the points `points`, in order.
    pub open spec fn paths_of(self, points: Seq<Location>) -> Seq<Path> {
        Seq::new(
            points.len(),
            |i: int| tap_path(points[i], self.if_horizontal, self.x_range, self.y_range, self.root),
        )
    }

    /// Lays a path from every point of the unit and appends it to the
    /// routing segments.
    pub fn merge(&mut self)
        ensures
            final(self).path@ == old(self).path@ + old(self).paths_of(old(self).sink@),
            *final(self) == (MergeUnit { path: final(self).path, ..*old(self) }),
    {
        let ghost before = self.path@;
        let ghost whole = self.paths_of(self.sink@);
        let mut i: usize = 0;
        proof {
            assert(before + whole.take(0) =~= before);
        }
        while i < self.sink.len()
            invariant
                i <= self.sink@.len(),
                before == old(self).path@,
                whole == old(self).paths_of(old(self).sink@),
                self.path@ == before + whole.take(i as int),
                *self == (MergeUnit { path: self.path, ..*old(self) }),
            decreases self.sink@.len() - i,
        {
            let x = self.sink[i];
            let path = if self.if_horizontal {
                if x.0 == self.x_range.0 || x.0 == self.x_range.1 {
                    Path { from: x, turn: Some((x.0, self.root.1)), to: self.root }
                } else {
                    Path { from: x, turn: None, to: (x.0, self.root.1) }
                }
            } else {
                if x.1 == self.y_range.0 || x.1 == self.y_range.1 {
                    Path { from: x, turn: Some((self.root.0, x.1)), to: self.root }
                } else {
                    Path { from: x, turn: None, to: (self.root.0, x.1) }
                }
            };
            self.path.push(path);
            proof {
                assert(whole[i as int] == path);
                assert(self.path@ =~= before + whole.take(i + 1));
            }
            i = i + 1;
        }
        proof {
            assert(whole.take(whole.len() as int) =~= whole);
        }
    }

    /// Moves the root by `margin` across the dominant axis, and appends the
    /// straight path from the old root to the new one.
    ///
    /// Where the new root would leave the range of the coordinates, nothing
    /// changes and the answer is `false`.
    pub fn adjust_root(&mut self, margin: u32) -> (moved: bool)
        ensures
            moved == fits(
                adjusted_root(
                    old(self).root,
                    old(self).if_horizontal,
                    old(self).x_range,
                    old(self).y_range,
                    margin,
                ),
            ),
            !moved ==> *final(self) == *old(self),
            moved ==> {
                let target = adjusted_root(
                    old(self).root,
                    old(self).if_horizontal,
                    old(self).x_range,
                    old(self).y_range,
                    margin,
                );
                &&& final(self).root.0 == target.0
                &&& final(self).root.1 == target.1
                &&& final(self).path@ == old(self).path@.push(
                    Path { from: old(self).root, turn: None, to: final(self).root },
                )
                &&& *final(self) == (MergeUnit {
                    root: final(self).root,
                    path: final(self).path,
                    ..*old(self)
                })
            },
    {
        let step = margin as i64;
        let x = self.root.0 as i64;
        let y = self.root.1 as i64;
        let target: (i64, i64) = if self.if_horizontal {
            if y - self.y_range.0 as i64 > self.y_range.1 as i64 - y {
                (x, y + step)
            } else {
                (y, y + step)
            }
        } else {
            if x - self.x_range.0 as i64 > self.x_range.1 as i64 - x {
                (x - step, y)
            } else {
                (x + step, y)
            }
        };
        if target.0 < i32::MIN as i64 || target.0 > i32::MAX as i64 || target.1 < i32::MIN as i64
            || target.1 > i32::MAX as i64 {
            return false;
        }
        let new_root = (target.0 as i32, target.1 as i32);
        self.path.push(Path { from: self.root, turn: None, to: new_root });
        self.root = new_root;
        true
    }
}

} // verus!
