//! Merge geometry: where a group of children is joined, and how far away.
//!
//! A group is horizontal where it is wider than it is tall, and vertical
//! otherwise. Its junction is the midpoint of its two extreme children along
//! that axis, and its common length is the Manhattan distance from the first
//! of the two to the junction.
use crate::route::{manhattan, manhattan_of, Location};
use vstd::prelude::*;

verus! {

/// Division that rounds toward zero.
pub open spec fn trunc_div(a: int, b: int) -> int {
    if a >= 0 {
        a / b
    } else {
        -((-a) / b)
    }
}

/// The midpoint of two points, each coordinate rounded toward zero.
pub open spec fn midpoint(p: Location, q: Location) -> Location {
    (trunc_div(p.0 + q.0, 2) as i32, trunc_div(p.1 + q.1, 2) as i32)
}

/// One of the four sides on which a group has an extreme child.
#[derive(Clone, Copy, Debug, PartialEq, Eq, Structural)]
pub enum Side {
    Left,
    Right,
    Bottom,
    Top,
}

/// The quantity that the extreme child of a side minimises: its x or y
/// coordinate, negated for the right and the top side.
pub open spec fn side_key(p: Location, side: Side) -> int {
    match side {
        Side::Left => p.0 as int,
        Side::Right => -(p.0 as int),
        Side::Bottom => p.1 as int,
        Side::Top => -(p.1 as int),
    }
}

/// The index of the extreme point of `side` among the first `n` points: the
/// first one that no other point lies beyond.
pub open spec fn extreme_index(points: Seq<Location>, side: Side, n: int) -> int
    decreases n,
{
    if n <= 1 {
        0
    } else {
        let k = extreme_index(points, side, n - 1);
        if side_key(points[n - 1], side) < side_key(points[k], side) {
            n - 1
        } else {
            k
        }
    }
}

/// The extreme point of `side`: the leftmost, rightmost, lowest or highest
/// point, and among several the first.
pub open spec fn extreme(points: Seq<Location>, side: Side) -> Location {
    points[extreme_index(points, side, points.len() as int)]
}

/// What the analysis of a group of children yields.
#[derive(Clone, Copy, Debug, PartialEq, Eq)]
pub struct Extent {
    /// The least and the greatest x-coordinate.
    pub x_range: (i32, i32),
    /// The least and the greatest y-coordinate.
    pub y_range: (i32, i32),
    /// Whether the group is wider than it is tall.
    pub if_horizontal: bool,
    /// The junction.
    pub location: Location,
    /// The Manhattan distance from the first extreme child to the junction.
    pub common_length: u64,
}

/// The width of the group: the difference of its extreme x-coordinates.
pub open spec fn width(points: Seq<Location>) -> int {
    extreme(points, Side::Right).0 - extreme(points, Side::Left).0
}

/// The height of the group: the difference of its extreme y-coordinates.
pub open spec fn height(points: Seq<Location>) -> int {
    extreme(points, Side::Top).1 - extreme(points, Side::Bottom).1
}

/// Whether the group is horizontal: strictly wider than tall.
pub open spec fn is_horizontal(points: Seq<Location>) -> bool {
    points.len() > 0 && width(points) > height(points)
}

/// The first of the two extreme children along the dominant axis: the
/// leftmost child of a horizontal group, the lowest of a vertical one.
pub open spec fn near_end(points: Seq<Location>) -> Location {
    if is_horizontal(points) {
        extreme(points, Side::Left)
    } else {
        extreme(points, Side::Bottom)
    }
}

/// The second of the two extreme children along the dominant axis.
pub open spec fn far_end(points: Seq<Location>) -> Location {
    if is_horizontal(points) {
        extreme(points, Side::Right)
    } else {
        extreme(points, Side::Top)
    }
}

/// The junction of the group: the midpoint of its two extreme children along
/// the dominant axis. A group without children has it at the origin.
pub open spec fn junction(points: Seq<Location>) -> Location {
    if points.len() == 0 {
        (0i32, 0i32)
    } else {
        midpoint(near_end(points), far_end(points))
    }
}

/// The common length of the group: the Manhattan distance from the first
/// extreme child to the junction.
pub open spec fn common_length_of(points: Seq<Location>) -> int {
    if points.len() == 0 {
        0
    } else {
        manhattan(near_end(points), junction(points))
    }
}

/// The analysis of a group of children.
pub open spec fn extent_of(points: Seq<Location>) -> Extent {
    if points.len() == 0 {
        Extent {
            x_range: (i32::MAX, i32::MIN),
            y_range: (i32::MAX, i32::MIN),
            if_horizontal: false,
            location: (0i32, 0i32),
            common_length: 0,
        }
    } else {
        Extent {
            x_range: (extreme(points, Side::Left).0, extreme(points, Side::Right).0),
            y_range: (extreme(points, Side::Bottom).1, extreme(points, Side::Top).1),
            if_horizontal: is_horizontal(points),
            location: junction(points),
            common_length: common_length_of(points) as u64,
        }
    }
}

/// The extreme point of a side is one of the points, no point lies beyond it,
/// and every point in front of it lies short of it.
pub proof fn lemma_extreme_index(points: Seq<Location>, side: Side, n: int)
    requires
        1 <= n <= points.len(),
    ensures
        0 <= extreme_index(points, side, n) < n,
        forall|j: int|
            0 <= j < n ==> side_key(points[extreme_index(points, side, n)], side) <= side_key(
                #[trigger] points[j],
                side,
            ),
        forall|j: int|
            0 <= j < extreme_index(points, side, n) ==> side_key(
                points[extreme_index(points, side, n)],
                side,
            ) < side_key(#[trigger] points[j], side),
    decreases n,
{
    if n > 1 {
        lemma_extreme_index(points, side, n - 1);
    }
}

/// A group is never narrower or lower than nothing, and its common length is
/// never negative.
pub proof fn lemma_extent_nonnegative(points: Seq<Location>)
    requires
        points.len() > 0,
    ensures
        width(points) >= 0,
        height(points) >= 0,
        0 <= common_length_of(points) <= 0x1_0000_0000,
        is_horizontal(points) <==> width(points) - height(points) > 0,
{
    let n = points.len() as int;
    lemma_extreme_index(points, Side::Left, n);
    lemma_extreme_index(points, Side::Right, n);
    lemma_extreme_index(points, Side::Bottom, n);
    lemma_extreme_index(points, Side::Top, n);
    let l = extreme_index(points, Side::Left, n);
    let r = extreme_index(points, Side::Right, n);
    let b = extreme_index(points, Side::Bottom, n);
    let t = extreme_index(points, Side::Top, n);
    assert(side_key(points[l], Side::Left) <= side_key(points[r], Side::Left));
    assert(side_key(points[b], Side::Bottom) <= side_key(points[t], Side::Bottom));
}

/// Finds the extreme point of one side.
fn find_extreme(points: &[(i32, i32)], side: Side) -> (p: (i32, i32))
    requires
        points@.len() > 0,
    ensures
        p == extreme(points@, side),
{
    let mut best = points[0];
    let mut i: usize = 1;
    while i < points.len()
        invariant
            1 <= i <= points@.len(),
            best == points@[extreme_index(points@, side, i as int)],
        decreases points@.len() - i,
    {
        let d = points[i];
        let beyond = match side {
            Side::Left => d.0 < best.0,
            Side::Right => d.0 > best.0,
            Side::Bottom => d.1 < best.1,
            Side::Top => d.1 > best.1,
        };
        if beyond {
            best = d;
        }
        i = i + 1;
    }
    best
}

/// Computes the midpoint of two points.
pub fn midpoint_of(p: (i32, i32), q: (i32, i32)) -> (m: (i32, i32))
    ensures
        m == midpoint(p, q),
{
    let x: i64 = (p.0 as i64 + q.0 as i64) / 2;
    let y: i64 = (p.1 as i64 + q.1 as i64) / 2;
    (x as i32, y as i32)
}

/// Analyses a group of children: its ranges, its orientation, its junction
/// and its common length.
pub fn analyze(points: &[(i32, i32)]) -> (e: Extent)
    ensures
        e == extent_of(points@),
        e.common_length == common_length_of(points@),
{
    if points.len() == 0 {
        return Extent {
            x_range: (i32::MAX, i32::MIN),
            y_range: (i32::MAX, i32::MIN),
            if_horizontal: false,
            location: (0, 0),
            common_length: 0,
        };
    }
    let lm = find_extreme(points, Side::Left);
    let rm = find_extreme(points, Side::Right);
    let bm = find_extreme(points, Side::Bottom);
    let tm = find_extreme(points, Side::Top);
    proof {
        lemma_extent_nonnegative(points@);
    }
    let wide: i64 = rm.0 as i64 - lm.0 as i64;
    let tall: i64 = tm.1 as i64 - bm.1 as i64;
    if wide > tall {
        let location = midpoint_of(lm, rm);
        Extent {
            x_range: (lm.0, rm.0),
            y_range: (bm.1, tm.1),
            if_horizontal: true,
            location,
            common_length: manhattan_of(lm, location),
        }
    } else {
        let location = midpoint_of(bm, tm);
        Extent {
            x_range: (lm.0, rm.0),
            y_range: (bm.1, tm.1),
            if_horizontal: false,
            location,
            common_length: manhattan_of(bm, location),
        }
    }
}

} // verus!
