//! Routing segments in Manhattan geometry.
use vstd::prelude::*;

verus! {

/// A point of the layout, in database length units.
pub type Location = (i32, i32);

/// `|a - b|` for two coordinates.
pub open spec fn span(a: int, b: int) -> int {
    if a >= b { a - b } else { b - a }
}

/// The Manhattan distance `|dx| + |dy|` between two points.
pub open spec fn manhattan(p: Location, q: Location) -> int {
    span(p.0 as int, q.0 as int) + span(p.1 as int, q.1 as int)
}

/// Computes [`span`] without overflow.
pub fn span_of(a: i32, b: i32) -> (r: u64)
    ensures
        r == span(a as int, b as int),
        r <= 0xffff_ffff,
{
    if a >= b {
        (a as i64 - b as i64) as u64
    } else {
        (b as i64 - a as i64) as u64
    }
}

/// Computes [`manhattan`] without overflow.
pub fn manhattan_of(p: Location, q: Location) -> (r: u64)
    ensures
        r == manhattan(p, q),
        r <= 0x1_ffff_fffe,
{
    span_of(p.0, q.0) + span_of(p.1, q.1)
}

/// One wire of a merge: from `from` to `to`, straight or through one corner.
#[derive(Clone, Copy, Debug, PartialEq, Eq)]
pub struct Path {
    pub from: Location,
    pub turn: Option<Location>,
    pub to: Location,
}

impl Path {
    /// The wire length: the Manhattan length of each leg, added up.
    pub open spec fn spec_length(self) -> int {
        match self.turn {
            Some(t) => manhattan(self.from, t) + manhattan(t, self.to),
            None => manhattan(self.from, self.to),
        }
    }

    /// The wire length of this path.
    pub fn length(&self) -> (r: u64)
        ensures
            r == self.spec_length(),
            r <= 0x3_ffff_fffc,
    {
        match self.turn {
            Some(t) => manhattan_of(self.from, t) + manhattan_of(t, self.to),
            None => manhattan_of(self.from, self.to),
        }
    }
}

/// The lengths of the first `n` paths of `paths`, added up.
pub open spec fn total_length(paths: Seq<Path>, n: int) -> int
    decreases n,
{
    if n <= 0 {
        0
    } else {
        total_length(paths, n - 1) + paths[n - 1].spec_length()
    }
}

/// Adds up the lengths of all the paths.
pub fn sum_lengths(paths: &Vec<Path>) -> (r: u128)
    ensures
        r == total_length(paths@, paths@.len() as int),
{
    let mut acc: u128 = 0;
    let mut i: usize = 0;
    while i < paths.len()
        invariant
            i <= paths.len(),
            acc == total_length(paths@, i as int),
            acc <= i * 0x3_ffff_fffc,
        decreases paths.len() - i,
    {
        let l = paths[i].length();
        acc = acc + l as u128;
        i = i + 1;
    }
    acc
}

} // verus!
