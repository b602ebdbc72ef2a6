//! Spatial partitioning: the sinks, split into angularly ordered groups.
//!
//! Every sink has a phase around the centre of all sinks: the angle of its
//! offset from the centre, measured counter-clockwise. A group is split by
//! sorting its members by phase and cutting the sorted order into contiguous
//! runs, one run for each child. The centre is that of all sinks at every
//! depth; it is not taken anew for each group. The phase is never computed
//! as a number: two offsets are compared exactly, by the half plane they lie
//! in and the sign of their cross product.
use crate::error::PartitionError;
use crate::geometry::trunc_div;
use crate::route::Location;
use vstd::arithmetic::div_mod::*;
use vstd::prelude::*;

verus! {

/// The label of a group of sinks.
pub type GroupLabel = u32;

/// The sum of the first `n` x-coordinates.
pub open spec fn sum_x(coords: Seq<Location>, n: int) -> int
    decreases n,
{
    if n <= 0 {
        0
    } else {
        sum_x(coords, n - 1) + coords[n - 1].0
    }
}

/// The sum of the first `n` y-coordinates.
pub open spec fn sum_y(coords: Seq<Location>, n: int) -> int
    decreases n,
{
    if n <= 0 {
        0
    } else {
        sum_y(coords, n - 1) + coords[n - 1].1
    }
}

/// The centre of the points: the mean of each coordinate, rounded toward
/// zero. The centre of no points is the origin.
pub open spec fn center_of(coords: Seq<Location>) -> Location {
    if coords.len() == 0 {
        (0i32, 0i32)
    } else {
        (
            trunc_div(sum_x(coords, coords.len() as int), coords.len() as int) as i32,
            trunc_div(sum_y(coords, coords.len() as int), coords.len() as int) as i32,
        )
    }
}

/// The mean of `n` values of `i32` lies in the range of `i32`.
proof fn lemma_mean_in_range(sum: int, n: int)
    requires
        n > 0,
        -n * 0x8000_0000 <= sum <= n * 0x7fff_ffff,
    ensures
        -0x8000_0000 <= trunc_div(sum, n) <= 0x7fff_ffff,
{
    if sum >= 0 {
        lemma_div_is_ordered(sum, n * 0x7fff_ffff, n);
        lemma_div_multiples_vanish(0x7fff_ffff, n);
        lemma_div_is_ordered(0, sum, n);
        assert(0int / n == 0) by {
            lemma_div_multiples_vanish(0, n);
            assert(n * 0 == 0);
        }
    } else {
        lemma_div_is_ordered(-sum, n * 0x8000_0000, n);
        lemma_div_multiples_vanish(0x8000_0000, n);
        lemma_div_is_ordered(0, -sum, n);
        assert(0int / n == 0) by {
            lemma_div_multiples_vanish(0, n);
            assert(n * 0 == 0);
        }
    }
}

/// Computes the centre of the points.
pub fn get_center(coords: &[(i32, i32)]) -> (c: (i32, i32))
    ensures
        c == center_of(coords@),
{
    let n = coords.len();
    if n == 0 {
        return (0, 0);
    }
    let mut x: i128 = 0;
    let mut y: i128 = 0;
    let mut i: usize = 0;
    while i < n
        invariant
            i <= n,
            n == coords@.len(),
            x == sum_x(coords@, i as int),
            y == sum_y(coords@, i as int),
            -i * 0x8000_0000 <= x <= i * 0x7fff_ffff,
            -i * 0x8000_0000 <= y <= i * 0x7fff_ffff,
        decreases n - i,
    {
        let d = coords[i];
        x = x + d.0 as i128;
        y = y + d.1 as i128;
        i = i + 1;
    }
    proof {
        lemma_mean_in_range(x as int, n as int);
        lemma_mean_in_range(y as int, n as int);
    }
    ((x / (n as i128)) as i32, (y / (n as i128)) as i32)
}

/// Where an offset from the centre lies in the phase order: 0 above the
/// x-axis, 1 below it, 2 on the positive x-axis or at the centre, 3 on the
/// negative x-axis.
///
/// An offset above the axis has its angle as its phase; every other offset has
/// its angle raised by a full turn. So the lower half plane follows the upper
/// one, and the two halves of the axis come last.
pub open spec fn sector(dx: int, dy: int) -> int {
    if dy > 0 {
        0
    } else if dy < 0 {
        1
    } else if dx >= 0 {
        2
    } else {
        3
    }
}

/// The cross product of two offsets: positive where the second lies
/// counter-clockwise of the first.
pub open spec fn cross(ax: int, ay: int, bx: int, by: int) -> int {
    ax * by - ay * bx
}

/// `p` has a smaller phase around `c` than `q`.
pub open spec fn phase_lt(p: Location, q: Location, c: Location) -> bool {
    let ax = p.0 - c.0;
    let ay = p.1 - c.1;
    let bx = q.0 - c.0;
    let by = q.1 - c.1;
    let sa = sector(ax, ay);
    let sb = sector(bx, by);
    sa < sb || (sa == sb && sa <= 1 && cross(ax, ay, bx, by) > 0)
}

fn sector_of(dx: i64, dy: i64) -> (s: u8)
    ensures
        s == sector(dx as int, dy as int),
{
    if dy > 0 {
        0
    } else if dy < 0 {
        1
    } else if dx >= 0 {
        2
    } else {
        3
    }
}

/// Decides whether `p` has a smaller phase around `c` than `q`.
pub fn phase_before(p: (i32, i32), q: (i32, i32), c: (i32, i32)) -> (r: bool)
    ensures
        r == phase_lt(p, q, c),
{
    let ax: i64 = p.0 as i64 - c.0 as i64;
    let ay: i64 = p.1 as i64 - c.1 as i64;
    let bx: i64 = q.0 as i64 - c.0 as i64;
    let by: i64 = q.1 as i64 - c.1 as i64;
    let sa = sector_of(ax, ay);
    let sb = sector_of(bx, by);
    if sa != sb {
        sa < sb
    } else if sa <= 1 {
        assert(-0x1_0000_0000_0000_0000 <= ax * by <= 0x1_0000_0000_0000_0000) by (nonlinear_arith)
            requires
                -0x1_0000_0000 <= ax <= 0x1_0000_0000,
                -0x1_0000_0000 <= by <= 0x1_0000_0000,
        ;
        assert(-0x1_0000_0000_0000_0000 <= ay * bx <= 0x1_0000_0000_0000_0000) by (nonlinear_arith)
            requires
                -0x1_0000_0000 <= ay <= 0x1_0000_0000,
                -0x1_0000_0000 <= bx <= 0x1_0000_0000,
        ;
        let lhs: i128 = (ax as i128) * (by as i128);
        let rhs: i128 = (ay as i128) * (bx as i128);
        lhs > rhs
    } else {
        false
    }
}

/// The members `s`, already in phase order, with `x` put behind the last
/// member whose phase is not greater than that of `x`.
pub open spec fn insert_by_phase(s: Seq<usize>, x: usize, coords: Seq<Location>, c: Location) -> Seq<
    usize,
>
    decreases s.len(),
{
    if s.len() == 0 {
        seq![x]
    } else if phase_lt(coords[x as int], coords[s.last() as int], c) {
        insert_by_phase(s.drop_last(), x, coords, c).push(s.last())
    } else {
        s.push(x)
    }
}

/// The members `ids` in phase order around `c`. Members of equal phase keep
/// the order in which `ids` has them.
pub open spec fn sort_by_phase(ids: Seq<usize>, coords: Seq<Location>, c: Location) -> Seq<usize>
    decreases ids.len(),
{
    if ids.len() == 0 {
        Seq::empty()
    } else {
        insert_by_phase(sort_by_phase(ids.drop_last(), coords, c), ids.last(), coords, c)
    }
}

/// Where [`insert_by_phase`] puts the new member: in front of the members
/// that follow it in phase, and behind one that does not.
pub proof fn lemma_insert_position(
    s: Seq<usize>,
    x: usize,
    coords: Seq<Location>,
    c: Location,
    j: int,
)
    requires
        0 <= j <= s.len(),
        forall|k: int| j <= k < s.len() ==> phase_lt(coords[x as int], coords[#[trigger] s[k] as int], c),
        j > 0 ==> !phase_lt(coords[x as int], coords[s[j - 1] as int], c),
    ensures
        insert_by_phase(s, x, coords, c) == s.insert(j, x),
    decreases s.len(),
{
    if s.len() == 0 {
        assert(s.insert(j, x) =~= seq![x]);
    } else if j == s.len() {
        assert(s.insert(j, x) =~= s.push(x));
    } else {
        assert(phase_lt(coords[x as int], coords[s[s.len() - 1] as int], c));
        lemma_insert_position(s.drop_last(), x, coords, c, j);
        assert(s.drop_last().insert(j, x).push(s.last()) =~= s.insert(j, x));
    }
}

/// Inserting a member adds that member, and nothing else.
pub proof fn lemma_insert_multiset(s: Seq<usize>, x: usize, coords: Seq<Location>, c: Location)
    ensures
        insert_by_phase(s, x, coords, c).to_multiset() == s.to_multiset().insert(x),
        insert_by_phase(s, x, coords, c).len() == s.len() + 1,
    decreases s.len(),
{
    broadcast use vstd::seq_lib::group_to_multiset_ensures;

    if s.len() == 0 {
        assert(seq![x] =~= s.push(x));
    } else if phase_lt(coords[x as int], coords[s.last() as int], c) {
        lemma_insert_multiset(s.drop_last(), x, coords, c);
        assert(s =~= s.drop_last().push(s.last()));
        assert(s.to_multiset() =~= s.drop_last().to_multiset().insert(s.last()));
        assert(insert_by_phase(s, x, coords, c).to_multiset() =~= s.to_multiset().insert(x));
    } else {
    }
}

/// Sorting by phase rearranges the members: each occurs as often as before.
pub proof fn lemma_sort_is_permutation(ids: Seq<usize>, coords: Seq<Location>, c: Location)
    ensures
        sort_by_phase(ids, coords, c).to_multiset() == ids.to_multiset(),
        sort_by_phase(ids, coords, c).len() == ids.len(),
    decreases ids.len(),
{
    broadcast use vstd::seq_lib::group_to_multiset_ensures;

    if ids.len() == 0 {
        assert(sort_by_phase(ids, coords, c) =~= ids);
    } else {
        lemma_sort_is_permutation(ids.drop_last(), coords, c);
        lemma_insert_multiset(
            sort_by_phase(ids.drop_last(), coords, c),
            ids.last(),
            coords,
            c,
        );
        assert(ids =~= ids.drop_last().push(ids.last()));
        assert(ids.to_multiset() =~= ids.drop_last().to_multiset().insert(ids.last()));
    }
}

/// No point has a smaller phase than itself, and of two points at most one
/// has a smaller phase than the other.
pub proof fn lemma_phase_asymmetric(p: Location, q: Location, c: Location)
    ensures
        !phase_lt(p, p, c),
        phase_lt(p, q, c) ==> !phase_lt(q, p, c),
{
    let ax = p.0 - c.0;
    let ay = p.1 - c.1;
    let bx = q.0 - c.0;
    let by = q.1 - c.1;
    assert(cross(ax, ay, bx, by) == -cross(bx, by, ax, ay)) by (nonlinear_arith);
    assert(cross(ax, ay, ax, ay) == 0) by (nonlinear_arith);
}

/// Where the first of three offsets on one side of the x-axis does not lie
/// clockwise of the second, nor the second of the third, the first does not
/// lie clockwise of the third.
proof fn lemma_cross_chain(ax: int, ay: int, bx: int, by: int, cx: int, cy: int)
    requires
        (ay > 0 && by > 0 && cy > 0) || (ay < 0 && by < 0 && cy < 0),
        cross(ax, ay, bx, by) <= 0,
        cross(bx, by, cx, cy) <= 0,
    ensures
        cross(ax, ay, cx, cy) <= 0,
{
    let first = ax * by - ay * bx;
    let second = bx * cy - by * cx;
    let third = ax * cy - ay * cx;
    assert(by * third == cy * first + ay * second) by (nonlinear_arith)
        requires
            first == ax * by - ay * bx,
            second == bx * cy - by * cx,
            third == ax * cy - ay * cx,
    ;
    if ay > 0 {
        assert(cy * first <= 0) by (nonlinear_arith)
            requires
                cy > 0,
                first <= 0,
        ;
        assert(ay * second <= 0) by (nonlinear_arith)
            requires
                ay > 0,
                second <= 0,
        ;
        assert(third <= 0) by (nonlinear_arith)
            requires
                by * third <= 0,
                by > 0,
        ;
    } else {
        assert(cy * first >= 0) by (nonlinear_arith)
            requires
                cy < 0,
                first <= 0,
        ;
        assert(ay * second >= 0) by (nonlinear_arith)
            requires
                ay < 0,
                second <= 0,
        ;
        assert(third <= 0) by (nonlinear_arith)
            requires
                by * third >= 0,
                by < 0,
        ;
    }
}

/// The phase order is a weak order: where `p` is not before `q` and `q` is
/// not before `r`, `p` is not before `r`.
pub proof fn lemma_phase_not_before_chain(p: Location, q: Location, r: Location, c: Location)
    requires
        !phase_lt(q, p, c),
        !phase_lt(r, q, c),
    ensures
        !phase_lt(r, p, c),
{
    let px = p.0 - c.0;
    let py = p.1 - c.1;
    let qx = q.0 - c.0;
    let qy = q.1 - c.1;
    let rx = r.0 - c.0;
    let ry = r.1 - c.1;
    let sp = sector(px, py);
    let sq = sector(qx, qy);
    let sr = sector(rx, ry);
    if sp == sq && sq == sr && sp <= 1 {
        lemma_cross_chain(rx, ry, qx, qy, px, py);
    }
}

/// The members are in phase order: none is before a member in front of it.
pub open spec fn in_phase_order(s: Seq<usize>, coords: Seq<Location>, c: Location) -> bool {
    forall|i: int, j: int|
        0 <= i < j < s.len() ==> !phase_lt(
            coords[#[trigger] s[j] as int],
            coords[#[trigger] s[i] as int],
            c,
        )
}

/// Putting a member into members in phase order keeps the phase order, and
/// puts the member behind every member of the same phase.
pub proof fn lemma_insert_keeps_order(s: Seq<usize>, x: usize, coords: Seq<Location>, c: Location)
    requires
        in_phase_order(s, coords, c),
    ensures
        in_phase_order(insert_by_phase(s, x, coords, c), coords, c),
        exists|j: int|
            0 <= j <= s.len() && insert_by_phase(s, x, coords, c) == s.insert(j, x) && (forall|
                k: int,
            |
                0 <= k < j ==> !phase_lt(coords[x as int], coords[#[trigger] s[k] as int], c))
                && (forall|k: int|
                j <= k < s.len() ==> phase_lt(coords[x as int], coords[#[trigger] s[k] as int], c)),
    decreases s.len(),
{
    let r = insert_by_phase(s, x, coords, c);
    if s.len() == 0 {
        assert(r =~= s.insert(0, x));
    } else if phase_lt(coords[x as int], coords[s.last() as int], c) {
        let front = s.drop_last();
        assert(in_phase_order(front, coords, c)) by {
            assert forall|i: int, j: int| 0 <= i < j < front.len() implies !phase_lt(
                coords[#[trigger] front[j] as int],
                coords[#[trigger] front[i] as int],
                c,
            ) by {
                assert(front[i] == s[i] && front[j] == s[j]);
            }
        }
        lemma_insert_keeps_order(front, x, coords, c);
        let inner = insert_by_phase(front, x, coords, c);
        let j = choose|j: int|
            0 <= j <= front.len() && inner == front.insert(j, x) && (forall|k: int|
                0 <= k < j ==> !phase_lt(coords[x as int], coords[#[trigger] front[k] as int], c))
                && (forall|k: int|
                j <= k < front.len() ==> phase_lt(
                    coords[x as int],
                    coords[#[trigger] front[k] as int],
                    c,
                ));
        assert(r =~= s.insert(j, x));
        assert forall|k: int| 0 <= k < j implies !phase_lt(
            coords[x as int],
            coords[#[trigger] s[k] as int],
            c,
        ) by {
            assert(front[k] == s[k]);
        }
        assert forall|k: int| j <= k < s.len() implies phase_lt(
            coords[x as int],
            coords[#[trigger] s[k] as int],
            c,
        ) by {
            if k < front.len() {
                assert(front[k] == s[k]);
            }
        }
        lemma_inserted_order(s, x, coords, c, j);
    } else {
        let j = s.len() as int;
        assert(r =~= s.insert(j, x));
        assert forall|k: int| 0 <= k < j implies !phase_lt(
            coords[x as int],
            coords[#[trigger] s[k] as int],
            c,
        ) by {
            if k < j - 1 {
                assert(!phase_lt(coords[s[j - 1] as int], coords[s[k] as int], c));
                lemma_phase_not_before_chain(
                    coords[s[k] as int],
                    coords[s[j - 1] as int],
                    coords[x as int],
                    c,
                );
            }
        }
        lemma_inserted_order(s, x, coords, c, j);
    }
}

/// A member put behind the members that are not behind it, and in front of
/// those that are, leaves the members in phase order.
proof fn lemma_inserted_order(s: Seq<usize>, x: usize, coords: Seq<Location>, c: Location, j: int)
    requires
        in_phase_order(s, coords, c),
        0 <= j <= s.len(),
        forall|k: int| 0 <= k < j ==> !phase_lt(coords[x as int], coords[#[trigger] s[k] as int], c),
        forall|k: int|
            j <= k < s.len() ==> phase_lt(coords[x as int], coords[#[trigger] s[k] as int], c),
    ensures
        in_phase_order(s.insert(j, x), coords, c),
{
    let r = s.insert(j, x);
    assert forall|a: int, b: int| 0 <= a < b < r.len() implies !phase_lt(
        coords[#[trigger] r[b] as int],
        coords[#[trigger] r[a] as int],
        c,
    ) by {
        let ra = if a < j {
            s[a]
        } else if a == j {
            x
        } else {
            s[a - 1]
        };
        let rb = if b < j {
            s[b]
        } else if b == j {
            x
        } else {
            s[b - 1]
        };
        assert(r[a] == ra);
        assert(r[b] == rb);
        if b == j {
            assert(!phase_lt(coords[x as int], coords[s[a] as int], c));
        } else if a == j {
            assert(phase_lt(coords[x as int], coords[s[b - 1] as int], c));
            lemma_phase_asymmetric(coords[x as int], coords[s[b - 1] as int], c);
        } else {
            let ia = if a < j {
                a
            } else {
                a - 1
            };
            let ib = if b < j {
                b
            } else {
                b - 1
            };
            assert(!phase_lt(coords[s[ib] as int], coords[s[ia] as int], c));
        }
    }
}

/// Sorting by phase puts the members in phase order.
pub proof fn lemma_sort_is_ordered(ids: Seq<usize>, coords: Seq<Location>, c: Location)
    ensures
        in_phase_order(sort_by_phase(ids, coords, c), coords, c),
    decreases ids.len(),
{
    if ids.len() > 0 {
        lemma_sort_is_ordered(ids.drop_last(), coords, c);
        lemma_insert_keeps_order(sort_by_phase(ids.drop_last(), coords, c), ids.last(), coords, c);
    }
}

/// Sorts the members by phase around `center`. Members of equal phase keep
/// their order.
pub fn sort_members(coords: &[(i32, i32)], center: (i32, i32), ids: &Vec<usize>) -> (sorted: Vec<
    usize,
>)
    requires
        forall|k: int| 0 <= k < ids@.len() ==> ids@[k] < coords@.len(),
    ensures
        sorted@ == sort_by_phase(ids@, coords@, center),
        sorted@.len() == ids@.len(),
        sorted@.to_multiset() == ids@.to_multiset(),
        in_phase_order(sorted@, coords@, center),
        forall|k: int| 0 <= k < sorted@.len() ==> sorted@[k] < coords@.len(),
{
    proof {
        lemma_sort_is_ordered(ids@, coords@, center);
        lemma_sort_is_permutation(ids@, coords@, center);
    }
    let mut out: Vec<usize> = Vec::new();
    let mut i: usize = 0;
    while i < ids.len()
        invariant
            i <= ids@.len(),
            out@ == sort_by_phase(ids@.take(i as int), coords@, center),
            out@.len() == i,
            forall|k: int| 0 <= k < ids@.len() ==> ids@[k] < coords@.len(),
            forall|k: int| 0 <= k < out@.len() ==> out@[k] < coords@.len(),
        decreases ids@.len() - i,
    {
        let x = ids[i];
        let mut j: usize = out.len();
        while j > 0 && phase_before(coords[x], coords[out[j - 1]], center)
            invariant
                j <= out@.len(),
                x < coords@.len(),
                forall|k: int| 0 <= k < out@.len() ==> out@[k] < coords@.len(),
                forall|k: int|
                    j <= k < out@.len() ==> phase_lt(
                        coords@[x as int],
                        coords@[#[trigger] out@[k] as int],
                        center,
                    ),
            decreases j,
        {
            j = j - 1;
        }
        proof {
            lemma_insert_position(out@, x, coords@, center, j as int);
            assert(ids@.take(i + 1).drop_last() =~= ids@.take(i as int));
            assert(ids@.take(i + 1).last() == x);
        }
        out.insert(j, x);
        i = i + 1;
    }
    proof {
        assert(ids@.take(ids@.len() as int) =~= ids@);
    }
    out
}

/// The members of a group of `size`, cut into `branch` runs: where run `i`
/// starts. Every run has `size / branch` members, but for the last one.
pub open spec fn run_start(size: nat, branch: nat, i: nat) -> nat {
    i * (size / branch)
}

/// Where run `i` ends. The last run takes what the division leaves over, so
/// that the runs cover the group.
pub open spec fn run_end(size: nat, branch: nat, i: nat) -> nat {
    if i + 1 == branch {
        size
    } else {
        (i + 1) * (size / branch)
    }
}

/// The label of child `i` of the group `label`, split `branch` ways.
pub open spec fn child_label(label: u32, branch: u32, i: int) -> int {
    (branch - 1) * label + i
}

/// Why a group of `size` members with the label `label` cannot be split
/// `branch` ways, if it cannot.
pub open spec fn split_error(label: u32, size: nat, branch: u32) -> Option<PartitionError> {
    if branch == 0 {
        Some(PartitionError::ZeroBranch { label })
    } else if size < branch {
        Some(PartitionError::TooFewMembers { label, size: size as usize, branch })
    } else if child_label(label, branch, branch - 1) > u32::MAX {
        Some(PartitionError::LabelOverflow { label, branch })
    } else {
        None
    }
}

/// The children of the group `(label, ids)`, split `branch` ways: the members
/// in phase order around `c`, cut into contiguous runs.
pub open spec fn split_group(
    label: u32,
    ids: Seq<usize>,
    branch: u32,
    coords: Seq<Location>,
    c: Location,
) -> Seq<(u32, Seq<usize>)> {
    let sorted = sort_by_phase(ids, coords, c);
    Seq::new(
        branch as nat,
        |i: int|
            (
                child_label(label, branch, i) as u32,
                sorted.subrange(
                    run_start(ids.len(), branch as nat, i as nat) as int,
                    run_end(ids.len(), branch as nat, i as nat) as int,
                ),
            ),
    )
}

/// The groups of a vector, each with its members as a sequence.
pub open spec fn groups_view(groups: Seq<(u32, Vec<usize>)>) -> Seq<(u32, Seq<usize>)> {
    Seq::new(groups.len(), |i: int| (groups[i].0, groups[i].1@))
}

/// Every member of every group is an index into `n` points.
pub open spec fn members_below(groups: Seq<(u32, Seq<usize>)>, n: nat) -> bool {
    forall|g: int, k: int|
        0 <= g < groups.len() && 0 <= k < groups[g].1.len() ==> #[trigger] groups[g].1[k] < n
}

/// The runs lie inside the group, one behind the other.
pub proof fn lemma_run_bounds(size: nat, branch: nat, i: nat)
    requires
        0 < branch <= size,
        i < branch,
    ensures
        run_start(size, branch, i) <= run_end(size, branch, i) <= size,
        i + 1 < branch ==> run_end(size, branch, i) == run_start(size, branch, i + 1),
        run_start(size, branch, 0) == 0,
        run_end(size, branch, (branch - 1) as nat) == size,
        run_start(size, branch, i) + size / branch == (i + 1) * (size / branch),
{
    let step = size / branch;
    lemma_fundamental_div_mod(size as int, branch as int);
    assert(branch * step <= size);
    assert(i * step <= (i + 1) * step <= branch * step) by (nonlinear_arith)
        requires
            i + 1 <= branch,
            step >= 0,
            i >= 0,
    ;
    assert(i * step + step == (i + 1) * step) by (nonlinear_arith);
    assert(0 * step == 0);
}

/// Splits one group into `grpn_next` children.
///
/// The members are sorted by phase around `center` and cut into contiguous
/// runs of `size / grpn_next` members; the last run also takes the members
/// that the division leaves over. Child `i` has the label
/// `(grpn_next - 1) * label + i`.
pub fn find_group(
    coords: &[(i32, i32)],
    center: (i32, i32),
    grp2id: (u32, Vec<usize>),
    grpn_next: u32,
) -> (r: Result<Vec<(u32, Vec<usize>)>, PartitionError>)
    requires
        forall|k: int| 0 <= k < grp2id.1@.len() ==> grp2id.1@[k] < coords@.len(),
    ensures
        match r {
            Ok(groups) => {
                &&& split_error(grp2id.0, grp2id.1@.len(), grpn_next) is None
                &&& groups_view(groups@) == split_group(
                    grp2id.0,
                    grp2id.1@,
                    grpn_next,
                    coords@,
                    center,
                )
                &&& members_below(groups_view(groups@), coords@.len())
            },
            Err(e) => split_error(grp2id.0, grp2id.1@.len(), grpn_next) == Some(e),
        },
{
    let label = grp2id.0;
    let size = grp2id.1.len();
    if grpn_next == 0 {
        return Err(PartitionError::ZeroBranch { label });
    }
    if size < grpn_next as usize {
        return Err(PartitionError::TooFewMembers { label, size, branch: grpn_next });
    }
    assert((grpn_next - 1) * label <= 0xffff_ffff * 0xffff_ffff) by (nonlinear_arith)
        requires
            0 <= grpn_next - 1 <= 0xffff_ffff,
            0 <= label <= 0xffff_ffff,
    ;
    let first_label: u64 = (grpn_next as u64 - 1) * (label as u64);
    if first_label + (grpn_next as u64 - 1) > u32::MAX as u64 {
        return Err(PartitionError::LabelOverflow { label, branch: grpn_next });
    }
    let sorted = sort_members(coords, center, &grp2id.1);
    let step: usize = size / (grpn_next as usize);
    let ghost want = split_group(label, grp2id.1@, grpn_next, coords@, center);
    let mut result: Vec<(u32, Vec<usize>)> = Vec::new();
    let mut start: usize = 0;
    let mut i: u32 = 0;
    while i < grpn_next
        invariant
            i <= grpn_next,
            0 < grpn_next <= size,
            size == grp2id.1@.len(),
            step == size / (grpn_next as usize),
            first_label == (grpn_next - 1) * label,
            first_label + (grpn_next - 1) <= u32::MAX,
            sorted@ == sort_by_phase(grp2id.1@, coords@, center),
            sorted@.len() == size,
            forall|k: int| 0 <= k < sorted@.len() ==> sorted@[k] < coords@.len(),
            want == split_group(label, grp2id.1@, grpn_next, coords@, center),
            i < grpn_next ==> start == run_start(size as nat, grpn_next as nat, i as nat),
            result@.len() == i,
            forall|g: int| 0 <= g < i ==> (#[trigger] result@[g]).0 == want[g].0 && result@[g].1@ == want[g].1,
            forall|g: int, k: int|
                0 <= g < i && 0 <= k < result@[g].1@.len() ==> #[trigger] result@[g].1@[k]
                    < coords@.len(),
        decreases grpn_next - i,
    {
        proof {
            lemma_run_bounds(size as nat, grpn_next as nat, i as nat);
        }
        let end: usize = if i + 1 == grpn_next {
            size
        } else {
            start + step
        };
        let mut run: Vec<usize> = Vec::new();
        let mut k: usize = start;
        while k < end
            invariant
                start <= k <= end <= sorted@.len(),
                run@ == sorted@.subrange(start as int, k as int),
            decreases end - k,
        {
            run.push(sorted[k]);
            proof {
                assert(sorted@.subrange(start as int, k as int).push(sorted@[k as int])
                    =~= sorted@.subrange(start as int, k + 1));
            }
            k = k + 1;
        }
        proof {
            assert forall|t: int| 0 <= t < run@.len() implies #[trigger] run@[t] < coords@.len() by {
                assert(run@[t] == sorted@[start + t]);
            }
        }
        result.push(((first_label + i as u64) as u32, run));
        start = end;
        i = i + 1;
    }
    proof {
        assert(groups_view(result@) =~= want);
        assert forall|g: int, k: int|
            0 <= g < groups_view(result@).len() && 0 <= k < groups_view(
                result@,
            )[g].1.len() implies #[trigger] groups_view(result@)[g].1[k] < coords@.len() by {
            assert(result@[g].1@[k] < coords@.len());
        }
    }
    Ok(result)
}

/// The indices of `n` points, in order.
pub open spec fn all_members(n: nat) -> Seq<usize> {
    Seq::new(n, |i: int| i as usize)
}

/// Every group of `groups` split `branch` ways, the children in the order of
/// their parents; or the error of the first group that cannot be split.
pub open spec fn split_groups(
    groups: Seq<(u32, Seq<usize>)>,
    branch: u32,
    coords: Seq<Location>,
    c: Location,
) -> Result<Seq<(u32, Seq<usize>)>, PartitionError>
    decreases groups.len(),
{
    if groups.len() == 0 {
        Ok(Seq::empty())
    } else {
        match split_groups(groups.drop_last(), branch, coords, c) {
            Err(e) => Err(e),
            Ok(done) => match split_error(groups.last().0, groups.last().1.len(), branch) {
                Some(e) => Err(e),
                None => Ok(
                    done + split_group(groups.last().0, groups.last().1, branch, coords, c),
                ),
            },
        }
    }
}

/// The groups at `depth`: all points in one group labelled 0 at depth 0, and
/// at each further depth the groups above, split by the factor of that depth.
/// The phases are taken around the centre of all points at every depth.
pub open spec fn groups_at(coords: Seq<Location>, branches: Seq<u32>, depth: nat) -> Result<
    Seq<(u32, Seq<usize>)>,
    PartitionError,
>
    decreases depth,
{
    if depth == 0 {
        Ok(seq![(0u32, all_members(coords.len()))])
    } else {
        match groups_at(coords, branches, (depth - 1) as nat) {
            Err(e) => Err(e),
            Ok(groups) => split_groups(groups, branches[depth - 1], coords, center_of(coords)),
        }
    }
}

/// The members of all groups, group after group.
pub open spec fn members(groups: Seq<(u32, Seq<usize>)>) -> Seq<usize>
    decreases groups.len(),
{
    if groups.len() == 0 {
        Seq::empty()
    } else {
        members(groups.drop_last()) + groups.last().1
    }
}

/// The members of one group, each with the group's label.
pub open spec fn labelled_group(group: (u32, Seq<usize>)) -> Seq<(u32, usize)> {
    Seq::new(group.1.len(), |k: int| (group.0, group.1[k]))
}

/// The members of all groups, group after group, each with its group's label.
pub open spec fn labelled(groups: Seq<(u32, Seq<usize>)>) -> Seq<(u32, usize)>
    decreases groups.len(),
{
    if groups.len() == 0 {
        Seq::empty()
    } else {
        labelled(groups.drop_last()) + labelled_group(groups.last())
    }
}

/// The innermost partition of the points: for each member of each group at
/// the depth `branches.len()`, the group's label and the member.
pub open spec fn group_spec(coords: Seq<Location>, branches: Seq<u32>) -> Result<
    Seq<(u32, usize)>,
    PartitionError,
> {
    match groups_at(coords, branches, branches.len()) {
        Ok(groups) => Ok(labelled(groups)),
        Err(e) => Err(e),
    }
}

/// The sink of each entry of a labelled partition.
pub open spec fn sinks_of(order: Seq<(u32, usize)>) -> Seq<usize> {
    Seq::new(order.len(), |k: int| order[k].1)
}

/// The members of a concatenation of group lists.
pub proof fn lemma_members_concat(a: Seq<(u32, Seq<usize>)>, b: Seq<(u32, Seq<usize>)>)
    ensures
        members(a + b) == members(a) + members(b),
    decreases b.len(),
{
    if b.len() == 0 {
        assert(a + b =~= a);
        assert(members(a) + members(b) =~= members(a));
    } else {
        assert((a + b).drop_last() =~= a + b.drop_last());
        assert((a + b).last() == b.last());
        lemma_members_concat(a, b.drop_last());
        assert((members(a) + members(b.drop_last())) + b.last().1 =~= members(a) + (members(
            b.drop_last(),
        ) + b.last().1));
    }
}

/// The labelled partition lists the members in the order of [`members`].
pub proof fn lemma_sinks_of_labelled(groups: Seq<(u32, Seq<usize>)>)
    ensures
        sinks_of(labelled(groups)) == members(groups),
    decreases groups.len(),
{
    if groups.len() == 0 {
        assert(sinks_of(labelled(groups)) =~= members(groups));
    } else {
        lemma_sinks_of_labelled(groups.drop_last());
        let a = labelled(groups.drop_last());
        let b = labelled_group(groups.last());
        assert(sinks_of(a + b) =~= sinks_of(a) + groups.last().1);
    }
}

/// The first `upto` runs of a split group, put together, are the front of the
/// sorted members.
proof fn lemma_runs_prefix(
    label: u32,
    ids: Seq<usize>,
    branch: u32,
    coords: Seq<Location>,
    c: Location,
    upto: nat,
)
    requires
        0 < branch <= ids.len(),
        upto <= branch,
    ensures
        members(split_group(label, ids, branch, coords, c).take(upto as int)) == sort_by_phase(
            ids,
            coords,
            c,
        ).subrange(
            0,
            if upto == 0 {
                0
            } else {
                run_end(ids.len(), branch as nat, (upto - 1) as nat) as int
            },
        ),
    decreases upto,
{
    let sorted = sort_by_phase(ids, coords, c);
    let all = split_group(label, ids, branch, coords, c);
    lemma_sort_is_permutation(ids, coords, c);
    if upto == 0 {
        assert(all.take(0) =~= Seq::empty());
        assert(members(all.take(0)) =~= sorted.subrange(0, 0));
    } else {
        let i = (upto - 1) as nat;
        lemma_runs_prefix(label, ids, branch, coords, c, i);
        lemma_run_bounds(ids.len(), branch as nat, i);
        if i > 0 {
            lemma_run_bounds(ids.len(), branch as nat, (i - 1) as nat);
        }
        assert(all.take(upto as int).drop_last() =~= all.take(i as int));
        assert(all.take(upto as int).last() == all[i as int]);
        let s = run_start(ids.len(), branch as nat, i) as int;
        let e = run_end(ids.len(), branch as nat, i) as int;
        assert(sorted.subrange(0, s) + sorted.subrange(s, e) =~= sorted.subrange(0, e));
    }
}

/// Splitting a group rearranges its members: the children hold each member
/// of the group exactly as often as the group does.
pub proof fn lemma_split_group_keeps_members(
    label: u32,
    ids: Seq<usize>,
    branch: u32,
    coords: Seq<Location>,
    c: Location,
)
    requires
        split_error(label, ids.len(), branch) is None,
    ensures
        members(split_group(label, ids, branch, coords, c)) == sort_by_phase(ids, coords, c),
        members(split_group(label, ids, branch, coords, c)).to_multiset() == ids.to_multiset(),
{
    let all = split_group(label, ids, branch, coords, c);
    let sorted = sort_by_phase(ids, coords, c);
    lemma_runs_prefix(label, ids, branch, coords, c, branch as nat);
    lemma_run_bounds(ids.len(), branch as nat, (branch - 1) as nat);
    lemma_sort_is_permutation(ids, coords, c);
    assert(all.take(branch as int) =~= all);
    assert(sorted.subrange(0, ids.len() as int) =~= sorted);
}

/// Splitting every group rearranges the members of all groups.
pub proof fn lemma_split_groups_keeps_members(
    groups: Seq<(u32, Seq<usize>)>,
    branch: u32,
    coords: Seq<Location>,
    c: Location,
)
    requires
        split_groups(groups, branch, coords, c) is Ok,
    ensures
        members(split_groups(groups, branch, coords, c)->Ok_0).to_multiset() == members(
            groups,
        ).to_multiset(),
    decreases groups.len(),
{
    broadcast use vstd::seq_lib::lemma_multiset_commutative;

    if groups.len() > 0 {
        let done = split_groups(groups.drop_last(), branch, coords, c)->Ok_0;
        let new = split_group(groups.last().0, groups.last().1, branch, coords, c);
        lemma_split_groups_keeps_members(groups.drop_last(), branch, coords, c);
        lemma_split_group_keeps_members(groups.last().0, groups.last().1, branch, coords, c);
        lemma_members_concat(done, new);
    }
}

/// At every depth, the groups hold every point exactly once: no index occurs
/// twice, and none is missing. This holds for every point count, since the
/// last run of a split takes what an uneven division leaves over.
pub proof fn lemma_partition_covers_once(coords: Seq<Location>, branches: Seq<u32>, depth: nat)
    requires
        coords.len() <= usize::MAX,
        depth <= branches.len(),
        groups_at(coords, branches, depth) is Ok,
    ensures
        members(groups_at(coords, branches, depth)->Ok_0).to_multiset() == all_members(
            coords.len(),
        ).to_multiset(),
        members(groups_at(coords, branches, depth)->Ok_0).len() == coords.len(),
        members(groups_at(coords, branches, depth)->Ok_0).no_duplicates(),
        forall|s: usize|
            s < coords.len() <==> #[trigger] members(
                groups_at(coords, branches, depth)->Ok_0,
            ).contains(s),
    decreases depth,
{
    broadcast use vstd::seq_lib::group_to_multiset_ensures;

    let found = members(groups_at(coords, branches, depth)->Ok_0);
    let all = all_members(coords.len());
    if depth == 0 {
        let root = seq![(0u32, all)];
        assert(root.drop_last() =~= Seq::empty());
        assert(members(root.drop_last()) =~= Seq::empty());
        assert(root.last().1 == all);
        assert(members(root) =~= all);
    } else {
        let above = groups_at(coords, branches, (depth - 1) as nat)->Ok_0;
        lemma_partition_covers_once(coords, branches, (depth - 1) as nat);
        lemma_split_groups_keeps_members(above, branches[depth - 1], coords, center_of(coords));
    }
    assert(found.to_multiset() == all.to_multiset());
    assert(found.len() == found.to_multiset().len());
    assert(all.len() == all.to_multiset().len());
    assert(all.no_duplicates());
    all.lemma_multiset_has_no_duplicates();
    found.lemma_multiset_has_no_duplicates_conv();
    found.to_multiset_ensures();
    all.to_multiset_ensures();
    assert forall|s: usize| s < coords.len() <==> #[trigger] found.contains(s) by {
        if s < coords.len() {
            assert(all[s as int] == s);
            assert(all.contains(s));
            assert(all.to_multiset().count(s) > 0);
        }
        if found.contains(s) {
            assert(found.to_multiset().count(s) > 0);
            assert(all.contains(s));
            let i = choose|i: int| 0 <= i < all.len() && all[i] == s;
            assert(all[i] == i as usize);
        }
    }
}

/// The first group that cannot be split decides: the groups behind it do not
/// matter.
proof fn lemma_split_groups_error_stays(
    groups: Seq<(u32, Seq<usize>)>,
    branch: u32,
    coords: Seq<Location>,
    c: Location,
    upto: int,
    e: PartitionError,
)
    requires
        0 <= upto <= groups.len(),
        split_groups(groups.take(upto), branch, coords, c) == Err::<Seq<(u32, Seq<usize>)>, _>(e),
    ensures
        split_groups(groups, branch, coords, c) == Err::<Seq<(u32, Seq<usize>)>, _>(e),
    decreases groups.len() - upto,
{
    if upto == groups.len() {
        assert(groups.take(upto) =~= groups);
    } else {
        assert(groups.take(upto + 1).drop_last() =~= groups.take(upto));
        lemma_split_groups_error_stays(groups, branch, coords, c, upto + 1, e);
    }
}

/// A depth that cannot be reached leaves every greater depth unreachable, for
/// the same reason.
proof fn lemma_groups_at_error_stays(
    coords: Seq<Location>,
    branches: Seq<u32>,
    depth: nat,
    deeper: nat,
    e: PartitionError,
)
    requires
        depth <= deeper,
        groups_at(coords, branches, depth) == Err::<Seq<(u32, Seq<usize>)>, _>(e),
    ensures
        groups_at(coords, branches, deeper) == Err::<Seq<(u32, Seq<usize>)>, _>(e),
    decreases deeper - depth,
{
    if depth < deeper {
        lemma_groups_at_error_stays(coords, branches, depth, (deeper - 1) as nat, e);
    }
}

fn copy_members(ids: &Vec<usize>) -> (copy: Vec<usize>)
    ensures
        copy@ == ids@,
{
    let mut copy: Vec<usize> = Vec::new();
    let mut k: usize = 0;
    while k < ids.len()
        invariant
            k <= ids@.len(),
            copy@ == ids@.take(k as int),
        decreases ids@.len() - k,
    {
        copy.push(ids[k]);
        proof {
            assert(ids@.take(k as int).push(ids@[k as int]) =~= ids@.take(k + 1));
        }
        k = k + 1;
    }
    proof {
        assert(ids@.take(ids@.len() as int) =~= ids@);
    }
    copy
}

/// Splits every group of one depth by `branch`.
fn split_level(
    coords: &[(i32, i32)],
    center: (i32, i32),
    groups: &Vec<(u32, Vec<usize>)>,
    branch: u32,
) -> (r: Result<Vec<(u32, Vec<usize>)>, PartitionError>)
    requires
        members_below(groups_view(groups@), coords@.len()),
    ensures
        match r {
            Ok(next) => {
                &&& split_groups(groups_view(groups@), branch, coords@, center) == Ok::<
                    _,
                    PartitionError,
                >(groups_view(next@))
                &&& members_below(groups_view(next@), coords@.len())
            },
            Err(e) => split_groups(groups_view(groups@), branch, coords@, center) == Err::<
                Seq<(u32, Seq<usize>)>,
                _,
            >(e),
        },
{
    let ghost above = groups_view(groups@);
    let mut next: Vec<(u32, Vec<usize>)> = Vec::new();
    let mut g: usize = 0;
    proof {
        assert(above.take(0) =~= Seq::empty());
        assert(groups_view(next@) =~= Seq::empty());
    }
    while g < groups.len()
        invariant
            g <= groups@.len(),
            above == groups_view(groups@),
            members_below(above, coords@.len()),
            split_groups(above.take(g as int), branch, coords@, center) == Ok::<_, PartitionError>(
                groups_view(next@),
            ),
            members_below(groups_view(next@), coords@.len()),
        decreases groups@.len() - g,
    {
        let label = groups[g].0;
        let ids = copy_members(&groups[g].1);
        proof {
            assert(above[g as int] == (label, ids@));
            assert(above.take(g + 1).drop_last() =~= above.take(g as int));
            assert(above.take(g + 1).last() == above[g as int]);
            assert forall|k: int| 0 <= k < ids@.len() implies ids@[k] < coords@.len() by {
                assert(above[g as int].1[k] < coords@.len());
            }
        }
        match find_group(coords, center, (label, ids), branch) {
            Err(e) => {
                proof {
                    lemma_split_groups_error_stays(above, branch, coords@, center, g + 1, e);
                }
                return Err(e);
            },
            Ok(children) => {
                let ghost before = groups_view(next@);
                let ghost added = groups_view(children@);
                let mut children = children;
                next.append(&mut children);
                proof {
                    assert(groups_view(next@) =~= before + added);
                    assert forall|a: int, k: int|
                        0 <= a < groups_view(next@).len() && 0 <= k < groups_view(
                            next@,
                        )[a].1.len() implies #[trigger] groups_view(next@)[a].1[k]
                        < coords@.len() by {
                        if a < before.len() {
                            assert(before[a].1[k] < coords@.len());
                        } else {
                            assert(added[a - before.len()].1[k] < coords@.len());
                        }
                    }
                }
            },
        }
        g = g + 1;
    }
    proof {
        assert(above.take(groups@.len() as int) =~= above);
    }
    Ok(next)
}

/// All `n` points in one group with the label 0.
fn whole_group(n: usize) -> (groups: Vec<(u32, Vec<usize>)>)
    ensures
        groups_view(groups@) == seq![(0u32, all_members(n as nat))],
        members_below(groups_view(groups@), n as nat),
{
    let mut everyone: Vec<usize> = Vec::new();
    let mut i: usize = 0;
    while i < n
        invariant
            i <= n,
            everyone@ == all_members(i as nat),
        decreases n - i,
    {
        everyone.push(i);
        proof {
            assert(all_members(i as nat).push(i) =~= all_members((i + 1) as nat));
        }
        i = i + 1;
    }
    let mut groups: Vec<(u32, Vec<usize>)> = Vec::new();
    groups.push((0, everyone));
    proof {
        assert(groups_view(groups@) =~= seq![(0u32, all_members(n as nat))]);
    }
    groups
}

/// Lists the members of all groups, each with its group's label.
fn label_members(groups: &Vec<(u32, Vec<usize>)>) -> (order: Vec<(u32, usize)>)
    ensures
        order@ == labelled(groups_view(groups@)),
{
    let ghost innermost = groups_view(groups@);
    let mut order: Vec<(u32, usize)> = Vec::new();
    let mut g: usize = 0;
    proof {
        assert(innermost.take(0) =~= Seq::empty());
    }
    while g < groups.len()
        invariant
            g <= groups@.len(),
            innermost == groups_view(groups@),
            order@ == labelled(innermost.take(g as int)),
        decreases groups@.len() - g,
    {
        let label = groups[g].0;
        let ghost before = order@;
        let ghost whole = labelled_group(innermost[g as int]);
        let mut k: usize = 0;
        proof {
            assert(before + whole.take(0) =~= before);
        }
        while k < groups[g].1.len()
            invariant
                g < groups@.len(),
                label == groups@[g as int].0,
                k <= groups@[g as int].1@.len(),
                innermost == groups_view(groups@),
                whole == labelled_group(innermost[g as int]),
                order@ == before + whole.take(k as int),
            decreases groups@[g as int].1@.len() - k,
        {
            let member = groups[g].1[k];
            order.push((label, member));
            proof {
                assert(whole[k as int] == (label, member));
                assert((before + whole.take(k as int)).push((label, member)) =~= before
                    + whole.take(k + 1));
            }
            k = k + 1;
        }
        proof {
            assert(whole.take(whole.len() as int) =~= whole);
            assert(innermost.take(g + 1).drop_last() =~= innermost.take(g as int));
            assert(innermost.take(g + 1).last() == innermost[g as int]);
        }
        g = g + 1;
    }
    proof {
        assert(innermost.take(groups@.len() as int) =~= innermost);
    }
    order
}

/// Partitions the points, one depth for each branch factor, top-down.
///
/// The answer lists, for each member of each innermost group, the group's
/// label and the member's index, group after group and each group in phase
/// order. It holds every index exactly once. Where the point count is the
/// product of the factors, every innermost group has one member.
pub fn group(coords: &[(i32, i32)], branchs: &Vec<u32>) -> (r: Result<
    Vec<(u32, usize)>,
    PartitionError,
>)
    ensures
        match r {
            Ok(order) => {
                &&& group_spec(coords@, branchs@) == Ok::<_, PartitionError>(order@)
                &&& order@.len() == coords@.len()
                &&& forall|k: int| 0 <= k < order@.len() ==> (#[trigger] order@[k]).1 < coords@.len()
            },
            Err(e) => group_spec(coords@, branchs@) == Err::<Seq<(u32, usize)>, _>(e),
        },
{
    let center = get_center(coords);
    let mut groups = whole_group(coords.len());
    let mut depth: usize = 0;
    while depth < branchs.len()
        invariant
            depth <= branchs@.len(),
            center == center_of(coords@),
            groups_at(coords@, branchs@, depth as nat) == Ok::<_, PartitionError>(
                groups_view(groups@),
            ),
            members_below(groups_view(groups@), coords@.len()),
        decreases branchs@.len() - depth,
    {
        match split_level(coords, center, &groups, branchs[depth]) {
            Err(e) => {
                proof {
                    lemma_groups_at_error_stays(
                        coords@,
                        branchs@,
                        (depth + 1) as nat,
                        branchs@.len(),
                        e,
                    );
                }
                return Err(e);
            },
            Ok(next) => {
                groups = next;
            },
        }
        depth = depth + 1;
    }
    let order = label_members(&groups);
    proof {
        let innermost = groups_view(groups@);
        lemma_partition_covers_once(coords@, branchs@, branchs@.len());
        lemma_sinks_of_labelled(innermost);
        assert(sinks_of(order@).len() == order@.len());
        assert forall|k: int| 0 <= k < order@.len() implies (#[trigger] order@[k]).1
            < coords@.len() by {
            assert(sinks_of(order@)[k] == order@[k].1);
            assert(members(innermost).contains(sinks_of(order@)[k]));
        }
    }
    Ok(order)
}

} // verus!
