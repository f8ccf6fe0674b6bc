//! The whole computation: text in, number of overlapping cells out.
use vstd::prelude::*;

use crate::geometry::{max_int, Line};
use crate::grid::{count_at_least, coverage_grid, rasterize, OVERLAP_THRESHOLD};
use crate::input::{filter_orthogonal, orthogonal_only, parse_lines, segments_of};

verus! {

/// How the side of the grid is chosen.
#[derive(Clone, Copy, Debug, PartialEq, Eq, Structural)]
pub enum GridBound {
    /// One more than the largest coordinate of the segments kept.
    Auto,
    /// A side given in advance; a segment reaching past it is an error.
    Fixed(usize),
}

/// Why no count could be made.
#[derive(Clone, Copy, Debug, PartialEq, Eq, Structural)]
pub enum GridError {
    /// A kept segment has a coordinate below zero or not below the side.
    OutOfBounds,
    /// The grid would hold more cells than `usize` can count.
    TooLarge,
}

/// The largest coordinate of any of `lines`, or `-1` when there is none.
pub open spec fn max_coordinate_of(lines: Seq<Line>) -> int
    decreases lines.len(),
{
    if lines.len() == 0 {
        -1
    } else {
        max_int(max_coordinate_of(lines.drop_last()), lines.last().max_coordinate())
    }
}

/// The side of the grid for `lines` under `bound`.
pub open spec fn side_for(lines: Seq<Line>, bound: GridBound) -> int {
    match bound {
        GridBound::Auto => max_coordinate_of(lines) + 1,
        GridBound::Fixed(n) => n as int,
    }
}

/// Every segment of `lines` lies within a grid of the given side.
pub open spec fn all_fit(lines: Seq<Line>, side: int) -> bool {
    forall|i: int| 0 <= i < lines.len() ==> (#[trigger] lines[i]).fits(side)
}

/// What `count_overlaps` gives for `text` under `bound`.
pub open spec fn overlaps_of(text: Seq<char>, bound: GridBound) -> Result<usize, GridError> {
    let lines = orthogonal_only(segments_of(text));
    let side = side_for(lines, bound);
    if !all_fit(lines, side) {
        Err(GridError::OutOfBounds)
    } else if side * side > usize::MAX {
        Err(GridError::TooLarge)
    } else {
        Ok(count_at_least(coverage_grid(lines, side), OVERLAP_THRESHOLD as int) as usize)
    }
}

/// The ten sample segments, one per line.
pub fn get_input() -> (r: &'static str)
    ensures
        r@ == "0,9 -> 5,9\n8,0 -> 0,8\n9,4 -> 3,4\n2,2 -> 2,1\n7,0 -> 7,4\n6,4 -> 2,0\n0,9 -> 2,9\n3,4 -> 1,4\n0,0 -> 8,8\n5,5 -> 8,2"@,
{
    "0,9 -> 5,9
8,0 -> 0,8
9,4 -> 3,4
2,2 -> 2,1
7,0 -> 7,4
6,4 -> 2,0
0,9 -> 2,9
3,4 -> 1,4
0,0 -> 8,8
5,5 -> 8,2"
}

/// The largest coordinate of any of `lines`, or `-1` when there is none.
pub fn max_coordinate(lines: &Vec<Line>) -> (r: i64)
    ensures
        r == max_coordinate_of(lines@),
        i32::MIN <= r <= i32::MAX,
{
    let n: usize = lines.len();
    let mut m: i64 = -1;
    let mut i: usize = 0;
    while i < n
        invariant
            n == lines@.len(),
            i <= n,
            m == max_coordinate_of(lines@.take(i as int)),
            i32::MIN <= m <= i32::MAX,
        decreases n - i,
    {
        let l = lines[i];
        assert(lines@.take(i + 1).drop_last() =~= lines@.take(i as int));
        let a: i64 = if l.p1.x >= l.p1.y {
            l.p1.x as i64
        } else {
            l.p1.y as i64
        };
        let b: i64 = if l.p2.x >= l.p2.y {
            l.p2.x as i64
        } else {
            l.p2.y as i64
        };
        let c: i64 = if a >= b {
            a
        } else {
            b
        };
        m = if m >= c {
            m
        } else {
            c
        };
        i = i + 1;
    }
    assert(lines@.take(n as int) =~= lines@);
    m
}

/// Whether every segment of `lines` lies within a grid of the given side.
pub fn all_within(lines: &Vec<Line>, side: usize) -> (r: bool)
    ensures
        r == all_fit(lines@, side as int),
{
    let n: usize = lines.len();
    let mut i: usize = 0;
    while i < n
        invariant
            n == lines@.len(),
            i <= n,
            all_fit(lines@.take(i as int), side as int),
        decreases n - i,
    {
        let l = lines[i];
        let fits = 0 <= l.p1.x && 0 <= l.p1.y && 0 <= l.p2.x && 0 <= l.p2.y && (l.p1.x as usize)
            < side && (l.p1.y as usize) < side && (l.p2.x as usize) < side && (l.p2.y as usize)
            < side;
        if !fits {
            assert(lines@[i as int] == l);
            return false;
        }
        assert(all_fit(lines@.take(i + 1), side as int)) by {
            assert forall|j: int| 0 <= j < i + 1 implies (#[trigger] lines@.take(i + 1)[j]).fits(
                side as int,
            ) by {
                if j < i {
                    assert(lines@.take(i + 1)[j] == lines@.take(i as int)[j]);
                }
            }
        }
        i = i + 1;
    }
    assert(lines@.take(n as int) =~= lines@);
    true
}

/// Counts the cells covered by at least `OVERLAP_THRESHOLD` of the horizontal
/// and vertical segments written in `text`, one per line. Lines that do not
/// read as a segment, and diagonal segments, are skipped.
pub fn count_overlaps(text: &str, bound: GridBound) -> (r: Result<usize, GridError>)
    ensures
        r == overlaps_of(text@, bound),
{
    let parsed = parse_lines(text);
    let lines = filter_orthogonal(&parsed);
    let ghost kept = orthogonal_only(segments_of(text@));
    let side: usize = match bound {
        GridBound::Fixed(n) => n,
        GridBound::Auto => {
            let m = max_coordinate(&lines);
            if m < 0 {
                if lines.len() > 0 {
                    proof {
                        lemma_max_coordinate_bounds(kept);
                        assert(!kept[0].fits(side_for(kept, bound)));
                    }
                    return Err(GridError::OutOfBounds);
                }
                0
            } else {
                (m + 1) as usize
            }
        },
    };
    assert(side_for(kept, bound) == side);
    if !all_within(&lines, side) {
        return Err(GridError::OutOfBounds);
    }
    if side != 0 && side > usize::MAX / side {
        assert(side * side > usize::MAX) by (nonlinear_arith)
            requires
                side > 0,
                side > usize::MAX / side,
        ;
        return Err(GridError::TooLarge);
    }
    assert(side * side <= usize::MAX) by (nonlinear_arith)
        requires
            side == 0 || side <= usize::MAX / side,
    ;
    let g = rasterize(&lines, side);
    let r = g.count_overlaps();
    Ok(r)
}

/// Every segment's coordinates are at most the largest coordinate.
pub proof fn lemma_max_coordinate_bounds(lines: Seq<Line>)
    ensures
        forall|i: int|
            0 <= i < lines.len() ==> (#[trigger] lines[i]).max_coordinate() <= max_coordinate_of(
                lines,
            ),
    decreases lines.len(),
{
    if lines.len() > 0 {
        lemma_max_coordinate_bounds(lines.drop_last());
        assert forall|i: int| 0 <= i < lines.len() implies (#[trigger] lines[i]).max_coordinate()
            <= max_coordinate_of(lines) by {
            if i < lines.len() - 1 {
                assert(lines[i] == lines.drop_last()[i]);
            }
        }
    }
}

} // verus!
