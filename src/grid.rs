//! A dense square grid of counters onto which segments are drawn.
use vstd::prelude::*;

use vstd::arithmetic::div_mod::{lemma_fundamental_div_mod, lemma_fundamental_div_mod_converse};

use crate::geometry::Line;

verus! {

/// A cell counts as an overlap once this many segments cover it.
pub const OVERLAP_THRESHOLD: usize = 2;

/// How many of `lines` cover the cell `(x, y)`.
pub open spec fn coverage(lines: Seq<Line>, x: int, y: int) -> nat
    decreases lines.len(),
{
    if lines.len() == 0 {
        0
    } else {
        coverage(lines.drop_last(), x, y) + if lines.last().covers(x, y) {
            1nat
        } else {
            0nat
        }
    }
}

/// The counters of a `side` by `side` grid onto which all of `lines` have
/// been drawn, row by row: cell `(x, y)` is at index `y * side + x`.
pub open spec fn coverage_grid(lines: Seq<Line>, side: int) -> Seq<int> {
    Seq::new((side * side) as nat, |k: int| coverage(lines, k % side, k / side) as int)
}

/// `cells` once `l` is drawn on them: each cell that `l` covers goes up by one.
pub open spec fn drawn(cells: Seq<int>, side: int, l: Line) -> Seq<int> {
    Seq::new(
        cells.len(),
        |k: int|
            cells[k] + if l.covers(k % side, k / side) {
                1int
            } else {
                0int
            },
    )
}

/// How many entries of `cells` are at least `t`.
pub open spec fn count_at_least(cells: Seq<int>, t: int) -> nat
    decreases cells.len(),
{
    if cells.len() == 0 {
        0
    } else {
        count_at_least(cells.drop_last(), t) + if cells.last() >= t {
            1nat
        } else {
            0nat
        }
    }
}

/// A `side` by `side` grid of counters, stored row by row.
pub struct Grid {
    side: usize,
    cells: Vec<usize>,
}

impl View for Grid {
    type V = Seq<int>;

    /// The counters, row by row.
    closed spec fn view(&self) -> Seq<int> {
        self.cells@.map_values(|c: usize| c as int)
    }
}

impl Grid {
    /// The length of a side of the grid.
    pub closed spec fn spec_side(&self) -> int {
        self.side as int
    }

    /// The grid holds exactly `side * side` counters.
    pub closed spec fn wf(&self) -> bool {
        self.cells@.len() == self.side * self.side
    }

    /// The counter of cell `(x, y)`.
    pub open spec fn cell(&self, x: int, y: int) -> int {
        self@[y * self.spec_side() + x]
    }

    /// A grid of the given side with every counter at zero.
    pub fn new(side: usize) -> (g: Grid)
        requires
            side * side <= usize::MAX,
        ensures
            g.wf(),
            g.spec_side() == side,
            g@ == Seq::new((side * side) as nat, |k: int| 0int),
    {
        let g = Grid { side, cells: vec![0usize; side * side] };
        assert(g@ =~= Seq::new((side * side) as nat, |k: int| 0int));
        g
    }

    /// The length of a side of the grid.
    pub fn side(&self) -> (r: usize)
        ensures
            r == self.spec_side(),
    {
        self.side
    }

    /// The counter of cell `(x, y)`.
    pub fn get(&self, x: usize, y: usize) -> (r: usize)
        requires
            self.wf(),
            x < self.spec_side(),
            y < self.spec_side(),
        ensures
            r == self.cell(x as int, y as int),
    {
        // The vector's length bounds the index below, so the arithmetic cannot overflow.
        let n: usize = self.cells.len();
        proof {
            lemma_cell_index(self.side as int, x as int, y as int);
        }
        let idx = y * self.side + x;
        assert(idx < n);
        self.cells[idx]
    }

    /// Adds one to every cell on the segment `line`, both endpoints included.
    pub fn draw(&mut self, line: &Line)
        requires
            old(self).wf(),
            line.spec_is_orthogonal(),
            line.fits(old(self).spec_side()),
            forall|k: int| 0 <= k < old(self)@.len() ==> old(self)@[k] < usize::MAX,
        ensures
            final(self).wf(),
            final(self).spec_side() == old(self).spec_side(),
            final(self)@ == drawn(old(self)@, old(self).spec_side(), *line),
            line.p1 == line.p2 ==> forall|x: int, y: int|
                0 <= x < final(self).spec_side() && 0 <= y < final(self).spec_side() ==> (
                #[trigger] final(self).cell(x, y)) == old(self).cell(x, y) + if x == line.p1.x
                    && y == line.p1.y {
                    1int
                } else {
                    0int
                },
    {
        let ghost before = self.cells@;
        let side = self.side;
        let n: usize = self.cells.len();
        assert forall|k: int| 0 <= k < before.len() implies before[k] < usize::MAX by {
            assert(old(self)@[k] == before[k] as int);
        }
        let horizontal = line.is_horizontal();
        // `fixed` is the row of a horizontal segment or the column of a vertical one;
        // the other coordinate runs from `lo` to `hi`.
        let (fixed, a, b) = if horizontal {
            (line.p1.y as usize, line.p1.x as usize, line.p2.x as usize)
        } else {
            (line.p1.x as usize, line.p1.y as usize, line.p2.y as usize)
        };
        let lo = if a <= b {
            a
        } else {
            b
        };
        let hi = if a <= b {
            b
        } else {
            a
        };
        let mut t: usize = lo;
        while t <= hi
            invariant
                self.side == side,
                self.cells@.len() == side * side,
                n == side * side,
                before.len() == side * side,
                forall|k: int| 0 <= k < before.len() ==> before[k] < usize::MAX,
                fixed < side,
                lo <= t <= hi + 1,
                hi < side,
                forall|k: int|
                    0 <= k < before.len() ==> #[trigger] self.cells@[k] == before[k] + if (
                    horizontal && k / (side as int) == fixed && lo <= k % (side as int) < t) || (
                    !horizontal && k % (side as int) == fixed && lo <= k / (side as int) < t) {
                        1int
                    } else {
                        0int
                    },
            decreases hi + 1 - t,
        {
            let (x, y) = if horizontal {
                (t, fixed)
            } else {
                (fixed, t)
            };
            proof {
                lemma_cell_index(side as int, x as int, y as int);
            }
            let idx = y * side + x;
            let v = self.cells[idx];
            self.cells.set(idx, v + 1);
            proof {
                assert forall|k: int| 0 <= k < before.len() && k != idx implies ((#[trigger] (k
                    % (side as int))) == x && k / (side as int) == y) == false by {
                    lemma_fundamental_div_mod(k, side as int);
                }
            }
            t = t + 1;
        }
        proof {
            assert(self@ =~= drawn(before.map_values(|c: usize| c as int), side as int, *line));
            if line.p1 == line.p2 {
                assert forall|x: int, y: int|
                    0 <= x < side && 0 <= y < side implies (#[trigger] self.cell(x, y)) == old(
                    self,
                ).cell(x, y) + if x == line.p1.x && y == line.p1.y {
                    1int
                } else {
                    0int
                } by {
                    lemma_cell_index(side as int, x, y);
                }
            }
        }
    }

    /// How many counters are at least `t`.
    pub fn count_at_least(&self, t: usize) -> (r: usize)
        ensures
            r == count_at_least(self@, t as int),
    {
        let n: usize = self.cells.len();
        let mut count: usize = 0;
        let mut i: usize = 0;
        while i < n
            invariant
                n == self@.len(),
                i <= n,
                count <= i,
                count == count_at_least(self@.take(i as int), t as int),
            decreases n - i,
        {
            assert(self@.take(i + 1).drop_last() =~= self@.take(i as int));
            if self.cells[i] >= t {
                count = count + 1;
            }
            i = i + 1;
        }
        assert(self@.take(n as int) =~= self@);
        count
    }

    /// How many cells are covered at least `OVERLAP_THRESHOLD` times.
    pub fn count_overlaps(&self) -> (r: usize)
        ensures
            r == count_at_least(self@, OVERLAP_THRESHOLD as int),
    {
        self.count_at_least(OVERLAP_THRESHOLD)
    }
}

/// Cell `(x, y)` of a grid of side `side` sits at index `y * side + x`, inside
/// the grid, and no other cell sits there.
pub proof fn lemma_cell_index(side: int, x: int, y: int)
    requires
        0 <= x < side,
        0 <= y < side,
    ensures
        0 <= y * side + x < side * side,
        (y * side + x) % side == x,
        (y * side + x) / side == y,
{
    assert(0 <= y * side + x < side * side) by (nonlinear_arith)
        requires
            0 <= x < side,
            0 <= y < side,
    ;
    lemma_fundamental_div_mod_converse(y * side + x, side, y, x);
}

/// No cell is covered more often than there are segments.
pub proof fn lemma_coverage_bound(lines: Seq<Line>, x: int, y: int)
    ensures
        coverage(lines, x, y) <= lines.len(),
    decreases lines.len(),
{
    if lines.len() > 0 {
        lemma_coverage_bound(lines.drop_last(), x, y);
    }
}

/// Draws every segment of `lines` onto a fresh grid of the given side.
pub fn rasterize(lines: &Vec<Line>, side: usize) -> (g: Grid)
    requires
        side * side <= usize::MAX,
        forall|i: int|
            0 <= i < lines@.len() ==> (#[trigger] lines@[i]).spec_is_orthogonal()
                && lines@[i].fits(side as int),
    ensures
        g.wf(),
        g.spec_side() == side,
        g@ == coverage_grid(lines@, side as int),
{
    let mut g = Grid::new(side);
    assert(g@ =~= coverage_grid(lines@.take(0), side as int));
    let n: usize = lines.len();
    let mut i: usize = 0;
    while i < n
        invariant
            n == lines@.len(),
            i <= n,
            side * side <= usize::MAX,
            forall|j: int|
                0 <= j < lines@.len() ==> (#[trigger] lines@[j]).spec_is_orthogonal()
                    && lines@[j].fits(side as int),
            g.wf(),
            g.spec_side() == side,
            g@ == coverage_grid(lines@.take(i as int), side as int),
        decreases n - i,
    {
        let ghost done = lines@.take(i as int);
        assert forall|k: int| 0 <= k < g@.len() implies g@[k] < usize::MAX by {
            lemma_coverage_bound(done, k % (side as int), k / (side as int));
        }
        g.draw(&lines[i]);
        assert(lines@.take(i + 1).drop_last() =~= done);
        assert(g@ =~= coverage_grid(lines@.take(i + 1), side as int));
        i = i + 1;
    }
    assert(lines@.take(n as int) =~= lines@);
    g
}

/// Taking one segment out of a sequence lowers the coverage of a cell by one
/// exactly when that segment covers it.
pub proof fn lemma_coverage_remove(lines: Seq<Line>, j: int, x: int, y: int)
    requires
        0 <= j < lines.len(),
    ensures
        coverage(lines, x, y) == coverage(lines.remove(j), x, y) + if lines[j].covers(x, y) {
            1nat
        } else {
            0nat
        },
    decreases lines.len(),
{
    if j == lines.len() - 1 {
        assert(lines.remove(j) =~= lines.drop_last());
    } else {
        lemma_coverage_remove(lines.drop_last(), j, x, y);
        assert(lines.remove(j).drop_last() =~= lines.drop_last().remove(j));
        assert(lines.remove(j).last() == lines.last());
    }
}

/// The coverage of a cell does not depend on the order of the segments.
pub proof fn lemma_coverage_permutation(a: Seq<Line>, b: Seq<Line>, x: int, y: int)
    requires
        a.to_multiset() == b.to_multiset(),
    ensures
        coverage(a, x, y) == coverage(b, x, y),
    decreases a.len(),
{
    broadcast use vstd::seq_lib::group_to_multiset_ensures;

    a.to_multiset_ensures();
    b.to_multiset_ensures();
    if a.len() == 0 {
        assert(b.len() == 0);
    } else {
        let e = a.last();
        assert(a =~= a.drop_last().push(e));
        assert(a.to_multiset().count(e) > 0);
        assert(b.contains(e));
        let j = b.index_of(e);
        assert(b.remove(j).to_multiset() == b.to_multiset().remove(e));
        assert(a.drop_last().to_multiset() =~= a.to_multiset().remove(e));
        lemma_coverage_permutation(a.drop_last(), b.remove(j), x, y);
        lemma_coverage_remove(b, j, x, y);
    }
}

/// Drawing the same segments in any order gives the same grid.
pub proof fn lemma_rasterize_order_independent(a: Seq<Line>, b: Seq<Line>, side: int)
    requires
        a.to_multiset() == b.to_multiset(),
    ensures
        coverage_grid(a, side) == coverage_grid(b, side),
{
    assert forall|k: int| 0 <= k < coverage_grid(a, side).len() implies #[trigger] coverage_grid(a, side)[k]
        == coverage_grid(b, side)[k] by {
        lemma_coverage_permutation(a, b, k % side, k / side);
    }
    assert(coverage_grid(a, side) =~= coverage_grid(b, side));
}

} // verus!
