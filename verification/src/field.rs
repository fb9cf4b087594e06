//! The grid of cells, the geometry of straight-line word placements, and the
//! operations that validate, commit and undo a single placement.
//!
//! A placement walks from a start coordinate one unit step per letter along a
//! direction.  Each cell keeps, besides its letter, a count of the committed
//! placements that cover it, so that undoing one placement never blanks a
//! cell that another placement still uses.

use vstd::prelude::*;

use crate::difficulty::Direction;
use crate::rng::shuffle_vec;

verus! {

/// The letter shown by a cell that no placement covers.
pub const DEFAULT_CHAR: char = '_';

/// The failure of a single candidate placement: out of bounds, or a letter
/// conflict with a cell already in use.  Always recoverable by trying the
/// next candidate.
#[derive(PartialEq, Eq, Structural, Debug, Clone, Copy)]
pub enum WordAddError {
    DoesntFit,
}

/// The number of rows a direction advances per step: `1` downwards, `-1`
/// upwards, `0` for a purely horizontal direction.
pub open spec fn row_step(d: Direction) -> int {
    match d {
        Direction::Right => 0,
        Direction::Left => 0,
        Direction::Up => -1,
        Direction::Down => 1,
        Direction::RightUp => -1,
        Direction::RightDown => 1,
        Direction::LeftUp => -1,
        Direction::LeftDown => 1,
    }
}

/// The number of columns a direction advances per step.
pub open spec fn col_step(d: Direction) -> int {
    match d {
        Direction::Right => 1,
        Direction::Left => -1,
        Direction::Up => 0,
        Direction::Down => 0,
        Direction::RightUp => 1,
        Direction::RightDown => 1,
        Direction::LeftUp => -1,
        Direction::LeftDown => -1,
    }
}

/// Position along one axis after `i` steps of stride `s` from `x0`.
pub open spec fn axis_pos(x0: int, s: int, i: int) -> int {
    x0 + i * s
}

/// All of the first `len` positions along one axis stay inside `[0, n)`.
pub open spec fn axis_fits(n: int, s: int, x0: int, len: int) -> bool {
    forall|i: int| 0 <= i < len ==> 0 <= #[trigger] axis_pos(x0, s, i) < n
}

/// Smallest start position on an axis of extent `n` from which `len` steps of
/// stride `s` stay in bounds.
pub open spec fn axis_lo(n: int, s: int, len: int) -> int {
    if s == -1 {
        len - 1
    } else {
        0
    }
}

/// One past the largest such start position.
pub open spec fn axis_hi(n: int, s: int, len: int) -> int {
    if s == 1 {
        n - len + 1
    } else {
        n
    }
}

/// The row of the `i`-th letter of a placement starting at row `r0`.
pub open spec fn pos_row(d: Direction, r0: int, i: int) -> int {
    axis_pos(r0, row_step(d), i)
}

/// The column of the `i`-th letter of a placement starting at column `c0`.
pub open spec fn pos_col(d: Direction, c0: int, i: int) -> int {
    axis_pos(c0, col_step(d), i)
}

/// `(r, c)` lies inside a grid of `nr` rows and `nc` columns.
pub open spec fn in_bounds(nr: int, nc: int, r: int, c: int) -> bool {
    0 <= r < nr && 0 <= c < nc
}

/// Every letter of a `len`-letter word laid from `(r0, c0)` along `d` stays
/// inside the grid.
pub open spec fn fits(nr: int, nc: int, d: Direction, r0: int, c0: int, len: int) -> bool {
    axis_fits(nr, row_step(d), r0, len) && axis_fits(nc, col_step(d), c0, len)
}

/// The word is too long for the grid extents its direction spans, so no start
/// position at all can make it fit.
pub open spec fn misfits(d: Direction, nr: int, nc: int, len: int) -> bool {
    (len > nc && col_step(d) != 0) || (len > nr && row_step(d) != 0)
}

/// Cell `(r, c)` is one of the first `len` positions of the walk from
/// `(r0, c0)` along `d`.
pub open spec fn on_path(d: Direction, r0: int, c0: int, len: int, r: int, c: int) -> bool {
    exists|i: int|
        0 <= i < len && r == #[trigger] pos_row(d, r0, i) && c == pos_col(d, c0, i)
}

/// A start position makes `len` steps of stride `s` stay inside `[0, n)`
/// exactly when it lies in the analytic interval `[axis_lo, axis_hi)`.
pub proof fn lemma_axis_exact(n: int, s: int, x0: int, len: int)
    requires
        len >= 1,
        s == -1 || s == 0 || s == 1,
    ensures
        axis_fits(n, s, x0, len) <==> (axis_lo(n, s, len) <= x0 < axis_hi(n, s, len)),
{
    assert((len - 1) * -1 == 1 - len) by (nonlinear_arith);
    if axis_fits(n, s, x0, len) {
        assert(0 <= axis_pos(x0, s, 0) < n);
        assert(0 <= axis_pos(x0, s, len - 1) < n);
    }
    if axis_lo(n, s, len) <= x0 < axis_hi(n, s, len) {
        assert forall|i: int| 0 <= i < len implies 0 <= #[trigger] axis_pos(x0, s, i) < n by {
            assert(s == 1 ==> i * s == i) by (nonlinear_arith);
            assert(s == -1 ==> i * s == -i) by (nonlinear_arith);
            assert(s == 0 ==> i * s == 0) by (nonlinear_arith);
        }
    }
}

/// The strides of every direction are `-1`, `0` or `1`, and never both zero.
pub proof fn lemma_steps_unit(d: Direction)
    ensures
        -1 <= row_step(d) <= 1,
        -1 <= col_step(d) <= 1,
        row_step(d) != 0 || col_step(d) != 0,
{
}

/// A word fits from a start position exactly when the start lies in the
/// analytic row and column intervals; this is the full correctness of the
/// candidate-range computation.
pub proof fn lemma_ranges_exact(d: Direction, nr: int, nc: int, len: int, r0: int, c0: int)
    requires
        len >= 1,
    ensures
        fits(nr, nc, d, r0, c0, len) <==> (axis_lo(nr, row_step(d), len) <= r0 < axis_hi(
            nr,
            row_step(d),
            len,
        ) && axis_lo(nc, col_step(d), len) <= c0 < axis_hi(nc, col_step(d), len)),
{
    lemma_steps_unit(d);
    lemma_axis_exact(nr, row_step(d), r0, len);
    lemma_axis_exact(nc, col_step(d), c0, len);
}

/// A word whose length exceeds the extent its direction spans fits nowhere:
/// the immediate `DoesntFit` of the range computation loses no candidate.
pub proof fn lemma_misfit_no_fit(d: Direction, nr: int, nc: int, len: int, r0: int, c0: int)
    requires
        len >= 1,
        misfits(d, nr, nc, len),
    ensures
        !fits(nr, nc, d, r0, c0, len),
{
    lemma_steps_unit(d);
    lemma_ranges_exact(d, nr, nc, len, r0, c0);
}

/// Outside the misfit case the analytic interval of an axis is well formed:
/// its lower end does not exceed its upper end.
pub proof fn lemma_axis_range_nonempty(n: int, s: int, len: int)
    requires
        len >= 1,
        n >= 0,
        s == -1 || s == 0 || s == 1,
        !(len > n && s != 0),
    ensures
        0 <= axis_lo(n, s, len) <= axis_hi(n, s, len) <= n,
{
}

/// A word longer than both grid extents fits nowhere in any direction, and
/// every direction's range computation rejects it outright.
pub proof fn lemma_oversized_word_never_fits(
    d: Direction,
    nr: int,
    nc: int,
    len: int,
    r0: int,
    c0: int,
)
    requires
        len >= 1,
        len > nr,
        len > nc,
    ensures
        misfits(d, nr, nc, len),
        !fits(nr, nc, d, r0, c0, len),
{
    lemma_steps_unit(d);
    lemma_misfit_no_fit(d, nr, nc, len, r0, c0);
}

/// Distinct steps of one walk land on distinct cells, because every
/// direction moves by a nonzero stride along at least one axis.
pub proof fn lemma_path_injective(d: Direction, r0: int, c0: int, i: int, j: int)
    requires
        i != j,
    ensures
        pos_row(d, r0, i) != pos_row(d, r0, j) || pos_col(d, c0, i) != pos_col(d, c0, j),
{
    lemma_steps_unit(d);
    assert(row_step(d) == 1 || row_step(d) == -1 ==> i * row_step(d) != j * row_step(d))
        by (nonlinear_arith)
        requires
            i != j,
    ;
    assert(col_step(d) == 1 || col_step(d) == -1 ==> i * col_step(d) != j * col_step(d))
        by (nonlinear_arith)
        requires
            i != j,
    ;
}

/// Advancing one step moves an axis position by its stride.
pub proof fn lemma_axis_pos_step(x0: int, s: int, i: int)
    ensures
        axis_pos(x0, s, i) + s == axis_pos(x0, s, i + 1),
{
    assert((i + 1) * s == i * s + s) by (nonlinear_arith);
}

/// The first `i` steps of a walk never revisit the `i`-th cell.
pub proof fn lemma_step_not_on_prefix(d: Direction, r0: int, c0: int, i: int)
    ensures
        !on_path(d, r0, c0, i, pos_row(d, r0, i), pos_col(d, c0, i)),
{
    if on_path(d, r0, c0, i, pos_row(d, r0, i), pos_col(d, c0, i)) {
        let j = choose|j: int|
            0 <= j < i && pos_row(d, r0, i) == #[trigger] pos_row(d, r0, j) && pos_col(d, c0, i)
                == pos_col(d, c0, j);
        lemma_path_injective(d, r0, c0, i, j);
    }
}

/// A cell off the first `len + 1` steps of a walk is off the first `len`
/// steps and differs from the `len`-th cell.
pub proof fn lemma_on_path_shrink(d: Direction, r0: int, c0: int, len: int, r: int, c: int)
    requires
        len >= 0,
        !on_path(d, r0, c0, len + 1, r, c),
    ensures
        !on_path(d, r0, c0, len, r, c),
        !(r == pos_row(d, r0, len) && c == pos_col(d, c0, len)),
{
    if on_path(d, r0, c0, len, r, c) {
        let j = choose|j: int|
            0 <= j < len && r == #[trigger] pos_row(d, r0, j) && c == pos_col(d, c0, j);
        assert(0 <= j < len + 1 && r == pos_row(d, r0, j) && c == pos_col(d, c0, j));
        assert(on_path(d, r0, c0, len + 1, r, c));
    }
    if r == pos_row(d, r0, len) && c == pos_col(d, c0, len) {
        assert(0 <= len < len + 1 && r == pos_row(d, r0, len) && c == pos_col(d, c0, len));
        assert(on_path(d, r0, c0, len + 1, r, c));
    }
}

/// How one committed placement changes a grid: each covered cell now shows
/// the word's letter and its cover count has grown by one; every other cell
/// is untouched.
pub open spec fn commit_rel(
    pre: Field,
    post: Field,
    w: Seq<char>,
    d: Direction,
    r0: int,
    c0: int,
) -> bool {
    &&& post.n_rows == pre.n_rows
    &&& post.n_cols == pre.n_cols
    &&& forall|i: int|
        0 <= i < w.len() ==> #[trigger] post.cell(pos_row(d, r0, i), pos_col(d, c0, i)) == w[i]
    &&& forall|i: int|
        0 <= i < w.len() ==> #[trigger] post.cnt(pos_row(d, r0, i), pos_col(d, c0, i)) == pre.cnt(
            pos_row(d, r0, i),
            pos_col(d, c0, i),
        ) + 1
    &&& forall|r: int, c: int|
        in_bounds(pre.n_rows as int, pre.n_cols as int, r, c) && !on_path(
            d,
            r0,
            c0,
            w.len() as int,
            r,
            c,
        ) ==> #[trigger] post.cell(r, c) == pre.cell(r, c)
    &&& forall|r: int, c: int|
        in_bounds(pre.n_rows as int, pre.n_cols as int, r, c) && !on_path(
            d,
            r0,
            c0,
            w.len() as int,
            r,
            c,
        ) ==> #[trigger] post.cnt(r, c) == pre.cnt(r, c)
}

/// How undoing one placement changes a grid: each covered cell loses one
/// cover, and a cell whose last cover went away shows the empty marker
/// again; every other cell is untouched.
pub open spec fn uncommit_rel(
    pre: Field,
    post: Field,
    w: Seq<char>,
    d: Direction,
    r0: int,
    c0: int,
) -> bool {
    &&& post.n_rows == pre.n_rows
    &&& post.n_cols == pre.n_cols
    &&& forall|i: int|
        0 <= i < w.len() ==> #[trigger] post.cnt(pos_row(d, r0, i), pos_col(d, c0, i)) == pre.cnt(
            pos_row(d, r0, i),
            pos_col(d, c0, i),
        ) - 1
    &&& forall|i: int|
        0 <= i < w.len() ==> #[trigger] post.cell(pos_row(d, r0, i), pos_col(d, c0, i)) == (if pre.cnt(
            pos_row(d, r0, i),
            pos_col(d, c0, i),
        ) == 1 {
            DEFAULT_CHAR
        } else {
            pre.cell(pos_row(d, r0, i), pos_col(d, c0, i))
        })
    &&& forall|r: int, c: int|
        in_bounds(pre.n_rows as int, pre.n_cols as int, r, c) && !on_path(
            d,
            r0,
            c0,
            w.len() as int,
            r,
            c,
        ) ==> #[trigger] post.cell(r, c) == pre.cell(r, c)
    &&& forall|r: int, c: int|
        in_bounds(pre.n_rows as int, pre.n_cols as int, r, c) && !on_path(
            d,
            r0,
            c0,
            w.len() as int,
            r,
            c,
        ) ==> #[trigger] post.cnt(r, c) == pre.cnt(r, c)
}

/// A pair of half-open index ranges: the valid start rows and start columns
/// of a placement.  The candidate start positions are their Cartesian
/// product.
#[derive(Debug, PartialEq, Eq)]
pub struct PosRanges {
    pub rows: core::ops::Range<usize>,
    pub cols: core::ops::Range<usize>,
}

impl PosRanges {
    pub fn new(rows: core::ops::Range<usize>, cols: core::ops::Range<usize>) -> (r: Self)
        ensures
            r.rows == rows,
            r.cols == cols,
    {
        Self { rows, cols }
    }
}

/// A grid position, signed so that a walk may be tested against the lower
/// bounds before any clamp to an unsigned index.
#[derive(PartialEq, Eq, Structural, Debug, Clone, Copy)]
pub struct Coordinate {
    pub row: isize,
    pub col: isize,
}

impl Coordinate {
    pub fn new(row: isize, col: isize) -> (r: Self)
        ensures
            r.row == row,
            r.col == col,
    {
        Coordinate { row, col }
    }

    /// Componentwise vector addition.
    pub fn add(self, rhs: Coordinate) -> (r: Coordinate)
        requires
            isize::MIN <= self.row + rhs.row <= isize::MAX,
            isize::MIN <= self.col + rhs.col <= isize::MAX,
        ensures
            r.row == self.row + rhs.row,
            r.col == self.col + rhs.col,
    {
        let row = self.row + rhs.row;
        let col = self.col + rhs.col;
        Coordinate { row, col }
    }
}

/// A finite walk over grid coordinates: starting somewhere, it yields the
/// current coordinate and advances by a direction's unit offset, and stops
/// for good the moment the coordinate leaves the grid.
pub struct CoordinateGenerator {
    pub n_rows: isize,
    pub n_cols: isize,
    pub curr: Coordinate,
    pub offset: Coordinate,
}

impl CoordinateGenerator {
    pub open spec fn inv(self) -> bool {
        &&& self.n_rows >= 0
        &&& self.n_cols >= 0
        &&& -1 <= self.offset.row <= 1
        &&& -1 <= self.offset.col <= 1
    }

    /// The generator walks direction `d` inside a grid of `f`'s extents.
    pub open spec fn tracks(self, f: Field, d: Direction) -> bool {
        &&& self.inv()
        &&& self.n_rows as int == f.n_rows as int
        &&& self.n_cols as int == f.n_cols as int
        &&& self.offset.row as int == row_step(d)
        &&& self.offset.col as int == col_step(d)
    }

    pub fn new(field: &Field, start_coordinate: Coordinate, direction: &Direction) -> (g: Self)
        requires
            field.wf(),
        ensures
            g.tracks(*field, *direction),
            g.curr == start_coordinate,
    {
        let offset = match direction {
            Direction::Right => Coordinate::new(0, 1),
            Direction::Left => Coordinate::new(0, -1),
            Direction::Up => Coordinate::new(-1, 0),
            Direction::Down => Coordinate::new(1, 0),
            Direction::RightUp => Coordinate::new(-1, 1),
            Direction::RightDown => Coordinate::new(1, 1),
            Direction::LeftUp => Coordinate::new(-1, -1),
            Direction::LeftDown => Coordinate::new(1, -1),
        };

        CoordinateGenerator {
            n_rows: field.n_rows as isize,
            n_cols: field.n_cols as isize,
            curr: start_coordinate,
            offset,
        }
    }

    /// Yields the current coordinate while it is still inside the grid and
    /// advances by the offset; yields nothing once the walk has left.
    pub fn next(&mut self) -> (r: Option<Coordinate>)
        requires
            old(self).inv(),
        ensures
            final(self).inv(),
            final(self).n_rows == old(self).n_rows,
            final(self).n_cols == old(self).n_cols,
            final(self).offset == old(self).offset,
            in_bounds(
                old(self).n_rows as int,
                old(self).n_cols as int,
                old(self).curr.row as int,
                old(self).curr.col as int,
            ) ==> {
                &&& r == Some(old(self).curr)
                &&& final(self).curr.row as int == old(self).curr.row as int + old(self).offset.row as int
                &&& final(self).curr.col as int == old(self).curr.col as int + old(self).offset.col as int
            },
            !in_bounds(
                old(self).n_rows as int,
                old(self).n_cols as int,
                old(self).curr.row as int,
                old(self).curr.col as int,
            ) ==> r == None::<Coordinate> && final(self).curr == old(self).curr,
    {
        if self.curr.row >= self.n_rows || self.curr.col >= self.n_cols || self.curr.row < 0
            || self.curr.col < 0 {
            None
        } else {
            let old_coordinate = self.curr;
            let new_coordinate = old_coordinate.add(self.offset);
            self.curr = new_coordinate;
            Some(old_coordinate)
        }
    }
}

/// The grid: a fixed `n_rows x n_cols` array of cells.  Each cell holds the
/// letter it shows and the number of committed placements covering it; a
/// count of zero means the cell is empty and shows [`DEFAULT_CHAR`].
pub struct Field {
    pub n_rows: usize,
    pub n_cols: usize,
    pub grid: Vec<Vec<char>>,
    pub counts: Vec<Vec<usize>>,
}

impl Field {
    /// The letter cell `(r, c)` shows.
    pub open spec fn cell(self, r: int, c: int) -> char {
        self.grid@[r]@[c]
    }

    /// How many committed placements cover cell `(r, c)`.
    pub open spec fn cnt(self, r: int, c: int) -> int {
        self.counts@[r]@[c] as int
    }

    /// Structural soundness: both arrays are exactly `n_rows x n_cols`, the
    /// extents fit a signed index, and an uncovered cell shows the empty
    /// marker.
    pub open spec fn wf(self) -> bool {
        &&& self.grid@.len() == self.n_rows
        &&& self.counts@.len() == self.n_rows
        &&& forall|r: int| 0 <= r < self.n_rows ==> #[trigger] self.grid@[r]@.len() == self.n_cols
        &&& forall|r: int|
            0 <= r < self.n_rows ==> #[trigger] self.counts@[r]@.len() == self.n_cols
        &&& forall|r: int, c: int|
            in_bounds(self.n_rows as int, self.n_cols as int, r, c) && self.cnt(r, c) == 0
                ==> #[trigger] self.cell(r, c) == DEFAULT_CHAR
        &&& self.n_rows <= isize::MAX as usize
        &&& self.n_cols <= isize::MAX as usize
    }

    /// Every cell is uncovered and shows the empty marker.
    pub open spec fn all_empty(self) -> bool {
        forall|r: int, c: int|
            in_bounds(self.n_rows as int, self.n_cols as int, r, c) ==> #[trigger] self.cnt(r, c)
                == 0
    }

    /// Letter `i` of the word is acceptable at its cell: the cell is either
    /// empty or already shows exactly that letter.
    pub open spec fn compatible_at(
        self,
        w: Seq<char>,
        d: Direction,
        r0: int,
        c0: int,
        i: int,
    ) -> bool {
        self.cnt(pos_row(d, r0, i), pos_col(d, c0, i)) == 0 || self.cell(
            pos_row(d, r0, i),
            pos_col(d, c0, i),
        ) == w[i]
    }

    /// The whole word stays in bounds from this start along this direction
    /// and conflicts with no letter already on the grid: validation succeeds.
    pub open spec fn can_place(self, w: Seq<char>, d: Direction, r0: int, c0: int) -> bool {
        &&& fits(self.n_rows as int, self.n_cols as int, d, r0, c0, w.len() as int)
        &&& forall|i: int| 0 <= i < w.len() ==> #[trigger] self.compatible_at(w, d, r0, c0, i)
    }

    /// Reading `w.len()` cells from `(r0, c0)` along `d` spells out `w`.
    pub open spec fn word_readable_at(self, w: Seq<char>, d: Direction, r0: int, c0: int) -> bool {
        &&& fits(self.n_rows as int, self.n_cols as int, d, r0, c0, w.len() as int)
        &&& forall|i: int|
            0 <= i < w.len() ==> #[trigger] self.cell(pos_row(d, r0, i), pos_col(d, c0, i)) == w[i]
    }

    /// An empty grid of the given extents.
    pub fn new(n_rows: usize, n_cols: usize) -> (r: Self)
        requires
            n_rows <= isize::MAX as usize,
            n_cols <= isize::MAX as usize,
        ensures
            r.wf(),
            r.n_rows == n_rows,
            r.n_cols == n_cols,
            r.all_empty(),
            forall|rr: int, cc: int|
                in_bounds(n_rows as int, n_cols as int, rr, cc) ==> #[trigger] r.cell(rr, cc)
                    == DEFAULT_CHAR,
    {
        let mut grid: Vec<Vec<char>> = Vec::new();
        let mut counts: Vec<Vec<usize>> = Vec::new();
        while grid.len() < n_rows
            invariant
                grid@.len() == counts@.len() <= n_rows,
                forall|r: int| 0 <= r < grid@.len() ==> #[trigger] grid@[r]@.len() == n_cols,
                forall|r: int| 0 <= r < counts@.len() ==> #[trigger] counts@[r]@.len() == n_cols,
                forall|r: int, c: int|
                    0 <= r < grid@.len() && 0 <= c < n_cols ==> #[trigger] grid@[r]@[c]
                        == DEFAULT_CHAR,
                forall|r: int, c: int|
                    0 <= r < counts@.len() && 0 <= c < n_cols ==> #[trigger] counts@[r]@[c]
                        == 0usize,
            decreases n_rows - grid.len(),
        {
            let mut row: Vec<char> = Vec::new();
            let mut cnt_row: Vec<usize> = Vec::new();
            while row.len() < n_cols
                invariant
                    row@.len() == cnt_row@.len() <= n_cols,
                    forall|c: int| 0 <= c < row@.len() ==> #[trigger] row@[c] == DEFAULT_CHAR,
                    forall|c: int| 0 <= c < cnt_row@.len() ==> #[trigger] cnt_row@[c] == 0usize,
                decreases n_cols - row.len(),
            {
                row.push(DEFAULT_CHAR);
                cnt_row.push(0);
            }
            grid.push(row);
            counts.push(cnt_row);
        }
        let r = Field { n_rows, n_cols, grid, counts };
        proof {
            assert forall|rr: int, cc: int|
                #![trigger r.cell(rr, cc)]
                #![trigger r.cnt(rr, cc)]
                in_bounds(n_rows as int, n_cols as int, rr, cc) implies r.cell(rr, cc)
                == DEFAULT_CHAR && r.cnt(rr, cc) == 0 by {
                assert(r.grid@[rr]@[cc] == DEFAULT_CHAR);
                assert(r.counts@[rr]@[cc] == 0usize);
            }
        }
        r
    }

    /// The analytic ranges of start positions from which the word fits along
    /// the direction, or `DoesntFit` when the word is longer than an extent
    /// the direction spans, so no start can work.
    ///
    /// By [`lemma_ranges_exact`], the returned ranges hold exactly the start
    /// positions from which the whole word stays in bounds.
    pub fn get_possible_positions(&self, word: &str, direction: &Direction) -> (r: Result<
        PosRanges,
        WordAddError,
    >)
        requires
            self.wf(),
            word@.len() >= 1,
        ensures
            r is Err <==> misfits(*direction, self.n_rows as int, self.n_cols as int, word@.len() as int),
            r matches Ok(pr) ==> {
                &&& pr.rows.start == axis_lo(self.n_rows as int, row_step(*direction), word@.len() as int)
                &&& pr.rows.end == axis_hi(self.n_rows as int, row_step(*direction), word@.len() as int)
                &&& pr.cols.start == axis_lo(self.n_cols as int, col_step(*direction), word@.len() as int)
                &&& pr.cols.end == axis_hi(self.n_cols as int, col_step(*direction), word@.len() as int)
            },
    {
        let rows = self.n_rows;
        let cols = self.n_cols;
        let len = word.unicode_len();

        let horizontal_component = match direction {
            Direction::Up | Direction::Down => false,
            _ => true,
        };
        let vertical_component = match direction {
            Direction::Right | Direction::Left => false,
            _ => true,
        };
        if (len > cols && horizontal_component) || (len > rows && vertical_component) {
            return Err(WordAddError::DoesntFit);
        }

        Ok(
            match direction {
                Direction::Right => PosRanges::new(0..rows, 0..(cols - len + 1)),
                Direction::Left => PosRanges::new(0..rows, (len - 1)..cols),
                Direction::Down => PosRanges::new(0..(rows - len + 1), 0..cols),
                Direction::Up => PosRanges::new((len - 1)..rows, 0..cols),
                Direction::RightUp => PosRanges::new((len - 1)..rows, 0..(cols - len + 1)),
                Direction::RightDown => PosRanges::new(0..(rows - len + 1), 0..(cols - len + 1)),
                Direction::LeftUp => PosRanges::new((len - 1)..rows, (len - 1)..cols),
                Direction::LeftDown => PosRanges::new(0..(rows - len + 1), (len - 1)..cols),
            },
        )
    }

    /// Validation of a single candidate placement: walk the word's cells and
    /// succeed exactly when every one stays in bounds and is empty or already
    /// shows the word's letter there.  The grid is not changed.
    pub fn try_fit(&self, word: &str, direction: &Direction, start_coordinate: &Coordinate) -> (r:
        Result<(), WordAddError>)
        requires
            self.wf(),
            word@.len() >= 1,
        ensures
            r is Ok <==> self.can_place(
                word@,
                *direction,
                start_coordinate.row as int,
                start_coordinate.col as int,
            ),
    {
        let ghost d = *direction;
        let ghost r0 = start_coordinate.row as int;
        let ghost c0 = start_coordinate.col as int;
        let ghost nr = self.n_rows as int;
        let ghost nc = self.n_cols as int;
        let len = word.unicode_len();
        let mut gen = CoordinateGenerator::new(self, *start_coordinate, direction);
        let mut i: usize = 0;
        while i < len
            invariant
                self.wf(),
                len == word@.len(),
                nr == self.n_rows as int,
                nc == self.n_cols as int,
                gen.tracks(*self, d),
                d == *direction,
                r0 == start_coordinate.row as int,
                c0 == start_coordinate.col as int,
                gen.curr.row as int == pos_row(d, r0, i as int),
                gen.curr.col as int == pos_col(d, c0, i as int),
                i <= len,
                forall|j: int|
                    0 <= j < i ==> #[trigger] in_bounds(nr, nc, pos_row(d, r0, j), pos_col(d, c0, j)),
                forall|j: int| 0 <= j < i ==> #[trigger] self.compatible_at(word@, d, r0, c0, j),
            decreases len - i,
        {
            match gen.next() {
                None => {
                    proof {
                        assert(!in_bounds(nr, nc, pos_row(d, r0, i as int), pos_col(d, c0, i as int)));
                        if fits(nr, nc, d, r0, c0, len as int) {
                            assert(0 <= axis_pos(r0, row_step(d), i as int) < nr);
                            assert(0 <= axis_pos(c0, col_step(d), i as int) < nc);
                        }
                    }
                    return Err(WordAddError::DoesntFit);
                },
                Some(coordinate) => {
                    proof {
                        assert(in_bounds(nr, nc, coordinate.row as int, coordinate.col as int));
                        lemma_axis_pos_step(r0, row_step(d), i as int);
                        lemma_axis_pos_step(c0, col_step(d), i as int);
                    }
                    let row = coordinate.row as usize;
                    let col = coordinate.col as usize;
                    let word_letter = word.get_char(i);
                    let field_letter = self.grid[row][col];
                    let cell_count = self.counts[row][col];
                    if cell_count != 0 && word_letter != field_letter {
                        proof {
                            assert(!self.compatible_at(word@, d, r0, c0, i as int));
                        }
                        return Err(WordAddError::DoesntFit);
                    }
                },
            }
            i += 1;
        }
        proof {
            assert forall|ii: int| 0 <= ii < len implies 0 <= #[trigger] axis_pos(
                r0,
                row_step(d),
                ii,
            ) < nr by {
                assert(in_bounds(nr, nc, pos_row(d, r0, ii), pos_col(d, c0, ii)));
            }
            assert forall|ii: int| 0 <= ii < len implies 0 <= #[trigger] axis_pos(
                c0,
                col_step(d),
                ii,
            ) < nc by {
                assert(in_bounds(nr, nc, pos_row(d, r0, ii), pos_col(d, c0, ii)));
            }
            assert(fits(nr, nc, d, r0, c0, len as int));
        }
        Ok(())
    }

    /// The letters of `len` cells read from a start coordinate along a
    /// direction, or `None` when such a read would leave the grid.
    pub fn read_word(&self, direction: &Direction, start_coordinate: &Coordinate, len: usize) -> (r:
        Option<Vec<char>>)
        requires
            self.wf(),
        ensures
            r is Some <==> fits(
                self.n_rows as int,
                self.n_cols as int,
                *direction,
                start_coordinate.row as int,
                start_coordinate.col as int,
                len as int,
            ),
            r matches Some(v) ==> v@.len() == len && forall|i: int|
                0 <= i < len ==> v@[i] == #[trigger] self.cell(
                    pos_row(*direction, start_coordinate.row as int, i),
                    pos_col(*direction, start_coordinate.col as int, i),
                ),
    {
        let ghost d = *direction;
        let ghost r0 = start_coordinate.row as int;
        let ghost c0 = start_coordinate.col as int;
        let ghost nr = self.n_rows as int;
        let ghost nc = self.n_cols as int;
        let mut gen = CoordinateGenerator::new(self, *start_coordinate, direction);
        let mut letters: Vec<char> = Vec::new();
        let mut i: usize = 0;
        while i < len
            invariant
                self.wf(),
                nr == self.n_rows as int,
                nc == self.n_cols as int,
                gen.tracks(*self, d),
                d == *direction,
                r0 == start_coordinate.row as int,
                c0 == start_coordinate.col as int,
                gen.curr.row as int == pos_row(d, r0, i as int),
                gen.curr.col as int == pos_col(d, c0, i as int),
                i <= len,
                letters@.len() == i,
                forall|j: int|
                    0 <= j < i ==> #[trigger] in_bounds(nr, nc, pos_row(d, r0, j), pos_col(d, c0, j)),
                forall|j: int|
                    0 <= j < i ==> letters@[j] == #[trigger] self.cell(
                        pos_row(d, r0, j),
                        pos_col(d, c0, j),
                    ),
            decreases len - i,
        {
            match gen.next() {
                None => {
                    proof {
                        if fits(nr, nc, d, r0, c0, len as int) {
                            assert(0 <= axis_pos(r0, row_step(d), i as int) < nr);
                            assert(0 <= axis_pos(c0, col_step(d), i as int) < nc);
                        }
                    }
                    return None;
                },
                Some(coordinate) => {
                    proof {
                        assert(in_bounds(nr, nc, coordinate.row as int, coordinate.col as int));
                        lemma_axis_pos_step(r0, row_step(d), i as int);
                        lemma_axis_pos_step(c0, col_step(d), i as int);
                    }
                    let row = coordinate.row as usize;
                    let col = coordinate.col as usize;
                    letters.push(self.grid[row][col]);
                },
            }
            i += 1;
        }
        proof {
            assert forall|ii: int| 0 <= ii < len implies 0 <= #[trigger] axis_pos(
                r0,
                row_step(d),
                ii,
            ) < nr by {
                assert(in_bounds(nr, nc, pos_row(d, r0, ii), pos_col(d, c0, ii)));
            }
            assert forall|ii: int| 0 <= ii < len implies 0 <= #[trigger] axis_pos(
                c0,
                col_step(d),
                ii,
            ) < nc by {
                assert(in_bounds(nr, nc, pos_row(d, r0, ii), pos_col(d, c0, ii)));
            }
            assert(fits(nr, nc, d, r0, c0, len as int));
        }
        Some(letters)
    }

    /// Commit a placement: write each letter of the word into its cell and
    /// raise that cell's cover count by one.  Must only be called after
    /// [`Self::try_fit`] succeeded for the same arguments; it re-validates
    /// nothing.
    pub fn put_into_grid(&mut self, word: &str, direction: &Direction, start_coordinate: &Coordinate)
        requires
            old(self).wf(),
            word@.len() >= 1,
            old(self).can_place(
                word@,
                *direction,
                start_coordinate.row as int,
                start_coordinate.col as int,
            ),
            forall|i: int|
                0 <= i < word@.len() ==> #[trigger] old(self).cnt(
                    pos_row(*direction, start_coordinate.row as int, i),
                    pos_col(*direction, start_coordinate.col as int, i),
                ) < usize::MAX,
        ensures
            final(self).wf(),
            commit_rel(
                *old(self),
                *final(self),
                word@,
                *direction,
                start_coordinate.row as int,
                start_coordinate.col as int,
            ),
    {
        let ghost d = *direction;
        let ghost r0 = start_coordinate.row as int;
        let ghost c0 = start_coordinate.col as int;
        let ghost nr = old(self).n_rows as int;
        let ghost nc = old(self).n_cols as int;
        let len = word.unicode_len();
        let mut gen = CoordinateGenerator::new(self, *start_coordinate, direction);
        let mut i: usize = 0;
        while i < len
            invariant
                old(self).wf(),
                len == word@.len(),
                word@.len() >= 1,
                nr == self.n_rows as int == old(self).n_rows as int,
                nc == self.n_cols as int == old(self).n_cols as int,
                self.grid@.len() == old(self).grid@.len(),
                self.counts@.len() == old(self).counts@.len(),
                forall|r: int| 0 <= r < nr ==> #[trigger] self.grid@[r]@.len() == nc,
                forall|r: int| 0 <= r < nr ==> #[trigger] self.counts@[r]@.len() == nc,
                gen.tracks(*self, d),
                d == *direction,
                r0 == start_coordinate.row as int,
                c0 == start_coordinate.col as int,
                old(self).can_place(word@, d, r0, c0),
                forall|j: int|
                    0 <= j < word@.len() ==> #[trigger] old(self).cnt(
                        pos_row(d, r0, j),
                        pos_col(d, c0, j),
                    ) < usize::MAX,
                gen.curr.row as int == pos_row(d, r0, i as int),
                gen.curr.col as int == pos_col(d, c0, i as int),
                i <= len,
                forall|j: int|
                    #![trigger pos_row(d, r0, j)]
                    0 <= j < i ==> self.cell(pos_row(d, r0, j), pos_col(d, c0, j)) == word@[j]
                        && self.cnt(pos_row(d, r0, j), pos_col(d, c0, j)) == old(self).cnt(
                        pos_row(d, r0, j),
                        pos_col(d, c0, j),
                    ) + 1,
                forall|r: int, c: int|
                    #![trigger old(self).cell(r, c)]
                    #![trigger old(self).cnt(r, c)]
                    in_bounds(nr, nc, r, c) && !on_path(d, r0, c0, i as int, r, c) ==> self.cell(
                        r,
                        c,
                    ) == old(self).cell(r, c) && self.cnt(r, c) == old(self).cnt(r, c),
            decreases len - i,
        {
            proof {
                // The word fits, so step i is still inside the grid.
                assert(0 <= axis_pos(r0, row_step(d), i as int) < nr);
                assert(0 <= axis_pos(c0, col_step(d), i as int) < nc);
            }
            match gen.next() {
                None => {
                    proof {
                        assert(false);
                    }
                    return;
                },
                Some(coordinate) => {
                    proof {
                        lemma_axis_pos_step(r0, row_step(d), i as int);
                        lemma_axis_pos_step(c0, col_step(d), i as int);
                        lemma_step_not_on_prefix(d, r0, c0, i as int);
                        assert(coordinate.row as int == pos_row(d, r0, i as int));
                        assert(coordinate.col as int == pos_col(d, c0, i as int));
                        assert(self.cell(pos_row(d, r0, i as int), pos_col(d, c0, i as int)) == old(
                            self,
                        ).cell(pos_row(d, r0, i as int), pos_col(d, c0, i as int)));
                        assert(self.cnt(pos_row(d, r0, i as int), pos_col(d, c0, i as int)) == old(
                            self,
                        ).cnt(pos_row(d, r0, i as int), pos_col(d, c0, i as int)));
                    }
                    let row = coordinate.row as usize;
                    let col = coordinate.col as usize;
                    let letter = word.get_char(i);
                    let cell_count = self.counts[row][col];
                    self.grid[row][col] = letter;
                    self.counts[row][col] = cell_count + 1;
                    proof {
                        assert(row as int == pos_row(d, r0, i as int));
                        assert(col as int == pos_col(d, c0, i as int));
                        assert forall|j: int|
                            #![trigger pos_row(d, r0, j)]
                            0 <= j < i + 1 implies self.cell(pos_row(d, r0, j), pos_col(d, c0, j))
                            == word@[j] && self.cnt(pos_row(d, r0, j), pos_col(d, c0, j)) == old(
                            self,
                        ).cnt(pos_row(d, r0, j), pos_col(d, c0, j)) + 1 by {
                            if j < i {
                                lemma_path_injective(d, r0, c0, j, i as int);
                            }
                        }
                        assert forall|r: int, c: int|
                            #![trigger old(self).cell(r, c)]
                            #![trigger old(self).cnt(r, c)]
                            in_bounds(nr, nc, r, c) && !on_path(d, r0, c0, i as int + 1, r, c)
                            implies self.cell(r, c) == old(self).cell(r, c) && self.cnt(r, c)
                            == old(self).cnt(r, c) by {
                            lemma_on_path_shrink(d, r0, c0, i as int, r, c);
                        }
                    }
                },
            }
            i += 1;
        }
        proof {
            assert forall|r: int, c: int|
                in_bounds(nr, nc, r, c) && self.cnt(r, c) == 0 implies #[trigger] self.cell(r, c)
                == DEFAULT_CHAR by {
                if on_path(d, r0, c0, len as int, r, c) {
                    let j = choose|j: int|
                        0 <= j < len && r == #[trigger] pos_row(d, r0, j) && c == pos_col(d, c0, j);
                    assert(self.cnt(pos_row(d, r0, j), pos_col(d, c0, j)) >= 1);
                } else {
                    assert(old(self).cell(r, c) == self.cell(r, c));
                    assert(old(self).cnt(r, c) == self.cnt(r, c));
                }
            }
        }
    }

    /// Undo a committed placement: lower the cover count of each covered
    /// cell by one, and blank exactly the cells no other committed placement
    /// still covers.
    pub fn remove_from_grid(
        &mut self,
        word: &str,
        direction: &Direction,
        start_coordinate: &Coordinate,
    )
        requires
            old(self).wf(),
            word@.len() >= 1,
            fits(
                old(self).n_rows as int,
                old(self).n_cols as int,
                *direction,
                start_coordinate.row as int,
                start_coordinate.col as int,
                word@.len() as int,
            ),
            forall|i: int|
                0 <= i < word@.len() ==> #[trigger] old(self).cnt(
                    pos_row(*direction, start_coordinate.row as int, i),
                    pos_col(*direction, start_coordinate.col as int, i),
                ) >= 1,
        ensures
            final(self).wf(),
            uncommit_rel(
                *old(self),
                *final(self),
                word@,
                *direction,
                start_coordinate.row as int,
                start_coordinate.col as int,
            ),
    {
        let ghost d = *direction;
        let ghost r0 = start_coordinate.row as int;
        let ghost c0 = start_coordinate.col as int;
        let ghost nr = old(self).n_rows as int;
        let ghost nc = old(self).n_cols as int;
        let len = word.unicode_len();
        let mut gen = CoordinateGenerator::new(self, *start_coordinate, direction);
        let mut i: usize = 0;
        while i < len
            invariant
                old(self).wf(),
                len == word@.len(),
                word@.len() >= 1,
                nr == self.n_rows as int == old(self).n_rows as int,
                nc == self.n_cols as int == old(self).n_cols as int,
                self.grid@.len() == old(self).grid@.len(),
                self.counts@.len() == old(self).counts@.len(),
                forall|r: int| 0 <= r < nr ==> #[trigger] self.grid@[r]@.len() == nc,
                forall|r: int| 0 <= r < nr ==> #[trigger] self.counts@[r]@.len() == nc,
                gen.tracks(*self, d),
                d == *direction,
                r0 == start_coordinate.row as int,
                c0 == start_coordinate.col as int,
                fits(nr, nc, d, r0, c0, len as int),
                forall|j: int|
                    0 <= j < word@.len() ==> #[trigger] old(self).cnt(
                        pos_row(d, r0, j),
                        pos_col(d, c0, j),
                    ) >= 1,
                gen.curr.row as int == pos_row(d, r0, i as int),
                gen.curr.col as int == pos_col(d, c0, i as int),
                i <= len,
                forall|j: int|
                    #![trigger pos_row(d, r0, j)]
                    0 <= j < i ==> self.cnt(pos_row(d, r0, j), pos_col(d, c0, j)) == old(self).cnt(
                        pos_row(d, r0, j),
                        pos_col(d, c0, j),
                    ) - 1 && self.cell(pos_row(d, r0, j), pos_col(d, c0, j)) == (if old(self).cnt(
                        pos_row(d, r0, j),
                        pos_col(d, c0, j),
                    ) == 1 {
                        DEFAULT_CHAR
                    } else {
                        old(self).cell(pos_row(d, r0, j), pos_col(d, c0, j))
                    }),
                forall|r: int, c: int|
                    #![trigger old(self).cell(r, c)]
                    #![trigger old(self).cnt(r, c)]
                    in_bounds(nr, nc, r, c) && !on_path(d, r0, c0, i as int, r, c) ==> self.cell(
                        r,
                        c,
                    ) == old(self).cell(r, c) && self.cnt(r, c) == old(self).cnt(r, c),
            decreases len - i,
        {
            proof {
                assert(0 <= axis_pos(r0, row_step(d), i as int) < nr);
                assert(0 <= axis_pos(c0, col_step(d), i as int) < nc);
            }
            match gen.next() {
                None => {
                    proof {
                        assert(false);
                    }
                    return;
                },
                Some(coordinate) => {
                    proof {
                        lemma_axis_pos_step(r0, row_step(d), i as int);
                        lemma_axis_pos_step(c0, col_step(d), i as int);
                        lemma_step_not_on_prefix(d, r0, c0, i as int);
                        assert(coordinate.row as int == pos_row(d, r0, i as int));
                        assert(coordinate.col as int == pos_col(d, c0, i as int));
                        assert(old(self).cnt(pos_row(d, r0, i as int), pos_col(d, c0, i as int))
                            >= 1);
                        assert(self.cnt(pos_row(d, r0, i as int), pos_col(d, c0, i as int)) == old(
                            self,
                        ).cnt(pos_row(d, r0, i as int), pos_col(d, c0, i as int)));
                        assert(self.cell(pos_row(d, r0, i as int), pos_col(d, c0, i as int)) == old(
                            self,
                        ).cell(pos_row(d, r0, i as int), pos_col(d, c0, i as int)));
                    }
                    let row = coordinate.row as usize;
                    let col = coordinate.col as usize;
                    let cell_count = self.counts[row][col];
                    self.counts[row][col] = cell_count - 1;
                    if cell_count == 1 {
                        self.grid[row][col] = DEFAULT_CHAR;
                    }
                    proof {
                        assert(row as int == pos_row(d, r0, i as int));
                        assert(col as int == pos_col(d, c0, i as int));
                        assert forall|j: int|
                            #![trigger pos_row(d, r0, j)]
                            0 <= j < i + 1 implies self.cnt(pos_row(d, r0, j), pos_col(d, c0, j))
                            == old(self).cnt(pos_row(d, r0, j), pos_col(d, c0, j)) - 1 && self.cell(
                            pos_row(d, r0, j),
                            pos_col(d, c0, j),
                        ) == (if old(self).cnt(pos_row(d, r0, j), pos_col(d, c0, j)) == 1 {
                            DEFAULT_CHAR
                        } else {
                            old(self).cell(pos_row(d, r0, j), pos_col(d, c0, j))
                        }) by {
                            if j < i {
                                lemma_path_injective(d, r0, c0, j, i as int);
                            }
                        }
                        assert forall|r: int, c: int|
                            #![trigger old(self).cell(r, c)]
                            #![trigger old(self).cnt(r, c)]
                            in_bounds(nr, nc, r, c) && !on_path(d, r0, c0, i as int + 1, r, c)
                            implies self.cell(r, c) == old(self).cell(r, c) && self.cnt(r, c)
                            == old(self).cnt(r, c) by {
                            lemma_on_path_shrink(d, r0, c0, i as int, r, c);
                        }
                    }
                },
            }
            i += 1;
        }
        proof {
            assert forall|r: int, c: int|
                in_bounds(nr, nc, r, c) && self.cnt(r, c) == 0 implies #[trigger] self.cell(r, c)
                == DEFAULT_CHAR by {
                if on_path(d, r0, c0, len as int, r, c) {
                    let j = choose|j: int|
                        0 <= j < len && r == #[trigger] pos_row(d, r0, j) && c == pos_col(d, c0, j);
                    assert(self.cnt(pos_row(d, r0, j), pos_col(d, c0, j)) == old(self).cnt(
                        pos_row(d, r0, j),
                        pos_col(d, c0, j),
                    ) - 1);
                } else {
                    assert(old(self).cell(r, c) == self.cell(r, c));
                    assert(old(self).cnt(r, c) == self.cnt(r, c));
                }
            }
        }
    }
}

/// Round trip: after a committed placement, reading the grid along the same
/// direction from the same start for the word's length reproduces the word
/// exactly.
pub proof fn lemma_commit_round_trip(
    pre: Field,
    post: Field,
    w: Seq<char>,
    d: Direction,
    r0: int,
    c0: int,
)
    requires
        pre.can_place(w, d, r0, c0),
        commit_rel(pre, post, w, d, r0, c0),
    ensures
        post.word_readable_at(w, d, r0, c0),
{
}

/// Idempotence: re-validating a placement that was just committed succeeds,
/// and re-committing it changes no letter of the grid.
pub proof fn lemma_commit_idempotent(
    pre: Field,
    mid: Field,
    post: Field,
    w: Seq<char>,
    d: Direction,
    r0: int,
    c0: int,
)
    requires
        pre.can_place(w, d, r0, c0),
        commit_rel(pre, mid, w, d, r0, c0),
        commit_rel(mid, post, w, d, r0, c0),
    ensures
        mid.can_place(w, d, r0, c0),
        forall|r: int, c: int|
            in_bounds(mid.n_rows as int, mid.n_cols as int, r, c) ==> #[trigger] post.cell(r, c)
                == mid.cell(r, c),
{
    assert forall|i: int| 0 <= i < w.len() implies #[trigger] mid.compatible_at(
        w,
        d,
        r0,
        c0,
        i,
    ) by {
        assert(mid.cell(pos_row(d, r0, i), pos_col(d, c0, i)) == w[i]);
    }
    assert forall|r: int, c: int|
        in_bounds(mid.n_rows as int, mid.n_cols as int, r, c) implies #[trigger] post.cell(r, c)
        == mid.cell(r, c) by {
        if on_path(d, r0, c0, w.len() as int, r, c) {
            let i = choose|i: int|
                0 <= i < w.len() && r == #[trigger] pos_row(d, r0, i) && c == pos_col(d, c0, i);
            assert(mid.cell(pos_row(d, r0, i), pos_col(d, c0, i)) == w[i]);
            assert(post.cell(pos_row(d, r0, i), pos_col(d, c0, i)) == w[i]);
        }
    }
}

/// One grid row as it is displayed: its cells separated by single spaces,
/// closed by a newline.
pub open spec fn rendered_row(s: Seq<char>) -> Seq<char> {
    if s.len() == 0 {
        seq!['\n']
    } else {
        Seq::new(
            (2 * s.len()) as nat,
            |i: int|
                if i == 2 * s.len() - 1 {
                    '\n'
                } else if i % 2 == 0 {
                    s[i / 2]
                } else {
                    ' '
                },
        )
    }
}

/// A whole grid as it is displayed: each row rendered in order.
pub open spec fn rendered_grid(rows: Seq<Seq<char>>) -> Seq<char>
    decreases rows.len(),
{
    if rows.len() == 0 {
        Seq::empty()
    } else {
        rendered_grid(rows.drop_last()) + rendered_row(rows.last())
    }
}

/// Relies on `String`'s `FromIterator<char>` implementation: collecting
/// characters yields the string of exactly those characters in order.
#[verifier::external_body]
fn chars_to_string(v: &Vec<char>) -> (s: String)
    ensures
        s@ == v@,
{
    v.iter().collect()
}

/// Every start coordinate in the Cartesian product of the two ranges, row by
/// row.
pub(crate) fn starts_of_ranges(pr: &PosRanges) -> (v: Vec<Coordinate>)
    requires
        pr.rows.start <= pr.rows.end,
        pr.cols.start <= pr.cols.end,
        pr.rows.end <= isize::MAX as usize,
        pr.cols.end <= isize::MAX as usize,
    ensures
        forall|co: Coordinate| #[trigger]
            v@.contains(co) <==> (pr.rows.start <= (co.row as int) && (co.row as int) < pr.rows.end
                && pr.cols.start <= (co.col as int) && (co.col as int) < pr.cols.end),
        v@.len() == (pr.rows.end - pr.rows.start) * (pr.cols.end - pr.cols.start),
{
    broadcast use vstd::seq_lib::lemma_seq_contains_after_push;

    let mut v: Vec<Coordinate> = Vec::new();
    let mut r = pr.rows.start;
    while r < pr.rows.end
        invariant
            pr.rows.start <= r <= pr.rows.end,
            pr.cols.start <= pr.cols.end,
            pr.rows.end <= isize::MAX as usize,
            pr.cols.end <= isize::MAX as usize,
            v@.len() == (r - pr.rows.start) * (pr.cols.end - pr.cols.start),
            forall|co: Coordinate| #[trigger]
                v@.contains(co) <==> (pr.rows.start <= (co.row as int) && (co.row as int) < r as int
                    && pr.cols.start <= (co.col as int) && (co.col as int) < pr.cols.end),
        decreases pr.rows.end - r,
    {
        let ghost row_base = v@.len() as int;
        let mut c = pr.cols.start;
        while c < pr.cols.end
            invariant
                pr.rows.start <= r < pr.rows.end,
                pr.cols.start <= c <= pr.cols.end,
                pr.rows.end <= isize::MAX as usize,
                pr.cols.end <= isize::MAX as usize,
                row_base == (r - pr.rows.start) * (pr.cols.end - pr.cols.start),
                v@.len() == row_base + (c - pr.cols.start),
                forall|co: Coordinate| #[trigger]
                    v@.contains(co) <==> ((pr.rows.start <= (co.row as int) && (co.row as int) < r as int
                        && pr.cols.start <= (co.col as int) && (co.col as int) < pr.cols.end) || ((co.row as int)
                        == r as int && pr.cols.start <= (co.col as int) && (co.col as int) < c as int)),
            decreases pr.cols.end - c,
    {
            let co_new = Coordinate::new(r as isize, c as isize);
            let ghost prev = v@;
            v.push(co_new);
            proof {
                assert(v@ == prev.push(co_new));
                assert(co_new.row as int == r as int);
                assert(co_new.col as int == c as int);
                assert forall|co: Coordinate| #[trigger]
                    v@.contains(co) <==> (prev.contains(co) || co == co_new) by {
                    vstd::seq_lib::lemma_seq_contains_after_push(prev, co_new, co);
                }
            }
            c += 1;
        }
        proof {
            assert((r + 1 - pr.rows.start) * (pr.cols.end - pr.cols.start) == (r
                - pr.rows.start) * (pr.cols.end - pr.cols.start) + (pr.cols.end
                - pr.cols.start)) by (nonlinear_arith);
        }
        r += 1;
    }
    v
}

impl Field {
    /// The grid's letters as a sequence of rows.
    pub open spec fn cells_view(self) -> Seq<Seq<char>> {
        self.grid@.map_values(|v: Vec<char>| v@)
    }

    /// The display form of the grid: one line per row, cells separated by
    /// single spaces, empty cells shown as [`DEFAULT_CHAR`].
    pub fn render(&self) -> (s: String)
        requires
            self.wf(),
        ensures
            s@ == rendered_grid(self.cells_view()),
    {
        let mut out: Vec<char> = Vec::new();
        let mut r: usize = 0;
        while r < self.n_rows
            invariant
                self.wf(),
                r <= self.n_rows,
                out@ =~= rendered_grid(self.cells_view().take(r as int)),
            decreases self.n_rows - r,
        {
            let ghost prefix = out@;
            let ghost row_view = self.grid@[r as int]@;
            if self.n_cols == 0 {
                out.push('\n');
                proof {
                    assert(rendered_row(row_view) =~= seq!['\n']);
                    assert(out@ =~= prefix + rendered_row(row_view));
                }
            } else {
                let mut c: usize = 0;
                while c < self.n_cols
                    invariant
                        self.wf(),
                        r < self.n_rows,
                        c <= self.n_cols,
                        row_view == self.grid@[r as int]@,
                        prefix == rendered_grid(self.cells_view().take(r as int)),
                        c < self.n_cols ==> out@ =~= prefix + Seq::new(
                            (2 * c) as nat,
                            |i: int|
                                if i % 2 == 0 {
                                    row_view[i / 2]
                                } else {
                                    ' '
                                },
                        ),
                        c == self.n_cols ==> out@ =~= prefix + rendered_row(row_view),
                    decreases self.n_cols - c,
                {
                    out.push(self.grid[r][c]);
                    if c + 1 < self.n_cols {
                        out.push(' ');
                        proof {
                            assert(out@ =~= prefix + Seq::new(
                                (2 * (c + 1)) as nat,
                                |i: int|
                                    if i % 2 == 0 {
                                        row_view[i / 2]
                                    } else {
                                        ' '
                                    },
                            ));
                        }
                    } else {
                        out.push('\n');
                        proof {
                            assert(out@ =~= prefix + rendered_row(row_view));
                        }
                    }
                    c += 1;
                }
            }
            proof {
                let cv = self.cells_view();
                assert(cv.take(r as int + 1).drop_last() =~= cv.take(r as int));
                assert(cv.take(r as int + 1).last() == row_view);
                assert(out@ =~= rendered_grid(cv.take(r as int + 1)));
            }
            r += 1;
        }
        proof {
            assert(self.cells_view().take(self.n_rows as int) =~= self.cells_view());
        }
        chars_to_string(&out)
    }

    /// Try to place the word somewhere on the grid: directions are taken in
    /// the given order, and for each one the candidate start positions are
    /// tried in an order shuffled by `rng`.  The first candidate that
    /// validates is committed.  Fails with `DoesntFit` exactly when no
    /// direction of the list admits any valid placement, leaving the grid
    /// untouched.
    pub fn try_add(
        &mut self,
        rng: &mut rand::rngs::StdRng,
        word: &str,
        directions: &Vec<Direction>,
    ) -> (r: Result<(), WordAddError>)
        requires
            old(self).wf(),
            word@.len() >= 1,
            forall|rr: int, cc: int|
                in_bounds(old(self).n_rows as int, old(self).n_cols as int, rr, cc)
                    ==> #[trigger] old(self).cnt(rr, cc) < usize::MAX,
        ensures
            final(self).wf(),
            final(self).n_rows == old(self).n_rows,
            final(self).n_cols == old(self).n_cols,
            r is Err ==> *final(self) == *old(self),
            r is Err <==> !(exists|direction: Direction, r0: int, c0: int|
                directions@.contains(direction) && #[trigger] old(self).can_place(word@, direction, r0, c0)),
            r is Ok ==> (exists|direction: Direction, r0: int, c0: int|
                directions@.contains(direction) && #[trigger] old(self).can_place(word@, direction, r0, c0)
                    && commit_rel(*old(self), *final(self), word@, direction, r0, c0)),
            r is Ok ==> (exists|direction: Direction, r0: int, c0: int|
                directions@.contains(direction) && #[trigger] final(self).word_readable_at(
                    word@,
                    direction,
                    r0,
                    c0,
                )),
    {
        broadcast use vstd::seq_lib::group_to_multiset_ensures;

        let ghost nr = old(self).n_rows as int;
        let ghost nc = old(self).n_cols as int;
        let mut di: usize = 0;
        while di < directions.len()
            invariant
                *self == *old(self),
                self.wf(),
                word@.len() >= 1,
                nr == self.n_rows as int,
                nc == self.n_cols as int,
                forall|rr: int, cc: int|
                    in_bounds(nr, nc, rr, cc) ==> #[trigger] old(self).cnt(rr, cc) < usize::MAX,
                di <= directions@.len(),
                forall|k: int, r0: int, c0: int|
                    0 <= k < di ==> !#[trigger] old(self).can_place(word@, directions@[k], r0, c0),
            decreases directions@.len() - di,
        {
            let direction = directions[di];
            match self.get_possible_positions(word, &direction) {
                Err(_) => {
                    proof {
                        assert forall|r0: int, c0: int| !#[trigger] old(self).can_place(
                            word@,
                            direction,
                            r0,
                            c0,
                        ) by {
                            lemma_misfit_no_fit(direction, nr, nc, word@.len() as int, r0, c0);
                        }
                    }
                },
                Ok(pr) => {
                    proof {
                        lemma_steps_unit(direction);
                        lemma_axis_range_nonempty(nr, row_step(direction), word@.len() as int);
                        lemma_axis_range_nonempty(nc, col_step(direction), word@.len() as int);
                    }
                    let mut starts = starts_of_ranges(&pr);
                    let ghost built = starts@;
                    shuffle_vec(rng, &mut starts);
                    proof {
                        assert forall|co: Coordinate| #[trigger]
                            starts@.contains(co) <==> built.contains(co) by {
                            built.to_multiset_ensures();
                            starts@.to_multiset_ensures();
                            assert(starts@.to_multiset().count(co) == built.to_multiset().count(co));
                        }
                    }
                    let mut idx: usize = 0;
                    while idx < starts.len()
                        invariant
                            *self == *old(self),
                            self.wf(),
                            word@.len() >= 1,
                            nr == self.n_rows as int,
                            nc == self.n_cols as int,
                            forall|rr: int, cc: int|
                                in_bounds(nr, nc, rr, cc) ==> #[trigger] old(self).cnt(rr, cc)
                                    < usize::MAX,
                            direction == directions@[di as int],
                            0 <= di < directions@.len(),
                            idx <= starts@.len(),
                            forall|co: Coordinate| #[trigger]
                                starts@.contains(co) <==> (pr.rows.start <= (co.row as int) && (
                                co.row as int) < pr.rows.end && pr.cols.start <= (co.col as int)
                                    && (co.col as int) < pr.cols.end),
                            pr.rows.start == axis_lo(nr, row_step(direction), word@.len() as int),
                            pr.rows.end == axis_hi(nr, row_step(direction), word@.len() as int),
                            pr.cols.start == axis_lo(nc, col_step(direction), word@.len() as int),
                            pr.cols.end == axis_hi(nc, col_step(direction), word@.len() as int),
                            forall|j: int|
                                0 <= j < idx ==> !old(self).can_place(
                                    word@,
                                    direction,
                                    #[trigger] starts@[j].row as int,
                                    starts@[j].col as int,
                                ),
                        decreases starts@.len() - idx,
                    {
                        let start = starts[idx];
                        let fit = self.try_fit(word, &direction, &start);
                        match fit {
                            Ok(()) => {
                                proof {
                                    assert(*self == *old(self));
                                    assert(self.can_place(
                                        word@,
                                        direction,
                                        start.row as int,
                                        start.col as int,
                                    ));
                                    assert(old(self).can_place(
                                        word@,
                                        direction,
                                        start.row as int,
                                        start.col as int,
                                    ));
                                    assert forall|i: int| 0 <= i < word@.len() implies #[trigger] old(
                                        self,
                                    ).cnt(
                                        pos_row(direction, start.row as int, i),
                                        pos_col(direction, start.col as int, i),
                                    ) < usize::MAX by {
                                        assert(0 <= axis_pos(start.row as int, row_step(direction), i) < nr);
                                        assert(0 <= axis_pos(start.col as int, col_step(direction), i) < nc);
                                    }
                                }
                                let ghost field_before = *self;
                                self.put_into_grid(word, &direction, &start);
                                proof {
                                    assert(directions@.contains(direction));
                                    assert(old(self).can_place(
                                        word@,
                                        direction,
                                        start.row as int,
                                        start.col as int,
                                    ));
                                    lemma_commit_round_trip(
                                        field_before,
                                        *self,
                                        word@,
                                        direction,
                                        start.row as int,
                                        start.col as int,
                                    );
                                }
                                return Ok(());
                            },
                            Err(_) => {
                                proof {
                                    assert(!self.can_place(
                                        word@,
                                        direction,
                                        start.row as int,
                                        start.col as int,
                                    ));
                                    assert(!old(self).can_place(
                                        word@,
                                        direction,
                                        start.row as int,
                                        start.col as int,
                                    ));
                                    assert(start == starts@[idx as int]);
                                }
                            },
                        }
                        idx += 1;
                    }
                    proof {
                        assert forall|r0: int, c0: int| !#[trigger] old(self).can_place(
                            word@,
                            direction,
                            r0,
                            c0,
                        ) by {
                            if old(self).can_place(word@, direction, r0, c0) {
                                lemma_ranges_exact(direction, nr, nc, word@.len() as int, r0, c0);
                                let co = Coordinate { row: r0 as isize, col: c0 as isize };
                                assert(starts@.contains(co));
                                let j = choose|j: int|
                                    0 <= j < starts@.len() && starts@[j] == co;
                                assert(!old(self).can_place(
                                    word@,
                                    direction,
                                    starts@[j].row as int,
                                    starts@[j].col as int,
                                ));
                            }
                        }
                    }
                },
            }
            proof {
                assert forall|k: int, r0: int, c0: int|
                    0 <= k < di + 1 implies !#[trigger] old(self).can_place(
                    word@,
                    directions@[k],
                    r0,
                    c0,
                ) by {
                    if k == di {
                        assert(!old(self).can_place(word@, direction, r0, c0));
                    }
                }
            }
            di += 1;
        }
        proof {
            assert forall|direction: Direction, r0: int, c0: int|
                directions@.contains(direction) implies !#[trigger] old(self).can_place(word@, direction, r0, c0) by {
                let k = choose|k: int| 0 <= k < directions@.len() && directions@[k] == direction;
                assert(!old(self).can_place(word@, directions@[k], r0, c0));
            }
        }
        Err(WordAddError::DoesntFit)
    }
}

} // verus!
