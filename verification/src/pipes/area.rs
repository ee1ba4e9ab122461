//! The two measures of the loop: how far its farthest point lies from the
//! start, and how many cells it encloses.

use vstd::prelude::*;
use vstd::string::StringSliceAdditionalSpecFns;
use crate::pipes::canvas::{
    blank_raster, blank_total, canvas_fits, stamp, FilledGrid, LOOP_MARK, START_MARK,
};
use crate::pipes::error::LoopError;
use crate::pipes::fill::flood;
use crate::pipes::grid::{grid_of, readable, Grid, GridView};
use crate::pipes::pipe::Pipe;
use crate::pipes::pos::Pos;
use crate::pipes::region::{census, lemma_census, Region};
use crate::text::{content, line_len, rectangular, row_count};
use crate::pipes::cycle::lemma_either_way;
use crate::pipes::walk::{
    closes_at, follows, loop_len, on_grid, pipe_at, start_exit, start_from, trace, Walker,
};

verus! {

/// Half of `n`, rounded up: the number of steps from the start of a loop of
/// `n` steps to its farthest point.
pub open spec fn half_up(n: nat) -> nat {
    n / 2 + n % 2
}

/// The mark in the centre of the block of the `k`-th cell of the loop.
pub open spec fn mark_of(k: int) -> u8 {
    if k == 0 {
        START_MARK
    } else {
        LOOP_MARK
    }
}

/// The canvas of the grid with the blocks of the first `k` cells of the walk
/// drawn on it.
pub open spec fn drawn(g: GridView, from: Pipe, k: nat) -> Seq<Seq<u8>>
    decreases k,
{
    if k == 0 {
        blank_raster(3 * g.width() + 2, 3 * g.height() + 2)
    } else {
        let c = trace(g, from, (k - 1) as nat);
        stamp(drawn(g, from, (k - 1) as nat), c.x, c.y, mark_of(k - 1), pipe_at(g, c.x, c.y))
    }
}

/// The distance from the start cell to the farthest point of the loop,
/// counted in steps along it.
pub open spec fn farthest(g: GridView) -> Result<nat, LoopError> {
    match loop_len(g) {
        Ok(n) => Ok(half_up(n)),
        Err(e) => Err(e),
    }
}

/// The canvas of the grid after the loop was drawn on it and the flood was
/// let in at its north-west corner.
pub open spec fn flooded_canvas(g: GridView, n: nat) -> Seq<Seq<u8>> {
    flood(drawn(g, start_from(g), n), (0, 0))
}

/// The number of cells that the loop encloses: the cells off the loop to
/// which no way leads from the outside.
pub open spec fn enclosed(g: GridView) -> Result<nat, LoopError> {
    match loop_len(g) {
        Ok(n) => Ok(census(g, n, Region::Inside) as nat),
        Err(e) => Err(e),
    }
}

/// The grid that a text stands for, or why it stands for none.
pub open spec fn text_grid(text: Seq<u8>) -> Result<GridView, LoopError> {
    if readable(content(text)) {
        Ok(grid_of(content(text)))
    } else {
        Err(LoopError::Format)
    }
}

/// The farthest point of the loop lies half the length of the loop from the
/// start, rounded up, whichever of its two ways the walk leaves the start
/// cell: in either direction the walk is back after the same number of
/// steps.
pub proof fn lemma_farthest_either_way(g: GridView, n: nat)
    requires
        loop_len(g) == Ok::<nat, LoopError>(n),
    ensures
        closes_at(g, start_from(g), n),
        closes_at(g, start_exit(g), n),
        farthest(g) == Ok::<nat, LoopError>(half_up(n)),
        half_up(n) * 2 == n || half_up(n) * 2 == n + 1,
{
    lemma_either_way(g, start_from(g), start_exit(g), n);
}

/// The number of blank cells of a raster is not negative.
pub proof fn lemma_blank_total_bounds(r: Seq<Seq<u8>>)
    ensures
        0 <= blank_total(r),
{
    lemma_blank_rows_bounds(r, r.len() as int);
}

proof fn lemma_blank_rows_bounds(r: Seq<Seq<u8>>, m: int)
    ensures
        0 <= crate::pipes::canvas::blank_rows(r, m),
    decreases m,
{
    if m > 0 {
        lemma_blank_rows_bounds(r, m - 1);
        lemma_blank_prefix_bounds(r[m - 1], r[m - 1].len() as int);
    }
}

proof fn lemma_blank_prefix_bounds(row: Seq<u8>, n: int)
    ensures
        0 <= crate::pipes::canvas::blank_prefix(row, n),
    decreases n,
{
    if n > 0 {
        lemma_blank_prefix_bounds(row, n - 1);
    }
}

impl Grid {
    /// Whether a canvas for this grid can be kept in memory.
    pub fn fits_canvas(&self) -> (ok: bool)
        requires
            self.wf(),
        ensures
            ok == canvas_fits(self@.width(), self@.height()),
    {
        let w = self.width();
        let h = self.height();
        let limit = isize::MAX as usize;
        if w > (limit - 2) / 3 || h > (limit - 2) / 3 {
            proof {
                let (cw, ch) = (3 * w + 2, 3 * h + 2);
                assert(cw * ch > limit) by (nonlinear_arith)
                    requires
                        cw > limit || ch > limit,
                        cw >= 2,
                        ch >= 2,
                ;
            }
            return false;
        }
        let cw = 3 * w + 2;
        let ch = 3 * h + 2;
        proof {
            let (l, a, b) = (limit as int, cw as int, ch as int);
            let q = l / b;
            let m = l % b;
            vstd::arithmetic::div_mod::lemma_fundamental_div_mod(l, b);
            vstd::arithmetic::div_mod::lemma_mod_bound(l, b);
            if a <= q {
                assert(a * b <= l) by (nonlinear_arith)
                    requires
                        0 <= a <= q,
                        0 < b,
                        l == b * q + m,
                        0 <= m,
                ;
            } else {
                assert(a * b > l) by (nonlinear_arith)
                    requires
                        a >= q + 1,
                        0 < b,
                        l == b * q + m,
                        m < b,
                ;
            }
        }
        cw <= limit / ch
    }

    /// Draws the loop that `walker` found on a fresh canvas.
    pub fn render(&self, walker: &Walker) -> (c: FilledGrid)
        requires
            self.wf(),
            canvas_fits(self@.width(), self@.height()),
            follows(self@, start_from(self@), walker.path@),
            on_grid(self@, walker.path@),
        ensures
            c.wf(),
            c.grid_width() == self@.width(),
            c.grid_height() == self@.height(),
            c@ == drawn(self@, start_from(self@), walker.path@.len()),
    {
        let ghost g = self@;
        let ghost from = start_from(g);
        let mut image = FilledGrid::new(self.width(), self.height());
        let n = walker.path.len();
        let mut k: usize = 0;
        while k < n
            invariant
                image.wf(),
                image.grid_width() == g.width(),
                image.grid_height() == g.height(),
                n == walker.path@.len(),
                k <= n,
                follows(g, from, walker.path@),
                on_grid(g, walker.path@),
                image@ == drawn(g, from, k as nat),
            decreases n - k,
        {
            let cell = walker.path[k];
            let mark = if k == 0 {
                START_MARK
            } else {
                LOOP_MARK
            };
            proof {
                assert(g.contains(walker.path@[k as int].0.x as int,
                    walker.path@[k as int].0.y as int));
            }
            image.set(cell.0, mark, cell.1);
            k += 1;
        }
        image
    }
}

/// The distance from the start cell to the farthest point of the loop.
pub fn solve_loop_length(grid: &Grid) -> (r: Result<usize, LoopError>)
    requires
        grid.wf(),
    ensures
        match farthest(grid@) {
            Ok(n) => r == Ok::<usize, LoopError>(n as usize) && n <= usize::MAX,
            Err(e) => r == Err::<usize, LoopError>(e),
        },
{
    match grid.walk_grid() {
        Ok(walker) => Ok(walker.total_steps / 2 + walker.total_steps % 2),
        Err(e) => Err(e),
    }
}

/// The number of cells of the grid that the loop encloses. They are counted
/// on the canvas: the loop is drawn, the flood is let in at the north-west
/// corner, and each enclosed cell is left with the nine blank cells of its
/// block.
pub fn solve_enclosed_area(grid: &Grid) -> (r: Result<usize, LoopError>)
    requires
        grid.wf(),
        canvas_fits(grid@.width(), grid@.height()),
    ensures
        match enclosed(grid@) {
            Ok(n) => r == Ok::<usize, LoopError>(n as usize) && n <= usize::MAX,
            Err(e) => r == Err::<usize, LoopError>(e),
        },
{
    match grid.walk_grid() {
        Ok(walker) => {
            let mut image = grid.render(&walker);
            image.flood_fill(Pos { x: 0, y: 0 });
            proof {
                lemma_census(grid@, walker.total_steps as nat);
            }
            Ok(image.count_blank() / 9)
        },
        Err(e) => Err(e),
    }
}

/// Reads the grid from `data` and measures the distance from the start cell
/// to the farthest point of the loop.
pub fn part1(data: &str) -> (r: Result<usize, LoopError>)
    requires
        data.spec_bytes().len() <= isize::MAX,
        rectangular(content(data.spec_bytes())),
    ensures
        match text_grid(data.spec_bytes()) {
            Ok(g) => match farthest(g) {
                Ok(n) => r == Ok::<usize, LoopError>(n as usize) && n <= usize::MAX,
                Err(e) => r == Err::<usize, LoopError>(e),
            },
            Err(e) => r == Err::<usize, LoopError>(e),
        },
{
    match Grid::from_input(data) {
        Ok(grid) => solve_loop_length(&grid),
        Err(e) => Err(e),
    }
}

/// Reads the grid from `data` and counts the cells that the loop encloses.
pub fn part2(data: &str) -> (r: Result<usize, LoopError>)
    requires
        data.spec_bytes().len() <= isize::MAX,
        rectangular(content(data.spec_bytes())),
        canvas_fits(line_len(content(data.spec_bytes())), row_count(content(data.spec_bytes()))),
    ensures
        match text_grid(data.spec_bytes()) {
            Ok(g) => match enclosed(g) {
                Ok(n) => r == Ok::<usize, LoopError>(n as usize) && n <= usize::MAX,
                Err(e) => r == Err::<usize, LoopError>(e),
            },
            Err(e) => r == Err::<usize, LoopError>(e),
        },
{
    match Grid::from_input(data) {
        Ok(grid) => {
            proof {
                crate::pipes::grid::lemma_grid_of_shape(content(data.spec_bytes()));
            }
            solve_enclosed_area(&grid)
        },
        Err(e) => Err(e),
    }
}

} // verus!
