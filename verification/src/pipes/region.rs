//! The three kinds of cells of a grid with a loop: those on the loop, those
//! that the loop encloses, and those outside; and how many there are of each.

use vstd::prelude::*;
use crate::pipes::area::{drawn, flooded_canvas, mark_of};
use crate::pipes::canvas::{
    blank_prefix, blank_rows, blank_total, block_cell, in_block, on_raster, open_at, BLANK,
};
use crate::pipes::cycle::{lemma_simple_cycle, place};
use crate::pipes::fill::{flood, lemma_reach_run, lemma_reach_seed, lemma_reach_step, reaches};
use crate::pipes::grid::GridView;
use crate::pipes::pipe::Pipe;
use crate::pipes::walk::{can_step, closes_at, lemma_passable_is_pipe, pipe_at, start_from, trace};

verus! {

/// What a cell of the grid is to the loop.
#[derive(Clone, Copy, Debug, PartialEq, Eq, Structural)]
pub enum Region {
    /// The loop passes through the cell.
    OnLoop,
    /// The cell is off the loop, and no way leads to it from the outside,
    /// not even between two pipes that touch.
    Inside,
    /// The cell is off the loop, and a way leads to it from the outside.
    Outside,
}

/// Whether the walk of `n` steps passes through column `x`, row `y`.
pub open spec fn on_loop(g: GridView, n: nat, x: int, y: int) -> bool {
    exists|k: nat| k < n && #[trigger] place(g, start_from(g), k) == (x, y)
}

/// What the cell in column `x`, row `y` is to the loop of `n` steps. A cell
/// off the loop is outside if the flood that enters the canvas at its
/// north-west corner gets to the centre of the cell's block.
pub open spec fn region_of(g: GridView, n: nat, x: int, y: int) -> Region {
    if on_loop(g, n, x, y) {
        Region::OnLoop
    } else if reaches(drawn(g, start_from(g), n), (0, 0), 3 * x + 2, 3 * y + 2) {
        Region::Outside
    } else {
        Region::Inside
    }
}

/// The number of cells of the kind `kind` among the first `w` of row `y`.
pub open spec fn row_census(g: GridView, n: nat, kind: Region, y: int, w: int) -> int
    decreases w,
{
    if w <= 0 {
        0
    } else {
        row_census(g, n, kind, y, w - 1) + if region_of(g, n, w - 1, y) == kind {
            1int
        } else {
            0
        }
    }
}

/// The number of cells of the kind `kind` in the first `h` rows.
pub open spec fn census_rows(g: GridView, n: nat, kind: Region, h: int) -> int
    decreases h,
{
    if h <= 0 {
        0
    } else {
        census_rows(g, n, kind, h - 1) + row_census(g, n, kind, h - 1, g.width())
    }
}

/// The number of cells of the grid of the kind `kind`.
pub open spec fn census(g: GridView, n: nat, kind: Region) -> int {
    census_rows(g, n, kind, g.height())
}

/// Each cell of a walk that comes back is a cell of the grid.
pub proof fn lemma_walk_on_grid(g: GridView, from: Pipe, n: nat, k: nat)
    requires
        g.valid(),
        closes_at(g, from, n),
        k < n,
    ensures
        g.contains(place(g, from, k).0, place(g, from, k).1),
{
    let c = trace(g, from, k);
    assert(can_step(g, c));
    lemma_passable_is_pipe(pipe_at(g, c.x, c.y), c.from);
}

/// Whether the block of one of the first `k` cells of the walk holds column
/// `cx`, row `cy` of the canvas.
pub open spec fn stamped(g: GridView, from: Pipe, k: nat, cx: int, cy: int) -> bool {
    exists|j: nat| j < k && in_block(cx, cy, (#[trigger] place(g, from, j)).0, place(g, from, j).1)
}

/// The canvas with the first `k` cells drawn has the size of the canvas, and
/// is blank exactly where no block was drawn.
pub proof fn lemma_drawn(g: GridView, from: Pipe, k: nat)
    ensures
        drawn(g, from, k).len() == 3 * g.height() + 2 || g.height() < 0,
        forall|cy: int|
            0 <= cy < drawn(g, from, k).len() ==> (#[trigger] drawn(g, from, k)[cy]).len() == 3
                * g.width() + 2,
        forall|cx: int, cy: int|
            0 <= cy < 3 * g.height() + 2 && 0 <= cx < 3 * g.width() + 2 ==> (#[trigger] drawn(
                g,
                from,
                k,
            )[cy][cx] == BLANK <==> !stamped(g, from, k, cx, cy)),
    decreases k,
{
    let d = drawn(g, from, k);
    if k == 0 {
    } else {
        let before = drawn(g, from, (k - 1) as nat);
        lemma_drawn(g, from, (k - 1) as nat);
        let c = trace(g, from, (k - 1) as nat);
        assert forall|cx: int, cy: int|
            0 <= cy < 3 * g.height() + 2 && 0 <= cx < 3 * g.width() + 2
                implies (#[trigger] d[cy][cx]
            == BLANK <==> !stamped(g, from, k, cx, cy)) by {
            let last = place(g, from, (k - 1) as nat);
            if in_block(cx, cy, c.x, c.y) {
                assert(in_block(cx, cy, last.0, last.1));
                assert(block_cell(cx - 3 * c.x - 1, cy - 3 * c.y - 1, mark_of(k - 1),
                    pipe_at(g, c.x, c.y))
                    != BLANK);
            } else {
                assert(d[cy][cx] == before[cy][cx]);
                if stamped(g, from, k, cx, cy) {
                    let j = choose|j: nat|
                        j < k && in_block(
                            cx,
                            cy,
                            (#[trigger] place(g, from, j)).0,
                            place(g, from, j).1,
                        );
                    assert(j < k - 1);
                    assert(stamped(g, from, (k - 1) as nat, cx, cy));
                }
                if stamped(g, from, (k - 1) as nat, cx, cy) {
                    let j = choose|j: nat|
                        j < k - 1 && in_block(
                            cx,
                            cy,
                            (#[trigger] place(g, from, j)).0,
                            place(g, from, j).1,
                        );
                    assert(in_block(cx, cy, place(g, from, j).0, place(g, from, j).1));
                }
            }
        }
    }
}

/// The flood that gets to one cell of a run of cells in a column, all of
/// which it can enter, gets to each of them.
pub proof fn lemma_reach_column(
    r: Seq<Seq<u8>>,
    seed: (int, int),
    x: int,
    from: int,
    lo: int,
    hi: int,
    y: int,
)
    requires
        reaches(r, seed, x, from),
        lo <= from < hi,
        lo <= y < hi,
        forall|c: int| lo <= c < hi ==> #[trigger] open_at(r, x, c),
    ensures
        reaches(r, seed, x, y),
    decreases
            if y >= from {
                y - from
            } else {
                from - y
            },
{
    if y > from {
        lemma_reach_column(r, seed, x, from, lo, hi, y - 1);
        assert(open_at(r, x, y));
        lemma_reach_step(r, seed, (x, y - 1), (x, y));
    } else if y < from {
        lemma_reach_column(r, seed, x, from, lo, hi, y + 1);
        assert(open_at(r, x, y));
        lemma_reach_step(r, seed, (x, y + 1), (x, y));
    }
}

/// Whether column `cx`, row `cy` lies on the rim of a canvas of `w` by `h`
/// cells.
pub open spec fn on_rim(w: int, h: int, cx: int, cy: int) -> bool {
    0 <= cx < w && 0 <= cy < h && (cx == 0 || cy == 0 || cx == w - 1 || cy == h - 1)
}

/// The flood that enters at the north-west corner gets all around a rim that
/// it can enter.
pub proof fn lemma_rim(r: Seq<Seq<u8>>, w: int, h: int, cx: int, cy: int)
    requires
        r.len() == h,
        forall|y: int| 0 <= y < h ==> (#[trigger] r[y]).len() == w,
        forall|x: int, y: int| on_rim(w, h, x, y) ==> #[trigger] open_at(r, x, y),
        on_rim(w, h, cx, cy),
    ensures
        reaches(r, (0, 0), cx, cy),
{
    let seed = (0int, 0int);
    assert(on_rim(w, h, 0, 0));
    assert(open_at(r, 0, 0));
    lemma_reach_seed(r, seed);
    assert forall|c: int| 0 <= c < w implies #[trigger] open_at(r, c, 0) by {
        assert(on_rim(w, h, c, 0));
    }
    assert forall|c: int| 0 <= c < w implies #[trigger] open_at(r, c, h - 1) by {
        assert(on_rim(w, h, c, h - 1));
    }
    assert forall|c: int| 0 <= c < h implies #[trigger] open_at(r, 0, c) by {
        assert(on_rim(w, h, 0, c));
    }
    assert forall|c: int| 0 <= c < h implies #[trigger] open_at(r, w - 1, c) by {
        assert(on_rim(w, h, w - 1, c));
    }
    if cy == 0 {
        lemma_reach_run(r, seed, 0, 0, 0, w, cx);
    } else if cx == 0 {
        lemma_reach_column(r, seed, 0, 0, 0, h, cy);
    } else if cy == h - 1 {
        lemma_reach_column(r, seed, 0, 0, 0, h, h - 1);
        lemma_reach_run(r, seed, h - 1, 0, 0, w, cx);
    } else {
        lemma_reach_run(r, seed, 0, 0, 0, w, w - 1);
        lemma_reach_column(r, seed, w - 1, 0, 0, h, cy);
    }
}

/// The flood gets to all of a block that it can enter, or to none of it.
pub proof fn lemma_block(r: Seq<Seq<u8>>, seed: (int, int), x: int, y: int, cx: int, cy: int)
    requires
        forall|bx: int, by: int| in_block(bx, by, x, y) ==> #[trigger] open_at(r, bx, by),
        in_block(cx, cy, x, y),
    ensures
        reaches(r, seed, cx, cy) <==> reaches(r, seed, 3 * x + 2, 3 * y + 2),
{
    let mx = 3 * x + 2;
    let my = 3 * y + 2;
    assert(in_block(mx, my, x, y));
    assert(in_block(mx, cy, x, y));
    assert(open_at(r, mx, my));
    assert(open_at(r, mx, cy));
    assert(open_at(r, cx, cy));
    if reaches(r, seed, cx, cy) {
        if cx != mx {
            lemma_reach_step(r, seed, (cx, cy), (mx, cy));
        }
        if cy != my {
            lemma_reach_step(r, seed, (mx, cy), (mx, my));
        }
    }
    if reaches(r, seed, mx, my) {
        if cy != my {
            lemma_reach_step(r, seed, (mx, my), (mx, cy));
        }
        if cx != mx {
            lemma_reach_step(r, seed, (mx, cy), (cx, cy));
        }
    }
}

/// The size of the canvas with the loop drawn on it, and where it is blank.
pub proof fn lemma_drawn_cell(g: GridView, n: nat, cx: int, cy: int)
    requires
        g.valid(),
        0 <= cx < 3 * g.width() + 2,
        0 <= cy < 3 * g.height() + 2,
    ensures
        drawn(g, start_from(g), n).len() == 3 * g.height() + 2,
        drawn(g, start_from(g), n)[cy].len() == 3 * g.width() + 2,
        drawn(g, start_from(g), n)[cy][cx] == BLANK <==> !stamped(g, start_from(g), n, cx, cy),
{
    lemma_drawn(g, start_from(g), n);
    let d = drawn(g, start_from(g), n);
    assert(d[cy].len() == 3 * g.width() + 2);
}

/// The loop leaves the rim of the canvas blank.
pub proof fn lemma_rim_blank(g: GridView, n: nat, cx: int, cy: int)
    requires
        g.valid(),
        closes_at(g, start_from(g), n),
        on_rim(3 * g.width() + 2, 3 * g.height() + 2, cx, cy),
    ensures
        open_at(drawn(g, start_from(g), n), cx, cy),
        drawn(g, start_from(g), n)[cy][cx] == BLANK,
{
    let from = start_from(g);
    lemma_drawn_cell(g, n, cx, cy);
    if stamped(g, from, n, cx, cy) {
        let j = choose|j: nat|
            j < n && in_block(cx, cy, (#[trigger] place(g, from, j)).0, place(g, from, j).1);
        lemma_walk_on_grid(g, from, n, j);
    }
}

/// The loop leaves the block of a cell that it does not pass blank.
pub proof fn lemma_block_blank(g: GridView, n: nat, x: int, y: int, cx: int, cy: int)
    requires
        g.valid(),
        g.contains(x, y),
        !on_loop(g, n, x, y),
        in_block(cx, cy, x, y),
    ensures
        open_at(drawn(g, start_from(g), n), cx, cy),
        drawn(g, start_from(g), n)[cy][cx] == BLANK,
{
    let from = start_from(g);
    lemma_drawn_cell(g, n, cx, cy);
    if stamped(g, from, n, cx, cy) {
        let j = choose|j: nat|
            j < n && in_block(cx, cy, (#[trigger] place(g, from, j)).0, place(g, from, j).1);
        assert(place(g, from, j) == (x, y));
    }
}

/// The loop leaves no cell of the block of a cell that it passes blank.
pub proof fn lemma_block_drawn(g: GridView, n: nat, x: int, y: int, cx: int, cy: int)
    requires
        g.valid(),
        g.contains(x, y),
        on_loop(g, n, x, y),
        in_block(cx, cy, x, y),
    ensures
        drawn(g, start_from(g), n)[cy][cx] != BLANK,
{
    let from = start_from(g);
    lemma_drawn_cell(g, n, cx, cy);
    let k = choose|k: nat| k < n && #[trigger] place(g, from, k) == (x, y);
    assert(in_block(cx, cy, place(g, from, k).0, place(g, from, k).1));
}

/// A cell is blank after the flood if it was blank before and the flood did
/// not get to it.
pub proof fn lemma_flood_blank(r: Seq<Seq<u8>>, seed: (int, int), cx: int, cy: int)
    requires
        on_raster(r, cx, cy),
    ensures
        flood(r, seed).len() == r.len(),
        flood(r, seed)[cy].len() == r[cy].len(),
        flood(r, seed)[cy][cx] == BLANK <==> r[cy][cx] == BLANK && !reaches(r, seed, cx, cy),
{
}

/// A cell of the flooded canvas is blank exactly if it lies in the block of
/// a cell of the grid that the loop encloses.
pub proof fn lemma_flooded_cell(g: GridView, n: nat, x: int, y: int, cx: int, cy: int)
    requires
        g.valid(),
        closes_at(g, start_from(g), n),
        g.contains(x, y),
        in_block(cx, cy, x, y),
    ensures
        flooded_canvas(g, n)[cy][cx] == BLANK <==> region_of(g, n, x, y) == Region::Inside,
{
    let from = start_from(g);
    let d = drawn(g, from, n);
    lemma_drawn_cell(g, n, cx, cy);
    lemma_flood_blank(d, (0, 0), cx, cy);
    if on_loop(g, n, x, y) {
        lemma_block_drawn(g, n, x, y, cx, cy);
    } else {
        lemma_block_blank(g, n, x, y, cx, cy);
        assert forall|bx: int, by: int| in_block(bx, by, x, y) implies #[trigger] open_at(
            d,
            bx,
            by,
        ) by {
            lemma_block_blank(g, n, x, y, bx, by);
        }
        lemma_block(d, (0, 0), x, y, cx, cy);
    }
}

/// No cell of the rim of the flooded canvas is blank.
pub proof fn lemma_flooded_rim(g: GridView, n: nat, cx: int, cy: int)
    requires
        g.valid(),
        closes_at(g, start_from(g), n),
        on_rim(3 * g.width() + 2, 3 * g.height() + 2, cx, cy),
    ensures
        flooded_canvas(g, n)[cy][cx] != BLANK,
{
    let from = start_from(g);
    let d = drawn(g, from, n);
    let (w, h) = (3 * g.width() + 2, 3 * g.height() + 2);
    lemma_drawn(g, from, n);
    lemma_drawn_cell(g, n, cx, cy);
    lemma_flood_blank(d, (0, 0), cx, cy);
    assert forall|x: int, y: int| on_rim(w, h, x, y) implies #[trigger] open_at(d, x, y) by {
        lemma_rim_blank(g, n, x, y);
    }
    lemma_rim(d, w, h, cx, cy);
}

/// The size of the flooded canvas.
pub proof fn lemma_flooded_size(g: GridView, n: nat, cy: int)
    requires
        g.valid(),
        0 <= cy < 3 * g.height() + 2,
    ensures
        flooded_canvas(g, n).len() == 3 * g.height() + 2,
        flooded_canvas(g, n)[cy].len() == 3 * g.width() + 2,
{
    lemma_drawn_cell(g, n, 0, cy);
}

/// No cell of a row of the rim of the flooded canvas is blank.
proof fn lemma_rim_row(g: GridView, n: nat, cy: int, k: int)
    requires
        g.valid(),
        closes_at(g, start_from(g), n),
        cy == 0 || cy == 3 * g.height() + 1,
        0 <= k <= 3 * g.width() + 2,
    ensures
        blank_prefix(flooded_canvas(g, n)[cy], k) == 0,
    decreases k,
{
    if k > 0 {
        lemma_rim_row(g, n, cy, k - 1);
        lemma_flooded_rim(g, n, k - 1, cy);
    }
}

/// A row of the flooded canvas that crosses the blocks of row `y` of the
/// grid holds three blank cells for each enclosed cell among the first `x`
/// of that row.
proof fn lemma_block_row(g: GridView, n: nat, y: int, cy: int, x: int)
    requires
        g.valid(),
        closes_at(g, start_from(g), n),
        0 <= y < g.height(),
        3 * y + 1 <= cy <= 3 * y + 3,
        0 <= x <= g.width(),
    ensures
        blank_prefix(flooded_canvas(g, n)[cy], 3 * x + 1) == 3 * row_census(
            g,
            n,
            Region::Inside,
            y,
            x,
        ),
    decreases x,
{
    let row = flooded_canvas(g, n)[cy];
    if x == 0 {
        assert(blank_prefix(row, 1) == blank_prefix(row, 0) + if row[0] == BLANK {
            1int
        } else {
            0
        });
        lemma_flooded_rim(g, n, 0, cy);
    } else {
        lemma_block_row(g, n, y, cy, x - 1);
        let c = 3 * (x - 1) + 1;
        lemma_flooded_cell(g, n, x - 1, y, c, cy);
        lemma_flooded_cell(g, n, x - 1, y, c + 1, cy);
        lemma_flooded_cell(g, n, x - 1, y, c + 2, cy);
        assert(blank_prefix(row, c + 1) == blank_prefix(row, c) + if row[c] == BLANK {
            1int
        } else {
            0
        });
        assert(blank_prefix(row, c + 2) == blank_prefix(row, c + 1) + if row[c + 1] == BLANK {
            1int
        } else {
            0
        });
        assert(blank_prefix(row, c + 3) == blank_prefix(row, c + 2) + if row[c + 2] == BLANK {
            1int
        } else {
            0
        });
    }
}

/// The whole of such a row.
proof fn lemma_block_row_whole(g: GridView, n: nat, y: int, cy: int)
    requires
        g.valid(),
        closes_at(g, start_from(g), n),
        0 <= y < g.height(),
        3 * y + 1 <= cy <= 3 * y + 3,
    ensures
        blank_prefix(flooded_canvas(g, n)[cy], flooded_canvas(g, n)[cy].len() as int) == 3
            * row_census(g, n, Region::Inside, y, g.width()),
{
    let row = flooded_canvas(g, n)[cy];
    let w = 3 * g.width() + 2;
    lemma_flooded_size(g, n, cy);
    lemma_block_row(g, n, y, cy, g.width());
    lemma_flooded_rim(g, n, w - 1, cy);
    assert(blank_prefix(row, w) == blank_prefix(row, w - 1) + if row[w - 1] == BLANK {
        1int
    } else {
        0
    });
}

/// The rows of the flooded canvas down to the blocks of row `y` of the grid
/// hold nine blank cells for each enclosed cell of the rows before.
proof fn lemma_block_rows(g: GridView, n: nat, y: int)
    requires
        g.valid(),
        closes_at(g, start_from(g), n),
        0 <= y <= g.height(),
    ensures
        blank_rows(flooded_canvas(g, n), 3 * y + 1) == 9 * census_rows(g, n, Region::Inside, y),
    decreases y,
{
    let f = flooded_canvas(g, n);
    if y == 0 {
        lemma_flooded_size(g, n, 0);
        lemma_rim_row(g, n, 0, 3 * g.width() + 2);
        assert(blank_rows(f, 1) == blank_rows(f, 0) + blank_prefix(f[0], f[0].len() as int));
    } else {
        lemma_block_rows(g, n, y - 1);
        let c = 3 * (y - 1) + 1;
        lemma_block_row_whole(g, n, y - 1, c);
        lemma_block_row_whole(g, n, y - 1, c + 1);
        lemma_block_row_whole(g, n, y - 1, c + 2);
        assert(blank_rows(f, c + 1) == blank_rows(f, c) + blank_prefix(f[c], f[c].len() as int));
        assert(blank_rows(f, c + 2) == blank_rows(f, c + 1) + blank_prefix(
            f[c + 1],
            f[c + 1].len() as int,
        ));
        assert(blank_rows(f, c + 3) == blank_rows(f, c + 2) + blank_prefix(
            f[c + 2],
            f[c + 2].len() as int,
        ));
    }
}

/// The flood leaves nine blank cells on the canvas for each cell that the
/// loop encloses, and no other.
pub proof fn lemma_blank_is_inside(g: GridView, n: nat)
    requires
        g.valid(),
        closes_at(g, start_from(g), n),
    ensures
        blank_total(flooded_canvas(g, n)) == 9 * census(g, n, Region::Inside),
{
    let f = flooded_canvas(g, n);
    let h = 3 * g.height() + 2;
    lemma_flooded_size(g, n, h - 1);
    lemma_block_rows(g, n, g.height());
    lemma_rim_row(g, n, h - 1, 3 * g.width() + 2);
    assert(blank_rows(f, h) == blank_rows(f, h - 1) + blank_prefix(f[h - 1],
        f[h - 1].len() as int));
}

/// Each of the first `w` cells of a row is of one kind.
proof fn lemma_row_kinds(g: GridView, n: nat, y: int, w: int)
    requires
        0 <= w,
    ensures
        row_census(g, n, Region::OnLoop, y, w) + row_census(g, n, Region::Inside, y, w)
            + row_census(g, n, Region::Outside, y, w) == w,
    decreases w,
{
    if w > 0 {
        lemma_row_kinds(g, n, y, w - 1);
    }
}

/// Each cell of the first `h` rows is of one kind.
proof fn lemma_rows_kinds(g: GridView, n: nat, h: int)
    requires
        0 <= h,
        0 <= g.width(),
    ensures
        census_rows(g, n, Region::OnLoop, h) + census_rows(g, n, Region::Inside, h) + census_rows(
            g,
            n,
            Region::Outside,
            h,
        ) == g.width() * h,
    decreases h,
{
    if h > 0 {
        lemma_rows_kinds(g, n, h - 1);
        lemma_row_kinds(g, n, h - 1, g.width());
        assert(g.width() * h == g.width() * (h - 1) + g.width()) by (nonlinear_arith);
    } else {
        assert(g.width() * 0 == 0);
    }
}

/// One more step of a walk that meets no cell twice puts one more cell of
/// its row on the loop.
proof fn lemma_row_grows(g: GridView, k: nat, y: int, w: int)
    requires
        0 <= w,
        !on_loop(g, k, place(g, start_from(g), k).0, place(g, start_from(g), k).1),
    ensures
        row_census(g, k + 1, Region::OnLoop, y, w) == row_census(g, k, Region::OnLoop, y, w) + if y
            == place(g, start_from(g), k).1 && 0 <= place(g, start_from(g), k).0 < w {
            1int
        } else {
            0
        },
    decreases w,
{
    if w > 0 {
        lemma_row_grows(g, k, y, w - 1);
        lemma_one_more(g, k, w - 1, y);
    }
}

/// The cells that a walk has passed after one more step are those that it
/// had passed, and the one where it stood.
proof fn lemma_one_more(g: GridView, k: nat, x: int, y: int)
    ensures
        on_loop(g, k + 1, x, y) <==> on_loop(g, k, x, y) || place(g, start_from(g), k) == (x, y),
{
    let from = start_from(g);
    if on_loop(g, k + 1, x, y) {
        let j = choose|j: nat| j < k + 1 && #[trigger] place(g, from, j) == (x, y);
        if j < k {
            assert(on_loop(g, k, x, y));
        }
    }
    if on_loop(g, k, x, y) {
        let j = choose|j: nat| j < k && #[trigger] place(g, from, j) == (x, y);
        assert(j < k + 1 && place(g, from, j) == (x, y));
    }
    if place(g, from, k) == (x, y) {
        assert(k < k + 1 && place(g, from, k) == (x, y));
    }
}

/// One more step of a walk that meets no cell twice puts one more cell of
/// the grid on the loop.
proof fn lemma_rows_grow(g: GridView, k: nat, h: int)
    requires
        0 <= h,
        !on_loop(g, k, place(g, start_from(g), k).0, place(g, start_from(g), k).1),
    ensures
        census_rows(g, k + 1, Region::OnLoop, h) == census_rows(g, k, Region::OnLoop, h) + if 0
            <= place(g, start_from(g), k).1 < h && 0 <= place(g, start_from(g), k).0 < g.width() {
            1int
        } else {
            0
        },
    decreases h,
{
    if h > 0 {
        lemma_rows_grow(g, k, h - 1);
        if g.width() >= 0 {
            lemma_row_grows(g, k, h - 1, g.width());
        }
    }
}

/// No cell of a row is on the loop before the first step.
proof fn lemma_row_empty(g: GridView, y: int, w: int)
    ensures
        row_census(g, 0, Region::OnLoop, y, w) == 0,
    decreases w,
{
    if w > 0 {
        lemma_row_empty(g, y, w - 1);
    }
}

/// No cell is on the loop before the first step.
proof fn lemma_rows_empty(g: GridView, h: int)
    ensures
        census_rows(g, 0, Region::OnLoop, h) == 0,
    decreases h,
{
    if h > 0 {
        lemma_rows_empty(g, h - 1);
        lemma_row_empty(g, h - 1, g.width());
    }
}

/// After `k` steps of a walk that comes back, `k` cells are on the loop.
proof fn lemma_loop_cells(g: GridView, n: nat, k: nat)
    requires
        g.valid(),
        closes_at(g, start_from(g), n),
        k <= n,
    ensures
        census(g, k, Region::OnLoop) == k,
    decreases k,
{
    let from = start_from(g);
    if k == 0 {
        lemma_rows_empty(g, g.height());
    } else {
        let j = (k - 1) as nat;
        lemma_loop_cells(g, n, j);
        lemma_simple_cycle(g, from, n);
        lemma_walk_on_grid(g, from, n, j);
        let p = place(g, from, j);
        if on_loop(g, j, p.0, p.1) {
            let i = choose|i: nat| i < j && #[trigger] place(g, from, i) == (p.0, p.1);
            assert(place(g, from, i) != place(g, from, j));
        }
        lemma_rows_grow(g, j, g.height());
    }
}

/// Each cell of the grid is on the loop, enclosed by it, or outside. The
/// cells on the loop are as many as the walk has steps, and the enclosed
/// ones are those whose block the flood leaves blank.
pub proof fn lemma_census(g: GridView, n: nat)
    requires
        g.valid(),
        closes_at(g, start_from(g), n),
    ensures
        census(g, n, Region::OnLoop) + census(g, n, Region::Inside) + census(
            g,
            n,
            Region::Outside,
        ) == g.width() * g.height(),
        census(g, n, Region::OnLoop) == n,
        9 * census(g, n, Region::Inside) == blank_total(flooded_canvas(g, n)),
        0 <= census(g, n, Region::Inside),
{
    lemma_rows_kinds(g, n, g.height());
    lemma_loop_cells(g, n, n);
    lemma_blank_is_inside(g, n);
    crate::pipes::area::lemma_blank_total_bounds(flooded_canvas(g, n));
}

} // verus!
