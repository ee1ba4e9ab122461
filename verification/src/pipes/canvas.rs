//! The canvas: the grid at three times its size, on which the loop is drawn
//! so that the gap between two pipes that touch becomes a cell of its own.

use vstd::prelude::*;
use crate::layout::{lemma_cell_index, lemma_cell_unique};
use crate::pipes::pipe::{Pipe, EAST, NORTH, SOUTH, WEST};
use crate::pipes::pos::{flat_index, Pos};

verus! {

/// A cell that nothing was drawn on.
pub const BLANK: u8 = 32;

/// A cell of the block of a loop cell that the pipe leaves free.
pub const TRIM: u8 = 45;

/// A cell of the block of a loop cell that the pipe passes through.
pub const WALL: u8 = 42;

/// The centre of the block of the start cell.
pub const START_MARK: u8 = 83;

/// The centre of the block of any other loop cell.
pub const LOOP_MARK: u8 = 42;

/// A blank cell that the flood has reached.
pub const FLOODED_BLANK: u8 = 35;

/// A free cell of a loop block that the flood has reached.
pub const FLOODED_TRIM: u8 = 64;

/// Whether the flood can enter a cell with this content.
pub open spec fn is_open(c: u8) -> bool {
    c == BLANK || c == TRIM
}

/// The content of a cell once the flood has entered it.
pub open spec fn flooded(c: u8) -> u8 {
    if c == BLANK {
        FLOODED_BLANK
    } else if c == TRIM {
        FLOODED_TRIM
    } else {
        c
    }
}

/// The number of columns of a raster.
pub open spec fn cols(r: Seq<Seq<u8>>) -> int {
    if r.len() > 0 {
        r[0].len() as int
    } else {
        0
    }
}

/// Whether all rows of a raster have one length.
pub open spec fn regular(r: Seq<Seq<u8>>) -> bool {
    forall|y: int| 0 <= y < r.len() ==> (#[trigger] r[y]).len() == cols(r)
}

/// Whether column `x`, row `y` is a cell of the raster.
pub open spec fn on_raster(r: Seq<Seq<u8>>, x: int, y: int) -> bool {
    0 <= y < r.len() && 0 <= x < r[y].len()
}

/// Whether column `x`, row `y` is a cell of the raster that the flood can
/// enter.
pub open spec fn open_at(r: Seq<Seq<u8>>, x: int, y: int) -> bool {
    on_raster(r, x, y) && is_open(r[y][x])
}

/// The raster with the content of column `x`, row `y` replaced by `v`.
pub open spec fn with_cell(r: Seq<Seq<u8>>, x: int, y: int, v: u8) -> Seq<Seq<u8>> {
    r.update(y, r[y].update(x, v))
}

/// A raster of blank cells.
pub open spec fn blank_raster(columns: int, rows: int) -> Seq<Seq<u8>> {
    Seq::new(rows as nat, |y: int| Seq::new(columns as nat, |x: int| BLANK))
}

/// The content of column `sx`, row `sy` of the three by three block of a loop
/// cell with the given pipe: `centre` in the middle, a wall in the middle of
/// each side towards which the pipe connects, and free cells elsewhere.
pub open spec fn block_cell(sx: int, sy: int, centre: u8, pipe: Pipe) -> u8 {
    if sx == 1 && sy == 1 {
        centre
    } else if sx == 1 && sy == 0 && pipe.connects(Pipe(NORTH)) {
        WALL
    } else if sx == 0 && sy == 1 && pipe.connects(Pipe(WEST)) {
        WALL
    } else if sx == 2 && sy == 1 && pipe.connects(Pipe(EAST)) {
        WALL
    } else if sx == 1 && sy == 2 && pipe.connects(Pipe(SOUTH)) {
        WALL
    } else {
        TRIM
    }
}

/// Whether column `cx`, row `cy` of a canvas lies in the block of the grid
/// cell in column `x`, row `y`.
pub open spec fn in_block(cx: int, cy: int, x: int, y: int) -> bool {
    3 * x + 1 <= cx <= 3 * x + 3 && 3 * y + 1 <= cy <= 3 * y + 3
}

/// The raster with the block of the grid cell in column `x`, row `y` drawn
/// over what was there.
pub open spec fn stamp(r: Seq<Seq<u8>>, x: int, y: int, centre: u8, pipe: Pipe) -> Seq<Seq<u8>> {
    Seq::new(
        r.len(),
        |cy: int|
            Seq::new(
                r[cy].len(),
                |cx: int|
                    if in_block(cx, cy, x, y) {
                        block_cell(cx - 3 * x - 1, cy - 3 * y - 1, centre, pipe)
                    } else {
                        r[cy][cx]
                    },
            ),
    )
}

/// The number of blank cells among the first `n` of a row.
pub open spec fn blank_prefix(row: Seq<u8>, n: int) -> int
    decreases n,
{
    if n <= 0 {
        0
    } else {
        blank_prefix(row, n - 1) + if row[n - 1] == BLANK {
            1int
        } else {
            0
        }
    }
}

/// The number of blank cells in the first `m` rows of a raster.
pub open spec fn blank_rows(r: Seq<Seq<u8>>, m: int) -> int
    decreases m,
{
    if m <= 0 {
        0
    } else {
        blank_rows(r, m - 1) + blank_prefix(r[m - 1], r[m - 1].len() as int)
    }
}

/// The number of blank cells of a raster.
pub open spec fn blank_total(r: Seq<Seq<u8>>) -> int {
    blank_rows(r, r.len() as int)
}

/// The number of cells of a flat sequence that the flood can enter.
pub open spec fn open_cells(s: Seq<u8>) -> nat
    decreases s.len(),
{
    if s.len() == 0 {
        0
    } else {
        open_cells(s.drop_last()) + if is_open(s.last()) {
            1nat
        } else {
            0
        }
    }
}

/// Closing one open cell leaves one open cell less.
proof fn lemma_open_cells_close(s: Seq<u8>, i: int, v: u8)
    requires
        0 <= i < s.len(),
        is_open(s[i]),
        !is_open(v),
    ensures
        open_cells(s.update(i, v)) == open_cells(s) - 1,
    decreases s.len(),
{
    let t = s.update(i, v);
    if i == s.len() - 1 {
        assert(t.drop_last() =~= s.drop_last());
    } else {
        assert(t.drop_last() =~= s.drop_last().update(i, v));
        lemma_open_cells_close(s.drop_last(), i, v);
    }
}

/// The content of column `x`, row `y` in rows of `stride` cells kept in
/// `data`.
spec fn cell_of(data: Seq<u8>, stride: int, x: int, y: int) -> u8 {
    data[y * stride + x]
}

/// The canvas of a grid. Each cell of the grid has a block of three by three
/// cells on it, and one row or column of cells runs around the blocks on
/// every side, so that the corner of the canvas lies outside any loop.
pub struct FilledGrid {
    data: Vec<u8>,
    width: usize,
    height: usize,
    stride: usize,
}

impl View for FilledGrid {
    type V = Seq<Seq<u8>>;

    closed spec fn view(&self) -> Seq<Seq<u8>> {
        Seq::new(
            (3 * self.height + 2) as nat,
            |y: int| Seq::new(self.stride as nat, |x: int| self.data@[y * self.stride + x]),
        )
    }
}

/// Whether a canvas for a grid of `width` by `height` cells can be kept in
/// memory and addressed by positions.
pub open spec fn canvas_fits(width: int, height: int) -> bool {
    0 <= width && 0 <= height && (3 * width + 2) * (3 * height + 2) <= isize::MAX
}

impl FilledGrid {
    /// The number of columns of the grid that the canvas was made for.
    pub closed spec fn grid_width(&self) -> int {
        self.width as int
    }

    /// The number of rows of the grid that the canvas was made for.
    pub closed spec fn grid_height(&self) -> int {
        self.height as int
    }

    /// The cells are kept row by row.
    pub closed spec fn stored(&self) -> bool {
        &&& self.stride == 3 * self.width + 2
        &&& self.data@.len() == self.stride * (3 * self.height + 2)
        &&& self.data@.len() <= isize::MAX
    }

    /// The number of cells that the flood can still enter.
    pub closed spec fn open_count(&self) -> nat {
        open_cells(self.data@)
    }

    /// The canvas has three rows and columns for each of the grid and two
    /// more, and fits the machine.
    pub open spec fn wf(&self) -> bool {
        &&& self.stored()
        &&& regular(self@)
        &&& self@.len() == 3 * self.grid_height() + 2
        &&& cols(self@) == 3 * self.grid_width() + 2
        &&& canvas_fits(self.grid_width(), self.grid_height())
    }

    /// What the view of a stored canvas holds.
    proof fn lemma_view(&self)
        requires
            self.stored(),
        ensures
            self.wf(),
            self@.len() == 3 * self.height + 2,
            cols(self@) == self.stride,
            3 * self.height + 2 <= isize::MAX,
            self.stride <= isize::MAX,
            forall|x: int, y: int|
                0 <= x < self.stride && 0 <= y < 3 * self.height + 2 ==> (#[trigger] self@[y][x])
                    == cell_of(self.data@, self.stride as int, x, y),
    {
        let rows = 3 * self.height + 2;
        let stride = self.stride as int;
        assert(self@[0].len() == self.stride);
        assert(rows <= isize::MAX && stride <= isize::MAX) by (nonlinear_arith)
            requires
                stride * rows <= isize::MAX,
                stride >= 2,
                rows >= 2,
        ;
    }

    /// A canvas of blank cells for a grid of `width` by `height` cells.
    pub fn new(width: usize, height: usize) -> (c: FilledGrid)
        requires
            canvas_fits(width as int, height as int),
        ensures
            c.wf(),
            c.grid_width() == width,
            c.grid_height() == height,
            c@ == blank_raster(3 * width + 2, 3 * height + 2),
    {
        proof {
            let (w, h) = (3 * width + 2, 3 * height + 2);
            assert(w <= w * h && h <= w * h && h * w == w * h) by (nonlinear_arith)
                requires
                    w >= 2,
                    h >= 2,
            ;
        }
        let raw_width = 2 + (width * 3);
        let raw_height = 2 + (height * 3);
        let c = FilledGrid { data: vec![BLANK; raw_height * raw_width], width, height,
            stride: raw_width };
        proof {
            assert(raw_height * raw_width == raw_width * raw_height) by (nonlinear_arith);
            c.lemma_view();
            assert forall|y: int, x: int| 0 <= y < raw_height && 0 <= x < raw_width implies c@[y][x]
                == BLANK by {
                lemma_cell_index(x, y, raw_width as int, raw_height as int);
            }
            assert(c@ =~~= blank_raster(3 * width + 2, 3 * height + 2));
        }
        c
    }

    /// The number of columns of the grid that the canvas was made for.
    pub fn width(&self) -> (w: usize)
        requires
            self.wf(),
        ensures
            w == self.grid_width(),
    {
        self.width
    }

    /// The number of rows of the grid that the canvas was made for.
    pub fn height(&self) -> (h: usize)
        requires
            self.wf(),
        ensures
            h == self.grid_height(),
    {
        self.height
    }

    /// The content of column `x`, row `y` of the canvas.
    pub fn cell(&self, x: usize, y: usize) -> (v: u8)
        requires
            self.wf(),
            on_raster(self@, x as int, y as int),
        ensures
            v == self@[y as int][x as int],
    {
        proof {
            self.lemma_view();
            lemma_cell_index(x as int, y as int, self.stride as int, 3 * self.height + 2);
        }
        self.data[y * self.stride + x]
    }

    /// Writes `v` into column `x`, row `y` of the canvas.
    fn put(&mut self, x: usize, y: usize, v: u8)
        requires
            old(self).wf(),
            on_raster(old(self)@, x as int, y as int),
        ensures
            final(self).wf(),
            final(self).grid_width() == old(self).grid_width(),
            final(self).grid_height() == old(self).grid_height(),
            final(self)@ == with_cell(old(self)@, x as int, y as int, v),
            final(self).data@ == old(self).data@.update(y * old(self).stride + x, v),
    {
        proof {
            self.lemma_view();
            lemma_cell_index(x as int, y as int, self.stride as int, 3 * self.height + 2);
        }
        let i = y * self.stride + x;
        self.data.set(i, v);
        proof {
            self.lemma_view();
            let stride = self.stride as int;
            let rows = 3 * self.height + 2;
            let goal = with_cell(old(self)@, x as int, y as int, v);
            assert forall|cy: int, cx: int| 0 <= cy < rows && 0 <= cx < stride implies self@[cy][cx]
                == goal[cy][cx] by {
                lemma_cell_index(cx, cy, stride, rows);
                if cy * stride + cx == i {
                    lemma_cell_unique(cx, cy, x as int, y as int, stride);
                }
                assert(old(self)@[cy][cx] == cell_of(old(self).data@, stride, cx, cy));
            }
            assert(self@ =~~= goal);
        }
    }

    /// Draws the block of the grid cell at `pos`, which lies on the loop:
    /// `value` in the centre, a wall towards each direction in which `pipe`
    /// connects, free cells elsewhere.
    pub fn set(&mut self, pos: Pos, value: u8, pipe: Pipe)
        requires
            old(self).wf(),
            0 <= pos.x < old(self).grid_width(),
            0 <= pos.y < old(self).grid_height(),
        ensures
            final(self).wf(),
            final(self).grid_width() == old(self).grid_width(),
            final(self).grid_height() == old(self).grid_height(),
            final(self)@ == stamp(old(self)@, pos.x as int, pos.y as int, value, pipe),
    {
        proof {
            self.lemma_view();
        }
        let corner = pos.scale_up(3);
        let x = corner.x as usize + 1;
        let y = corner.y as usize + 1;
        let north = if pipe.can_move_north() { WALL } else { TRIM };
        let west = if pipe.can_move_west() { WALL } else { TRIM };
        let east = if pipe.can_move_east() { WALL } else { TRIM };
        let south = if pipe.can_move_south() { WALL } else { TRIM };
        self.put(x, y, TRIM);
        self.put(x + 1, y, north);
        self.put(x + 2, y, TRIM);
        self.put(x, y + 1, west);
        self.put(x + 1, y + 1, value);
        self.put(x + 2, y + 1, east);
        self.put(x, y + 2, TRIM);
        self.put(x + 1, y + 2, south);
        self.put(x + 2, y + 2, TRIM);
        proof {
            assert(self@ =~~= stamp(old(self)@, pos.x as int, pos.y as int, value, pipe));
        }
    }

    /// Whether the flood can enter the cell at `pos`: it lies on the canvas,
    /// and is blank or a free cell of a loop block that no flood has reached.
    pub fn is_set_raw(&self, pos: Pos) -> (b: bool)
        requires
            self.wf(),
        ensures
            b == open_at(self@, pos.x as int, pos.y as int),
    {
        let found = pos.index(self.stride);
        let len = self.data.len();
        proof {
            self.lemma_view();
            self.lemma_index(pos);
        }
        match found {
            Some(i) => {
                if i < len {
                    let v = self.data[i];
                    v == BLANK || v == TRIM
                } else {
                    false
                }
            },
            None => false,
        }
    }

    /// The flat index of a position tells whether it lies on the canvas.
    proof fn lemma_index(&self, pos: Pos)
        requires
            self.stored(),
        ensures
            match flat_index(pos.x as int, pos.y as int, self.stride as int) {
                Some(i) => if i < self.data@.len() {
                    on_raster(self@, pos.x as int, pos.y as int)
                        && self@[pos.y as int][pos.x as int]
                        == self.data@[i]
                } else {
                    !on_raster(self@, pos.x as int, pos.y as int)
                },
                None => !on_raster(self@, pos.x as int, pos.y as int),
            },
    {
        self.lemma_view();
        let (x, y, w, h) = (pos.x as int, pos.y as int, self.stride as int, 3 * self.height + 2);
        if 0 <= x < w && 0 <= y < h {
            lemma_cell_index(x, y, w, h);
            assert(self@[y][x] == cell_of(self.data@, w, x, y));
        } else if 0 <= x < w && 0 <= y {
            assert(y * w + x >= w * h) by (nonlinear_arith)
                requires
                    y >= h,
                    0 <= x,
                    0 < w,
            ;
        }
    }

    /// Lets the flood enter the cell at `pos` if it can, and tells whether
    /// it did.
    pub fn try_set_raw(&mut self, pos: Pos) -> (b: bool)
        requires
            old(self).wf(),
        ensures
            final(self).wf(),
            final(self).grid_width() == old(self).grid_width(),
            final(self).grid_height() == old(self).grid_height(),
            b == open_at(old(self)@, pos.x as int, pos.y as int),
            b ==> final(self)@ == with_cell(
                old(self)@,
                pos.x as int,
                pos.y as int,
                flooded(old(self)@[pos.y as int][pos.x as int]),
            ),
            b ==> final(self).open_count() == old(self).open_count() - 1,
            !b ==> final(self)@ == old(self)@,
            !b ==> final(self).open_count() == old(self).open_count(),
    {
        let found = pos.index(self.stride);
        let len = self.data.len();
        proof {
            self.lemma_view();
            self.lemma_index(pos);
        }
        match found {
            Some(i) => {
                if i < len {
                    let v = self.data[i];
                    if v == BLANK || v == TRIM {
                        let marked = if v == BLANK { FLOODED_BLANK } else { FLOODED_TRIM };
                        proof {
                            lemma_open_cells_close(self.data@, i as int, marked);
                        }
                        self.put(pos.x as usize, pos.y as usize, marked);
                        true
                    } else {
                        false
                    }
                } else {
                    false
                }
            },
            None => false,
        }
    }

    /// Counts the blank cells of the canvas.
    pub fn count_blank(&self) -> (n: usize)
        requires
            self.wf(),
        ensures
            n == blank_total(self@),
    {
        proof {
            self.lemma_view();
        }
        let rows = 3 * self.height + 2;
        let mut n: usize = 0;
        let mut y: usize = 0;
        while y < rows
            invariant
                self.wf(),
                self.stored(),
                rows == 3 * self.height + 2,
                y <= rows,
                n == blank_rows(self@, y as int),
                n <= y * self.stride,
            decreases rows - y,
        {
            proof {
                self.lemma_view();
                assert((y + 1) * self.stride == y * self.stride + self.stride) by (nonlinear_arith);
                assert((y + 1) * self.stride <= rows * self.stride) by (nonlinear_arith)
                    requires
                        y + 1 <= rows,
                ;
                assert(rows * self.stride == self.stride * rows) by (nonlinear_arith);
            }
            let ghost above = n;
            let mut x: usize = 0;
            while x < self.stride
                invariant
                    self.wf(),
                    self.stored(),
                    rows == 3 * self.height + 2,
                    y < rows,
                    x <= self.stride,
                    above == blank_rows(self@, y as int),
                    n == above + blank_prefix(self@[y as int], x as int),
                    above <= y * self.stride,
                    n <= y * self.stride + x,
                    y * self.stride + self.stride <= self.data@.len(),
                    self.data@.len() <= isize::MAX,
                    self@[y as int].len() == self.stride,
                decreases self.stride - x,
            {
                if self.cell(x, y) == BLANK {
                    n += 1;
                }
                x += 1;
            }
            y += 1;
        }
        n
    }
}

} // verus!
