//! The grid of pipes and its parser.

use vstd::prelude::*;
use vstd::string::StringSliceAdditionalSpecFns;
use crate::pipes::error::LoopError;
use crate::layout::{lemma_cell_index, lemma_index_cell};
use crate::pipes::pipe::{decode, Pipe, SYM_START};
use crate::pipes::pos::Pos;
use crate::text::{
    content, content_of, first_line_len, lemma_line_len_end, lemma_shape, lemma_symbol_index,
    line_len, rectangular, row_count, symbol_at, NEWLINE,
};

verus! {

/// A grid as a value of mathematics: its rows from north to south, each a
/// sequence of pipes from west to east, and the column and row of the start
/// cell.
pub struct GridView {
    pub cells: Seq<Seq<Pipe>>,
    pub start: (int, int),
}

impl GridView {
    /// The number of rows.
    pub open spec fn height(self) -> int {
        self.cells.len() as int
    }

    /// The number of columns.
    pub open spec fn width(self) -> int {
        if self.cells.len() > 0 {
            self.cells[0].len() as int
        } else {
            0
        }
    }

    /// Whether column `x`, row `y` is a cell of the grid.
    pub open spec fn contains(self, x: int, y: int) -> bool {
        0 <= x < self.width() && 0 <= y < self.height()
    }

    /// The pipe in column `x`, row `y`; no pipe where the grid has no cell.
    pub open spec fn at(self, x: int, y: int) -> Pipe {
        if self.contains(x, y) {
            self.cells[y][x]
        } else {
            Pipe(0)
        }
    }

    /// A grid has at least one cell, rows of one length, and a start cell
    /// that bears the start mark.
    pub open spec fn valid(self) -> bool {
        &&& self.height() >= 1
        &&& self.width() >= 1
        &&& forall|y: int| 0 <= y < self.height() ==>
            (#[trigger] self.cells[y]).len() == self.width()
        &&& self.contains(self.start.0, self.start.1)
        &&& self.cells[self.start.1][self.start.0] == Pipe(15)
    }
}

/// Whether a rectangular text can be read as a grid: each symbol belongs to
/// the alphabet, and the start symbol occurs exactly once.
pub open spec fn readable(s: Seq<u8>) -> bool {
    &&& forall|i: int| 0 <= i < s.len() ==> (#[trigger] s[i]) == NEWLINE || decode(s[i]).is_some()
    &&& exists|i: int| 0 <= i < s.len() && #[trigger] s[i] == SYM_START
    &&& forall|i: int, j: int|
        0 <= i < s.len() && 0 <= j < s.len() && #[trigger] s[i] == SYM_START && #[trigger] s[j]
            == SYM_START ==> i == j
}

/// The place in the text of a start symbol.
pub open spec fn start_index(s: Seq<u8>) -> int {
    choose|i: int| 0 <= i < s.len() && #[trigger] s[i] == SYM_START
}

/// The grid that a readable rectangular text stands for.
pub open spec fn grid_of(s: Seq<u8>) -> GridView {
    let w = line_len(s);
    let i = start_index(s);
    GridView {
        cells: Seq::new(
            row_count(s) as nat,
            |y: int| Seq::new(w as nat, |x: int| decode(symbol_at(s, x, y)).unwrap()),
        ),
        start: (i % (w + 1), i / (w + 1)),
    }
}

/// A rectangular array of pipes with the position of its start cell. It is
/// built once from a text and never changed.
pub struct Grid {
    data: Vec<Pipe>,
    width: usize,
    height: usize,
    start: Pos,
}

impl View for Grid {
    type V = GridView;

    closed spec fn view(&self) -> GridView {
        GridView {
            cells: Seq::new(
                self.height as nat,
                |y: int| Seq::new(self.width as nat, |x: int| self.data@[y * self.width + x]),
            ),
            start: (self.start.x as int, self.start.y as int),
        }
    }
}

/// The pipe of column `x`, row `y` in rows of `w` pipes kept in `data`.
spec fn cell_of(data: Seq<Pipe>, w: int, x: int, y: int) -> Pipe {
    data[y * w + x]
}

impl Grid {
    /// The cells are kept row by row.
    pub closed spec fn stored(&self) -> bool {
        self.data@.len() == self.width * self.height
    }

    /// The grid is valid, and its columns and rows can be counted in a signed
    /// machine word.
    pub open spec fn wf(&self) -> bool {
        &&& self.stored()
        &&& self@.valid()
        &&& self@.width() <= isize::MAX
        &&& self@.height() <= isize::MAX
    }

    /// What the view of a well-formed grid holds.
    proof fn lemma_view(&self)
        requires
            self.wf(),
        ensures
            self@.width() == self.width,
            self@.height() == self.height,
            self.data@.len() == self.width * self.height,
            forall|x: int, y: int|
                0 <= x < self.width && 0 <= y < self.height ==> #[trigger] self@.at(x, y)
                    == cell_of(self.data@, self.width as int, x, y),
    {
        assert(self@.cells[0].len() == self.width);
    }

    /// The number of columns.
    pub fn width(&self) -> (w: usize)
        requires
            self.wf(),
        ensures
            w == self@.width(),
    {
        proof {
            self.lemma_view();
        }
        self.width
    }

    /// The number of rows.
    pub fn height(&self) -> (h: usize)
        requires
            self.wf(),
        ensures
            h == self@.height(),
    {
        proof {
            self.lemma_view();
        }
        self.height
    }

    /// The number of cells.
    pub fn cell_count(&self) -> (n: usize)
        requires
            self.wf(),
        ensures
            n == self@.width() * self@.height(),
    {
        proof {
            self.lemma_view();
        }
        self.data.len()
    }

    /// The position of the start cell.
    pub fn start(&self) -> (p: Pos)
        requires
            self.wf(),
        ensures
            (p.x as int, p.y as int) == self@.start,
    {
        self.start
    }

    /// The pipe at `pos`; no pipe for a position off the grid.
    pub fn get(&self, pos: Pos) -> (p: Pipe)
        requires
            self.wf(),
        ensures
            p == self@.at(pos.x as int, pos.y as int),
    {
        proof {
            self.lemma_view();
        }
        let found = pos.index(self.width);
        let len = self.data.len();
        proof {
            let (x, y, w, h) = (pos.x as int, pos.y as int, self.width as int, self.height as int);
            if 0 <= x < w && 0 <= y < h {
                lemma_cell_index(x, y, w, h);
                assert(self@.at(x, y) == cell_of(self.data@, w, x, y));
            } else if 0 <= x < w && 0 <= y {
                assert(y * w + x >= w * h) by (nonlinear_arith)
                    requires
                        y >= h,
                        0 <= x,
                        0 < w,
                ;
            }
        }
        match found {
            Some(i) => {
                if i < len {
                    self.data[i]
                } else {
                    Pipe(0)
                }
            },
            None => Pipe(0),
        }
    }

    /// Reads a grid from its text. White space around the text is set aside,
    /// and a line may end with a carriage return before its line feed; the
    /// lines that remain must be equally long. The text is rejected where
    /// it holds a symbol outside the alphabet, no start symbol, or more than
    /// one.
    pub fn from_input(input: &str) -> (r: Result<Grid, LoopError>)
        requires
            input.spec_bytes().len() <= isize::MAX,
            rectangular(content(input.spec_bytes())),
        ensures
            match r {
                Ok(g) => {
                    &&& readable(content(input.spec_bytes()))
                    &&& g.wf()
                    &&& g@ == grid_of(content(input.spec_bytes()))
                },
                Err(e) => e == LoopError::Format && !readable(content(input.spec_bytes())),
            },
    {
        let body = content_of(input.as_bytes());
        Grid::from_bytes(body.as_slice())
    }

    /// Reads a grid from a text that has no white space around it.
    pub fn from_bytes(s: &[u8]) -> (r: Result<Grid, LoopError>)
        requires
            s@.len() <= isize::MAX,
            rectangular(s@),
        ensures
            match r {
                Ok(g) => readable(s@) && g.wf() && g@ == grid_of(s@),
                Err(e) => e == LoopError::Format && !readable(s@),
            },
    {
        let n = s.len();
        let w = first_line_len(s);
        let stride = w + 1;
        proof {
            lemma_line_len_end(s@);
        }
        if w == 0 {
            proof {
                assert forall|i: int| 0 <= i < s@.len() implies (#[trigger] s@[i]) != SYM_START by {
                    assert(i % 1 == 0);
                }
            }
            return Err(LoopError::Format);
        }
        let h = (n - w) / stride + 1;
        proof {
            lemma_shape(n as int, w as int);
        }
        let mut data: Vec<Pipe> = Vec::new();
        let mut start: Option<Pos> = None;
        let mut y: usize = 0;
        let mut row: usize = 0;
        while y < h
            invariant
                0 < w,
                stride == w + 1,
                w == line_len(s@),
                n == s@.len(),
                n <= isize::MAX,
                rectangular(s@),
                h * stride == n + 1,
                h == row_count(s@),
                y <= h,
                row == y * stride,
                data@.len() == y * w,
                forall|xx: int, yy: int|
                    0 <= xx < w && 0 <= yy < y ==> decode(#[trigger] symbol_at(s@, xx, yy))
                        == Some(cell_of(data@, w as int, xx, yy)),
                match start {
                    Some(p) => {
                        &&& 0 <= p.x < w
                        &&& 0 <= p.y < y
                        &&& symbol_at(s@, p.x as int, p.y as int) == SYM_START
                        &&& forall|xx: int, yy: int|
                            0 <= xx < w && 0 <= yy < y && #[trigger] symbol_at(s@, xx, yy)
                                == SYM_START ==> xx == p.x && yy == p.y
                    },
                    None => forall|xx: int, yy: int|
                        0 <= xx < w && 0 <= yy < y ==> #[trigger] symbol_at(s@, xx, yy)
                            != SYM_START,
                },
            decreases h - y,
        {
            let mut x: usize = 0;
            proof {
                assert((y + 1) * stride <= h * stride) by (nonlinear_arith)
                    requires
                        y + 1 <= h,
                        0 < stride,
                ;
                assert((y + 1) * stride == y * stride + stride) by (nonlinear_arith);
                assert((y + 1) * w == y * w + w) by (nonlinear_arith);
            }
            while x < w
                invariant
                    0 < w,
                    stride == w + 1,
                    w == line_len(s@),
                    n == s@.len(),
                    n <= isize::MAX,
                    rectangular(s@),
                    h * stride == n + 1,
                    y < h,
                    x <= w,
                    row == y * stride,
                    row + stride <= n + 1,
                    data@.len() == y * w + x,
                    forall|xx: int, yy: int|
                        0 <= xx < w && (0 <= yy < y || (yy == y && xx < x)) ==> decode(
                            #[trigger] symbol_at(s@, xx, yy),
                        ) == Some(cell_of(data@, w as int, xx, yy)),
                    match start {
                        Some(p) => {
                            &&& 0 <= p.x < w
                            &&& (0 <= p.y < y || (p.y == y && p.x < x))
                            &&& symbol_at(s@, p.x as int, p.y as int) == SYM_START
                            &&& forall|xx: int, yy: int|
                                0 <= xx < w && (0 <= yy < y || (yy == y && xx < x))
                                    && #[trigger] symbol_at(s@, xx, yy) == SYM_START ==> xx == p.x
                                    && yy == p.y
                        },
                        None => forall|xx: int, yy: int|
                            0 <= xx < w && (0 <= yy < y || (yy == y && xx < x))
                                ==> #[trigger] symbol_at(s@, xx, yy) != SYM_START,
                    },
                decreases w - x,
            {
                proof {
                    lemma_symbol_index(x as int, y as int, w as int, h as int, n as int);
                }
                let sym = s[row + x];
                assert(sym == symbol_at(s@, x as int, y as int));
                let pipe = match Pipe::from_input(sym) {
                    Ok(p) => p,
                    Err(_) => {
                        assert(s@[row + x] != NEWLINE);
                        return Err(LoopError::Format);
                    },
                };
                if sym == SYM_START {
                    if start.is_some() {
                        proof {
                            let p = start.unwrap();
                            lemma_symbol_index(p.x as int, p.y as int, w as int, h as int,
                                n as int);
                            let i = p.y * stride + p.x;
                            let j = row + x;
                            assert(s@[i] == SYM_START);
                            assert(s@[j] == SYM_START);
                            if p.y == y {
                                assert(i != j);
                            } else {
                                assert(i != j) by (nonlinear_arith)
                                    requires
                                        p.y < y,
                                        0 <= p.x < stride,
                                        0 <= x,
                                        i == p.y * stride + p.x,
                                        j == y * stride + x,
                                ;
                            }
                        }
                        return Err(LoopError::Format);
                    }
                    start = Some(Pos::new(x, y));
                }
                let ghost before = data@;
                data.push(pipe);
                proof {
                    assert forall|xx: int, yy: int|
                        0 <= xx < w && (0 <= yy < y || (yy == y && xx < x + 1)) implies decode(
                        #[trigger] symbol_at(s@, xx, yy),
                    ) == Some(cell_of(data@, w as int, xx, yy)) by {
                        if yy == y && xx == x {
                        } else {
                            assert(decode(symbol_at(s@, xx, yy)) == Some(
                                cell_of(before, w as int, xx, yy),
                            ));
                            lemma_before(xx, yy, x as int, y as int, w as int);
                        }
                    }
                }
                x += 1;
            }
            row += stride;
            y += 1;
        }
        proof {
            assert(data@.len() == w * h) by (nonlinear_arith)
                requires
                    data@.len() == y * w,
                    y == h,
            ;
        }
        match start {
            None => {
                proof {
                    assert forall|i: int| 0 <= i < s@.len() implies (#[trigger] s@[i])
                        != SYM_START by {
                        lemma_text_cell(s@, i);
                        if i % (stride as int) != w {
                            assert(symbol_at(s@, i % (stride as int), i / (stride as int))
                                != SYM_START);
                        }
                    }
                }
                Err(LoopError::Format)
            },
            Some(p) => {
                let g = Grid { data, width: w, height: h, start: p };
                proof {
                    let (px, py) = (p.x as int, p.y as int);
                    lemma_symbol_index(px, py, w as int, h as int, n as int);
                    let k = py * stride + px;
                    assert(s@[k] == SYM_START);
                    assert forall|i: int| 0 <= i < s@.len() implies (#[trigger] s@[i]) == NEWLINE
                        || decode(s@[i]).is_some() by {
                        lemma_text_cell(s@, i);
                        if i % (stride as int) != w {
                            assert(decode(symbol_at(s@, i % (stride as int), i / (stride as int)))
                                .is_some());
                        }
                    }
                    assert forall|i: int, j: int|
                        0 <= i < s@.len() && 0 <= j < s@.len() && #[trigger] s@[i] == SYM_START
                            && #[trigger] s@[j] == SYM_START implies i == j by {
                        lemma_text_cell(s@, i);
                        lemma_text_cell(s@, j);
                        assert(symbol_at(s@, i % (stride as int), i / (stride as int))
                            == SYM_START);
                        assert(symbol_at(s@, j % (stride as int), j / (stride as int))
                            == SYM_START);
                    }
                    assert(readable(s@));
                    assert(start_index(s@) == k);
                    assert(g@.cells =~~= grid_of(s@).cells) by {
                        assert forall|yy: int, xx: int| 0 <= yy < h && 0 <= xx < w
                            implies g@.cells[yy][xx]
                            == grid_of(s@).cells[yy][xx] by {
                            assert(decode(symbol_at(s@, xx, yy)) == Some(
                                cell_of(data@, w as int, xx, yy),
                            ));
                        }
                    }
                    assert(g@.cells[py][px] == Pipe(15)) by {
                        assert(decode(symbol_at(s@, px, py)) == Some(
                            cell_of(g.data@, w as int, px, py),
                        ));
                    }
                    assert(g@ == grid_of(s@));
                }
                Ok(g)
            },
        }
    }
}

/// A cell written earlier keeps its place in front of column `x`, row `y`.
proof fn lemma_before(xx: int, yy: int, x: int, y: int, w: int)
    requires
        0 <= xx < w,
        0 <= x < w,
        0 <= yy < y || (yy == y && xx < x),
        0 <= y,
    ensures
        0 <= yy * w + xx < y * w + x,
{
    if yy < y {
        assert(0 <= yy * w + xx < y * w + x) by (nonlinear_arith)
            requires
                0 <= xx < w,
                0 <= x < w,
                0 <= yy < y,
        {
            assert((yy + 1) * w <= y * w);
            assert(0 <= yy * w);
        }
    } else {
        assert(0 <= y * w) by (nonlinear_arith)
            requires
                0 <= y,
                0 < w,
        ;
    }
}

/// Each byte of a rectangular text is a newline at the end of a line or the
/// symbol of a cell.
proof fn lemma_text_cell(s: Seq<u8>, i: int)
    requires
        rectangular(s),
        0 <= i < s.len(),
        0 < line_len(s),
    ensures
        0 <= i % (line_len(s) + 1) <= line_len(s),
        0 <= i / (line_len(s) + 1) < row_count(s),
        i == (i / (line_len(s) + 1)) * (line_len(s) + 1) + i % (line_len(s) + 1),
        i % (line_len(s) + 1) == line_len(s) ==> s[i] == NEWLINE,
        i % (line_len(s) + 1) != line_len(s) ==> symbol_at(
            s,
            i % (line_len(s) + 1),
            i / (line_len(s) + 1),
        ) == s[i],
{
    let d = line_len(s) + 1;
    let n = s.len() as int;
    lemma_line_len_end(s);
    if d - 1 == n {
        vstd::arithmetic::div_mod::lemma_mod_self_0(d);
    }
    lemma_shape(n, d - 1);
    let h = row_count(s);
    assert(d * h == h * d) by (nonlinear_arith);
    lemma_index_cell(i, d, h);
}

/// The grid of a readable text has the columns and rows of the text.
pub proof fn lemma_grid_of_shape(s: Seq<u8>)
    requires
        rectangular(s),
        readable(s),
    ensures
        grid_of(s).width() == line_len(s),
        grid_of(s).height() == row_count(s),
        row_count(s) >= 1,
{
    lemma_line_len_end(s);
    let i = start_index(s);
    assert(s.len() >= 1);
    let d = line_len(s) + 1;
    assert(row_count(s) >= 1) by {
        let n = s.len() as int;
        vstd::arithmetic::div_mod::lemma_fundamental_div_mod(n + 1, d);
        let q = (n + 1) / d;
        let m = (n + 1) % d;
        assert(q >= 1) by (nonlinear_arith)
            requires
                d * q + m == n + 1,
                m == 0,
                d >= 1,
                n >= 1,
        ;
    }
    assert(grid_of(s).cells[0].len() == line_len(s));
}

/// Reads a grid from its text.
pub fn parse(text: &str) -> (r: Result<Grid, LoopError>)
    requires
        text.spec_bytes().len() <= isize::MAX,
        rectangular(content(text.spec_bytes())),
    ensures
        match r {
            Ok(g) => {
                &&& readable(content(text.spec_bytes()))
                &&& g.wf()
                &&& g@ == grid_of(content(text.spec_bytes()))
            },
            Err(e) => e == LoopError::Format && !readable(content(text.spec_bytes())),
        },
{
    Grid::from_input(text)
}

} // verus!
