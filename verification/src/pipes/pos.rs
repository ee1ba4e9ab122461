//! Positions on a grid or a canvas, which may lie off it on any side.

use vstd::prelude::*;

verus! {

/// A column and a row. Both are signed, so that the neighbour of a cell on the
/// west or north edge is a position like any other, one that holds no cell.
#[derive(Clone, Copy, Debug, PartialEq, Eq, Structural)]
pub struct Pos {
    pub x: isize,
    pub y: isize,
}

/// The flat index of column `x`, row `y` in rows of `stride` cells, where the
/// column lies in a row and the index fits the machine word.
pub open spec fn flat_index(x: int, y: int, stride: int) -> Option<int> {
    if 0 <= x < stride && 0 <= y && y * stride + x <= usize::MAX {
        Some(y * stride + x)
    } else {
        None
    }
}

impl Pos {
    /// The position of column `x`, row `y`.
    pub fn new(x: usize, y: usize) -> (p: Pos)
        requires
            x <= isize::MAX,
            y <= isize::MAX,
        ensures
            p.x == x,
            p.y == y,
    {
        Pos { x: x as isize, y: y as isize }
    }

    /// The flat index of this position in rows of `stride` cells; `None` for a
    /// position west of column 0, north of row 0, east of the last column, or
    /// so far south that no index can name it.
    pub fn index(self, stride: usize) -> (i: Option<usize>)
        ensures
            match flat_index(self.x as int, self.y as int, stride as int) {
                Some(k) => i == Some(k as usize),
                None => i.is_none(),
            },
    {
        if self.x < 0 || self.y < 0 {
            return None;
        }
        let x = self.x as usize;
        let y = self.y as usize;
        if x >= stride {
            return None;
        }
        assert(stride > 0);
        if y > (usize::MAX - x) / stride {
            assert(y * stride + x > usize::MAX) by (nonlinear_arith)
                requires
                    stride > 0,
                    y > (usize::MAX - x) / stride as int,
                    x <= usize::MAX,
            ;
            return None;
        }
        assert(y * stride + x <= usize::MAX) by (nonlinear_arith)
            requires
                stride > 0,
                y <= (usize::MAX - x) / stride as int,
                0 <= x <= usize::MAX,
                0 <= y,
        ;
        Some(y * stride + x)
    }

    /// One column to the east.
    pub fn move_east(self) -> (p: Pos)
        requires
            self.x < isize::MAX,
        ensures
            p.x == self.x + 1,
            p.y == self.y,
    {
        Pos { x: self.x + 1, y: self.y }
    }

    /// One row to the north.
    pub fn move_north(self) -> (p: Pos)
        requires
            self.y > isize::MIN,
        ensures
            p.x == self.x,
            p.y == self.y - 1,
    {
        Pos { x: self.x, y: self.y - 1 }
    }

    /// One row to the south.
    pub fn move_south(self) -> (p: Pos)
        requires
            self.y < isize::MAX,
        ensures
            p.x == self.x,
            p.y == self.y + 1,
    {
        Pos { x: self.x, y: self.y + 1 }
    }

    /// One column to the west.
    pub fn move_west(self) -> (p: Pos)
        requires
            self.x > isize::MIN,
        ensures
            p.x == self.x - 1,
            p.y == self.y,
    {
        Pos { x: self.x - 1, y: self.y }
    }

    /// Both coordinates multiplied by `mul`.
    pub fn scale_up(&self, mul: isize) -> (p: Pos)
        requires
            isize::MIN <= self.x * mul <= isize::MAX,
            isize::MIN <= self.y * mul <= isize::MAX,
        ensures
            p.x == self.x * mul,
            p.y == self.y * mul,
    {
        Pos { x: self.x * mul, y: self.y * mul }
    }
}

} // verus!
