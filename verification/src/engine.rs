//! The plan of an engine: numbers and symbols on a grid. A number next to a
//! symbol is a part number, and a star next to two numbers is a gear.

use vstd::prelude::*;
use vstd::string::StringSliceAdditionalSpecFns;
use crate::numbers::is_digit;
use crate::layout::lemma_cell_index;
use crate::text::{
    content, content_of, grid_shape, line_len, rectangular, row_count, symbol, symbol_at,
};

verus! {

/// The symbol of an empty cell.
pub const DOT: u8 = 46;

/// The symbol of a gear.
pub const STAR: u8 = 42;

/// What a cell of the plan holds.
#[derive(Clone, Copy, Debug, PartialEq, Eq, Structural)]
pub enum Cell {
    /// A digit.
    Digit,
    /// A star.
    Gear,
    /// Nothing.
    Empty,
    /// Any other symbol.
    Part,
}

/// What the cell with the symbol `b` holds.
pub open spec fn cell_of(b: u8) -> Cell {
    if is_digit(b) {
        Cell::Digit
    } else if b == STAR {
        Cell::Gear
    } else if b == DOT {
        Cell::Empty
    } else {
        Cell::Part
    }
}

impl Cell {
    /// Whether the cell holds a symbol that makes the numbers next to it
    /// part numbers: a star or any symbol but a digit and a dot.
    pub open spec fn marks(self) -> bool {
        self == Cell::Gear || self == Cell::Part
    }

    /// What the cell with the symbol `b` holds.
    pub fn from_input(b: u8) -> (c: Cell)
        ensures
            c == cell_of(b),
    {
        if 48 <= b && b <= 57 {
            Cell::Digit
        } else if b == STAR {
            Cell::Gear
        } else if b == DOT {
            Cell::Empty
        } else {
            Cell::Part
        }
    }

    /// Whether the cell holds a symbol that makes the numbers next to it
    /// part numbers.
    pub fn is_part(&self) -> (b: bool)
        ensures
            b == self.marks(),
    {
        match self {
            Cell::Digit | Cell::Empty => false,
            Cell::Gear | Cell::Part => true,
        }
    }
}

/// Whether column `x`, row `y` is a cell of the plan.
pub open spec fn on_plan(s: Seq<u8>, x: int, y: int) -> bool {
    0 <= x < line_len(s) && 0 <= y < row_count(s)
}

/// Whether column `x`, row `y` holds a digit.
pub open spec fn digit_at(s: Seq<u8>, x: int, y: int) -> bool {
    on_plan(s, x, y) && is_digit(symbol_at(s, x, y))
}

/// The number of digits of the number that ends in column `x`, row `y`.
pub open spec fn run_len(s: Seq<u8>, x: int, y: int) -> nat
    decreases x + 1,
{
    if x < 0 || !digit_at(s, x, y) {
        0
    } else {
        1 + run_len(s, x - 1, y)
    }
}

/// The number that ends in column `x`, row `y`.
pub open spec fn run_value(s: Seq<u8>, x: int, y: int) -> nat
    decreases x + 1,
{
    if x < 0 || !digit_at(s, x, y) {
        0
    } else {
        run_value(s, x - 1, y) * 10 + (symbol_at(s, x, y) - 48) as nat
    }
}

/// Whether a number ends in column `x`, row `y`.
pub open spec fn ends_number(s: Seq<u8>, x: int, y: int) -> bool {
    digit_at(s, x, y) && !digit_at(s, x + 1, y)
}

/// Whether the number up to column `x`, row `y` can be kept: it has at most
/// 255 digits and is at most 65535.
pub open spec fn keeps(s: Seq<u8>, x: int, y: int) -> bool {
    run_len(s, x, y) <= 255 && run_value(s, x, y) <= 65535
}

/// Whether a text is the plan of an engine: its lines are equally long and
/// not empty, and each of its numbers can be kept.
pub open spec fn is_plan(s: Seq<u8>) -> bool {
    &&& rectangular(s)
    &&& line_len(s) >= 1
    &&& forall|x: int, y: int| on_plan(s, x, y) ==> #[trigger] keeps(s, x, y)
}

/// Whether a symbol stands next to the number of `len` digits that ends in
/// column `x`, row `y`.
pub open spec fn symbol_near(s: Seq<u8>, x: int, y: int, len: int) -> bool {
    exists|cx: int, cy: int|
        x - len <= cx <= x + 1 && y - 1 <= cy <= y + 1 && on_plan(s, cx, cy) && cell_of(
            #[trigger] symbol_at(s, cx, cy),
        ).marks()
}

/// The part number that ends in column `x`, row `y`: the number that ends
/// there, if it is not zero and a symbol stands next to it; else zero.
pub open spec fn part_number(s: Seq<u8>, x: int, y: int) -> nat {
    if ends_number(s, x, y) && run_value(s, x, y) >= 1 && symbol_near(
        s,
        x,
        y,
        run_len(s, x, y) as int,
    ) {
        run_value(s, x, y)
    } else {
        0
    }
}

/// The sum of the part numbers that end in the first `k` cells, counted row
/// by row.
pub open spec fn parts_sum(s: Seq<u8>, k: int) -> nat
    decreases k,
{
    if k <= 0 {
        0
    } else {
        parts_sum(s, k - 1) + part_number(s, (k - 1) % line_len(s), (k - 1) / line_len(s))
    }
}

/// The numbers of row `y` that end before column `e` and touch one of the
/// columns from `x - 1` to `x + 1`, from west to east.
pub open spec fn near_in_row(s: Seq<u8>, x: int, y: int, e: int) -> Seq<nat>
    decreases e,
{
    if e <= 0 {
        Seq::empty()
    } else {
        let before = near_in_row(s, x, y, e - 1);
        if ends_number(s, e - 1, y) && e - 1 >= x - 1 && e - 1 - run_len(s, e - 1, y) + 1 <= x + 1 {
            before.push(run_value(s, e - 1, y))
        } else {
            before
        }
    }
}

/// The numbers next to column `x`, row `y`: those of the row above, of the
/// row itself and of the row below.
pub open spec fn near(s: Seq<u8>, x: int, y: int) -> Seq<nat> {
    near_in_row(s, x, y - 1, line_len(s)) + near_in_row(s, x, y, line_len(s)) + near_in_row(
        s,
        x,
        y + 1,
        line_len(s),
    )
}

/// The ratio of the gear in column `x`, row `y`: the product of the first
/// two numbers next to a star, if there are two; else zero.
pub open spec fn gear_ratio(s: Seq<u8>, x: int, y: int) -> nat {
    if on_plan(s, x, y) && symbol_at(s, x, y) == STAR && near(s, x, y).len() >= 2 {
        near(s, x, y)[0] * near(s, x, y)[1]
    } else {
        0
    }
}

/// The sum of the ratios of the gears in the first `k` cells.
pub open spec fn gears_sum(s: Seq<u8>, k: int) -> nat
    decreases k,
{
    if k <= 0 {
        0
    } else {
        gears_sum(s, k - 1) + gear_ratio(s, (k - 1) % line_len(s), (k - 1) / line_len(s))
    }
}

/// The sum of the part numbers of a plan. Nothing if the text is no plan,
/// or if the sum does not fit the machine word.
pub open spec fn parts_total(s: Seq<u8>) -> Option<nat> {
    if is_plan(s) && parts_sum(s, line_len(s) * row_count(s)) <= usize::MAX {
        Some(parts_sum(s, line_len(s) * row_count(s)))
    } else {
        None
    }
}

/// The sum of the gear ratios of a plan.
pub open spec fn gears_total(s: Seq<u8>) -> Option<nat> {
    if is_plan(s) && gears_sum(s, line_len(s) * row_count(s)) <= usize::MAX {
        Some(gears_sum(s, line_len(s) * row_count(s)))
    } else {
        None
    }
}

proof fn lemma_parts_grow(s: Seq<u8>, k: int, n: int)
    requires
        0 <= k <= n,
    ensures
        parts_sum(s, k) <= parts_sum(s, n),
    decreases n - k,
{
    if k < n {
        lemma_parts_grow(s, k, n - 1);
    }
}

proof fn lemma_gears_grow(s: Seq<u8>, k: int, n: int)
    requires
        0 <= k <= n,
    ensures
        gears_sum(s, k) <= gears_sum(s, n),
    decreases n - k,
{
    if k < n {
        lemma_gears_grow(s, k, n - 1);
    }
}

/// The plan of an engine.
pub struct Grid<'a> {
    data: &'a [u8],
    width: usize,
    height: usize,
}

/// A number on the plan: how many digits it has, and what it is.
pub struct Run {
    pub digits: u8,
    pub value: u16,
}

impl<'a> Grid<'a> {
    /// The text of the plan.
    pub closed spec fn text(&self) -> Seq<u8> {
        self.data@
    }

    /// The text is a plan, and the grid knows its size.
    pub closed spec fn wf(&self) -> bool {
        &&& is_plan(self.data@)
        &&& self.width == line_len(self.data@)
        &&& self.height == row_count(self.data@)
        &&& self.height >= 1
        &&& self.height * (self.width + 1) == self.data@.len() + 1
    }

    /// The number that ends in column `x`, row `y`, if its digits can be
    /// counted and it can be kept.
    fn run_at(data: &[u8], w: usize, h: usize, x: usize, y: usize) -> (r: Option<Run>)
        requires
            rectangular(data@),
            w == line_len(data@),
            h == row_count(data@),
            h * (w + 1) == data@.len() + 1,
            x < w,
            y < h,
        ensures
            match r {
                Some(run) => keeps(data@, x as int, y as int) && run.digits == run_len(
                    data@,
                    x as int,
                    y as int,
                ) && run.value == run_value(data@, x as int, y as int),
                None => !keeps(data@, x as int, y as int),
            },
        decreases x,
    {
        let b = symbol(data, w, h, x, y);
        if !(48 <= b && b <= 57) {
            proof {
                assert(!digit_at(data@, x as int, y as int));
            }
            return Some(Run { digits: 0, value: 0 });
        }
        let before = if x == 0 {
            Run { digits: 0, value: 0 }
        } else {
            match Grid::run_at(data, w, h, x - 1, y) {
                Some(run) => run,
                None => {
                    return None;
                },
            }
        };
        proof {
            assert(digit_at(data@, x as int, y as int));
            assert(run_len(data@, x as int, y as int) == 1 + run_len(data@, x - 1, y as int));
            assert(run_value(data@, x as int, y as int) == run_value(data@, x - 1, y as int) * 10
                + (b - 48) as nat);
            if x == 0 {
                assert(run_len(data@, -1, y as int) == 0);
                assert(run_value(data@, -1, y as int) == 0);
            }
        }
        if before.digits == 255 || before.value > (65535 - (b - 48) as u16) / 10 {
            return None;
        }
        Some(Run { digits: before.digits + 1, value: before.value * 10 + (b - 48) as u16 })
    }

    /// Reads a plan.
    pub fn from_input(data: &'a [u8]) -> (r: Option<Grid<'a>>)
        ensures
            match r {
                Some(g) => g.wf() && g.text() == data@ && is_plan(data@),
                None => !is_plan(data@),
            },
    {
        let (w, h) = match grid_shape(data) {
            Some(shape) => shape,
            None => {
                return None;
            },
        };
        let mut y: usize = 0;
        while y < h
            invariant
                rectangular(data@),
                w == line_len(data@),
                h == row_count(data@),
                w >= 1,
                h * (w + 1) == data@.len() + 1,
                y <= h,
                forall|cx: int, cy: int| 0 <= cx < w && 0 <= cy < y ==>
                    #[trigger] keeps(data@, cx, cy),
            decreases h - y,
        {
            let mut x: usize = 0;
            while x < w
                invariant
                    rectangular(data@),
                    w == line_len(data@),
                    h == row_count(data@),
                    w >= 1,
                    h * (w + 1) == data@.len() + 1,
                    y < h,
                    x <= w,
                    forall|cx: int, cy: int|
                        0 <= cx < w && (0 <= cy < y || (cy == y && cx < x)) ==> #[trigger] keeps(
                            data@,
                            cx,
                            cy,
                        ),
                decreases w - x,
            {
                if Grid::run_at(data, w, h, x, y).is_none() {
                    proof {
                        assert(on_plan(data@, x as int, y as int));
                    }
                    return None;
                }
                x += 1;
            }
            y += 1;
        }
        Some(Grid { data, width: w, height: h })
    }

    /// Whether a symbol stands next to the number of `len` digits that ends
    /// in column `x`, row `y`.
    fn has_symbol_near(&self, x: usize, y: usize, len: usize) -> (r: bool)
        requires
            self.wf(),
            x < self.width,
            y < self.height,
            len <= 255,
        ensures
            r == symbol_near(self.data@, x as int, y as int, len as int),
    {
        let ghost s = self.data@;
        let x1 = if x >= len {
            x - len
        } else {
            0
        };
        let x2 = if x + 1 < self.width {
            x + 1
        } else {
            self.width - 1
        };
        let y1 = if y >= 1 {
            y - 1
        } else {
            0
        };
        let y2 = if y + 1 < self.height {
            y + 1
        } else {
            self.height - 1
        };
        let mut cy = y1;
        while cy <= y2
            invariant
                self.wf(),
                s == self.data@,
                x1 <= x2 < self.width,
                y1 <= cy <= y2 + 1,
                y2 < self.height,
                x - len <= x1,
                x2 <= x + 1,
                y - 1 <= y1,
                y2 <= y + 1,
                forall|a: int, b: int|
                    x1 <= a <= x2 && y1 <= b < cy ==>
                        !cell_of(#[trigger] symbol_at(s, a, b)).marks(),
            decreases y2 + 1 - cy,
        {
            let mut cx = x1;
            while cx <= x2
                invariant
                    self.wf(),
                    s == self.data@,
                    x1 <= cx <= x2 + 1,
                    x2 < self.width,
                    y1 <= cy <= y2,
                    y2 < self.height,
                    x - len <= x1,
                    x2 <= x + 1,
                    y - 1 <= y1,
                    y2 <= y + 1,
                    forall|a: int, b: int|
                        x1 <= a <= x2 && (y1 <= b < cy || (b == cy && a < cx)) ==> !cell_of(
                            #[trigger] symbol_at(s, a, b),
                        ).marks(),
                decreases x2 + 1 - cx,
            {
                let cell = Cell::from_input(symbol(self.data, self.width, self.height, cx, cy));
                if cell.is_part() {
                    proof {
                        let (a, b) = (cx as int, cy as int);
                        assert(x - len <= a <= x + 1 && y - 1 <= b <= y + 1 && on_plan(s, a, b)
                            && cell_of(symbol_at(s, a, b)).marks());
                    }
                    return true;
                }
                cx += 1;
            }
            cy += 1;
        }
        proof {
            assert forall|a: int, b: int|
                !(x - len <= a <= x + 1 && y - 1 <= b <= y + 1 && on_plan(s, a, b) && cell_of(
                    #[trigger] symbol_at(s, a, b),
                ).marks()) by {
                if x - len <= a <= x + 1 && y - 1 <= b <= y + 1 && on_plan(s, a, b) {
                    assert(x1 <= a <= x2 && y1 <= b <= y2);
                }
            }
        }
        false
    }

    /// Whether a number ends in column `x`, row `y`.
    fn is_end(&self, x: usize, y: usize) -> (r: bool)
        requires
            self.wf(),
            x < self.width,
            y < self.height,
        ensures
            r == ends_number(self.data@, x as int, y as int),
    {
        let b = symbol(self.data, self.width, self.height, x, y);
        if !(48 <= b && b <= 57) {
            return false;
        }
        if x + 1 == self.width {
            return true;
        }
        let c = symbol(self.data, self.width, self.height, x + 1, y);
        !(48 <= c && c <= 57)
    }

    /// The part number that ends in column `x`, row `y`.
    fn part_at(&self, x: usize, y: usize) -> (r: usize)
        requires
            self.wf(),
            x < self.width,
            y < self.height,
        ensures
            r == part_number(self.data@, x as int, y as int),
    {
        if !self.is_end(x, y) {
            return 0;
        }
        proof {
            assert(on_plan(self.data@, x as int, y as int));
            assert(keeps(self.data@, x as int, y as int));
        }
        match Grid::run_at(self.data, self.width, self.height, x, y) {
            Some(run) => {
                if run.value >= 1 && self.has_symbol_near(x, y, run.digits as usize) {
                    run.value as usize
                } else {
                    0
                }
            },
            None => 0,
        }
    }

    /// The numbers of row `y` that touch one of the columns from `x - 1`
    /// to `x + 1`.
    fn numbers_near(&self, x: usize, y: usize, out: &mut Vec<usize>)
        requires
            self.wf(),
            x < self.width,
            y < self.height,
        ensures
            nats(final(out)@) == nats(old(out)@) + near_in_row(
                self.data@,
                x as int,
                y as int,
                self.width as int,
            ),
    {
        let ghost s = self.data@;
        let ghost start = nats(out@);
        let mut e: usize = 0;
        proof {
            assert(start + near_in_row(s, x as int, y as int, 0) =~= start);
        }
        while e < self.width
            invariant
                self.wf(),
                s == self.data@,
                x < self.width,
                y < self.height,
                e <= self.width,
                nats(out@) == start + near_in_row(s, x as int, y as int, e as int),
            decreases self.width - e,
        {
            let ghost before = nats(out@);
            if self.is_end(e, y) && e + 1 >= x {
                proof {
                    assert(on_plan(s, e as int, y as int));
                    assert(keeps(s, e as int, y as int));
                }
                match Grid::run_at(self.data, self.width, self.height, e, y) {
                    Some(run) => {
                        if e <= x || e - x <= run.digits as usize {
                            out.push(run.value as usize);
                            proof {
                                assert(nats(out@) =~= before.push(run.value as nat));
                                assert(start + near_in_row(s, x as int, y as int, e + 1) =~= (start
                                    + near_in_row(s, x as int, y as int, e as int)).push(
                                    run.value as nat,
                                ));
                            }
                        }
                    },
                    None => {},
                }
            }
            e += 1;
        }
    }

    /// The ratio of the gear in column `x`, row `y`.
    fn ratio_at(&self, x: usize, y: usize) -> (r: usize)
        requires
            self.wf(),
            x < self.width,
            y < self.height,
        ensures
            r == gear_ratio(self.data@, x as int, y as int),
    {
        if symbol(self.data, self.width, self.height, x, y) != STAR {
            return 0;
        }
        let ghost s = self.data@;
        let mut nums: Vec<usize> = Vec::new();
        proof {
            assert(nats(nums@) =~= Seq::<nat>::empty());
            if y == 0 {
                lemma_off_plan(s, x as int, y - 1, self.width as int);
            }
            if y + 1 >= self.height {
                lemma_off_plan(s, x as int, y + 1, self.width as int);
            }
        }
        if y >= 1 {
            self.numbers_near(x, y - 1, &mut nums);
        }
        self.numbers_near(x, y, &mut nums);
        if y + 1 < self.height {
            self.numbers_near(x, y + 1, &mut nums);
        }
        proof {
            assert(nats(nums@) =~= near(s, x as int, y as int));
            lemma_near_small(s, x as int, y - 1, self.width as int);
            lemma_near_small(s, x as int, y as int, self.width as int);
            lemma_near_small(s, x as int, y + 1, self.width as int);
        }
        if nums.len() >= 2 {
            proof {
                let list = near(s, x as int, y as int);
                assert(list[0] == nums@[0] && list[1] == nums@[1]);
                assert(list[0] <= 65535 && list[1] <= 65535);
                assert(list[0] * list[1] <= 65535 * 65535) by (nonlinear_arith)
                    requires
                        list[0] <= 65535,
                        list[1] <= 65535,
                ;
            }
            nums[0] * nums[1]
        } else {
            0
        }
    }
}

/// The numbers of a vector.
pub open spec fn nats(v: Seq<usize>) -> Seq<nat> {
    Seq::new(v.len(), |i: int| v[i] as nat)
}

/// A row off the plan holds no numbers.
proof fn lemma_off_plan(s: Seq<u8>, x: int, y: int, e: int)
    requires
        y < 0 || y >= row_count(s),
    ensures
        near_in_row(s, x, y, e).len() == 0,
    decreases e,
{
    if e > 0 {
        lemma_off_plan(s, x, y, e - 1);
    }
}

/// The numbers of a plan next to a cell can be kept.
proof fn lemma_near_small(s: Seq<u8>, x: int, y: int, e: int)
    requires
        is_plan(s),
        e <= line_len(s),
    ensures
        forall|i: int| 0 <= i < near_in_row(s, x, y, e).len() ==>
            (#[trigger] near_in_row(s, x, y, e)[i])
            <= 65535,
    decreases e,
{
    if e > 0 {
        lemma_near_small(s, x, y, e - 1);
        let before = near_in_row(s, x, y, e - 1);
        let list = near_in_row(s, x, y, e);
        if ends_number(s, e - 1, y) {
            assert(keeps(s, e - 1, y));
        }
        assert forall|i: int| 0 <= i < list.len() implies (#[trigger] list[i]) <= 65535 by {
            if i < before.len() {
                assert(list[i] == before[i]);
            }
        }
    }
}

/// The sum of the part numbers of a plan: of the numbers, not zero, next to
/// which a symbol stands, be it diagonally.
pub fn part1(data: &str) -> (r: Option<usize>)
    ensures
        match parts_total(content(data.spec_bytes())) {
            Some(v) => r == Some(v as usize),
            None => r.is_none(),
        },
{
    let text = content_of(data.as_bytes());
    let body = text.as_slice();
    let grid = match Grid::from_input(body) {
        Some(grid) => grid,
        None => {
            return None;
        },
    };
    let ghost s = body@;
    let (w, h) = (grid.width, grid.height);
    let mut sum: usize = 0;
    let mut y: usize = 0;
    proof {
        assert(0 * w == 0);
    }
    while y < h
        invariant
            grid.wf(),
            s == grid.data@,
            s == content(data.spec_bytes()),
            w == grid.width,
            h == grid.height,
            w >= 1,
            y <= h,
            sum == parts_sum(s, y * w),
        decreases h - y,
    {
        let mut x: usize = 0;
        while x < w
            invariant
                grid.wf(),
                s == grid.data@,
                s == content(data.spec_bytes()),
                w == grid.width,
                h == grid.height,
                w >= 1,
                y < h,
                x <= w,
                sum == parts_sum(s, y * w + x),
            decreases w - x,
        {
            proof {
                lemma_cell_index(x as int, y as int, w as int, h as int);
                lemma_parts_grow(s, y * w + x + 1, w * h);
            }
            sum = match sum.checked_add(grid.part_at(x, y)) {
                Some(next) => next,
                None => {
                    return None;
                },
            };
            x += 1;
        }
        proof {
            assert((y + 1) * w == y * w + w) by (nonlinear_arith);
        }
        y += 1;
    }
    proof {
        assert(h * w == w * h) by (nonlinear_arith);
    }
    Some(sum)
}

/// The sum of the gear ratios of a plan: for each star next to which two
/// numbers or more stand, the product of the first two of them, read row
/// by row.
pub fn part2(data: &str) -> (r: Option<usize>)
    ensures
        match gears_total(content(data.spec_bytes())) {
            Some(v) => r == Some(v as usize),
            None => r.is_none(),
        },
{
    let text = content_of(data.as_bytes());
    let body = text.as_slice();
    let grid = match Grid::from_input(body) {
        Some(grid) => grid,
        None => {
            return None;
        },
    };
    let ghost s = body@;
    let (w, h) = (grid.width, grid.height);
    let mut sum: usize = 0;
    let mut y: usize = 0;
    proof {
        assert(0 * w == 0);
    }
    while y < h
        invariant
            grid.wf(),
            s == grid.data@,
            s == content(data.spec_bytes()),
            w == grid.width,
            h == grid.height,
            w >= 1,
            y <= h,
            sum == gears_sum(s, y * w),
        decreases h - y,
    {
        let mut x: usize = 0;
        while x < w
            invariant
                grid.wf(),
                s == grid.data@,
                s == content(data.spec_bytes()),
                w == grid.width,
                h == grid.height,
                w >= 1,
                y < h,
                x <= w,
                sum == gears_sum(s, y * w + x),
            decreases w - x,
        {
            proof {
                lemma_cell_index(x as int, y as int, w as int, h as int);
                lemma_gears_grow(s, y * w + x + 1, w * h);
            }
            sum = match sum.checked_add(grid.ratio_at(x, y)) {
                Some(next) => next,
                None => {
                    return None;
                },
            };
            x += 1;
        }
        proof {
            assert((y + 1) * w == y * w + w) by (nonlinear_arith);
        }
        y += 1;
    }
    proof {
        assert(h * w == w * h) by (nonlinear_arith);
    }
    Some(sum)
}

} // verus!
