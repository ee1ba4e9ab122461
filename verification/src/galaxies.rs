//! Galaxies on a map of the sky. Each row and each column without a galaxy
//! is wider than it looks; the distances between all pairs of galaxies,
//! counted in steps along rows and columns, are added up.

use vstd::prelude::*;
use vstd::string::StringSliceAdditionalSpecFns;
use crate::layout::lemma_cell_index;
use crate::text::{
    content, content_of, grid_shape, line_len, rectangular, row_count, symbol, symbol_at,
};

verus! {

/// The symbol of a galaxy.
pub const GALAXY: u8 = 35;

/// The symbol of empty space.
pub const EMPTY: u8 = 46;

/// Whether a text is a map of the sky: its lines are equally long and not
/// empty, and each symbol is a galaxy or empty space.
pub open spec fn is_sky(s: Seq<u8>) -> bool {
    &&& rectangular(s)
    &&& line_len(s) >= 1
    &&& forall|x: int, y: int|
        0 <= x < line_len(s) && 0 <= y < row_count(s) ==> {
            let b = #[trigger] symbol_at(s, x, y);
            b == GALAXY || b == EMPTY
        }
}

/// Whether row `y` holds no galaxy.
pub open spec fn row_clear(s: Seq<u8>, y: int) -> bool {
    forall|x: int| 0 <= x < line_len(s) ==> #[trigger] symbol_at(s, x, y) != GALAXY
}

/// Whether column `x` holds no galaxy.
pub open spec fn col_clear(s: Seq<u8>, x: int) -> bool {
    forall|y: int| 0 <= y < row_count(s) ==> #[trigger] symbol_at(s, x, y) != GALAXY
}

/// The true width of column `x`: `count` if it holds no galaxy, else one.
pub open spec fn col_width(s: Seq<u8>, count: nat, x: int) -> nat {
    if col_clear(s, x) {
        count
    } else {
        1
    }
}

/// The true height of row `y`: `count` if it holds no galaxy and `count` is
/// more than one, else one.
pub open spec fn row_height(s: Seq<u8>, count: nat, y: int) -> nat {
    if row_clear(s, y) && count > 1 {
        count
    } else {
        1
    }
}

/// The true distance of column `x` from the west edge.
pub open spec fn left(s: Seq<u8>, count: nat, x: int) -> nat
    decreases x,
{
    if x <= 0 {
        0
    } else {
        left(s, count, x - 1) + col_width(s, count, x - 1)
    }
}

/// The true distance of row `y` from the north edge.
pub open spec fn top(s: Seq<u8>, count: nat, y: int) -> nat
    decreases y,
{
    if y <= 0 {
        0
    } else {
        top(s, count, y - 1) + row_height(s, count, y - 1)
    }
}

/// The true places of the galaxies among the first `k` cells of the map,
/// counted row by row.
pub open spec fn stars(s: Seq<u8>, count: nat, k: int) -> Seq<(nat, nat)>
    decreases k,
{
    if k <= 0 {
        Seq::empty()
    } else {
        let x = (k - 1) % line_len(s);
        let y = (k - 1) / line_len(s);
        let before = stars(s, count, k - 1);
        if symbol_at(s, x, y) == GALAXY {
            before.push((left(s, count, x), top(s, count, y)))
        } else {
            before
        }
    }
}

/// The gap between two numbers.
pub open spec fn gap(a: nat, b: nat) -> nat {
    if a >= b {
        (a - b) as nat
    } else {
        (b - a) as nat
    }
}

/// The distance between two places, in steps along rows and columns.
pub open spec fn distance(a: (nat, nat), b: (nat, nat)) -> nat {
    gap(a.0, b.0) + gap(a.1, b.1)
}

/// The sum of the distances from the place `j` to the first `i` places.
pub open spec fn to_earlier(list: Seq<(nat, nat)>, j: int, i: int) -> nat
    decreases i,
{
    if i <= 0 {
        0
    } else {
        to_earlier(list, j, i - 1) + distance(list[i - 1], list[j])
    }
}

/// The sum of the distances between all pairs of the first `n` places.
pub open spec fn spread(list: Seq<(nat, nat)>, n: int) -> nat
    decreases n,
{
    if n <= 0 {
        0
    } else {
        spread(list, n - 1) + to_earlier(list, n - 1, n - 1)
    }
}

/// The sum of the distances between all pairs of galaxies of a map on which
/// the rows and columns without a galaxy count `count` times. Nothing if
/// the text is no map of the sky, or if the true size of the map or the sum
/// does not fit the machine word.
pub open spec fn distances(s: Seq<u8>, count: nat) -> Option<nat> {
    if !is_sky(s) {
        None
    } else {
        let list = stars(s, count, line_len(s) * row_count(s));
        if left(s, count, line_len(s)) > usize::MAX || top(s, count, row_count(s)) > usize::MAX
            || spread(list, list.len() as int) > usize::MAX {
            None
        } else {
            Some(spread(list, list.len() as int))
        }
    }
}

proof fn lemma_left_grows(s: Seq<u8>, count: nat, x: int, w: int)
    requires
        0 <= x <= w,
    ensures
        left(s, count, x) <= left(s, count, w),
    decreases w - x,
{
    if x < w {
        lemma_left_grows(s, count, x, w - 1);
    }
}

proof fn lemma_top_grows(s: Seq<u8>, count: nat, y: int, h: int)
    requires
        0 <= y <= h,
    ensures
        top(s, count, y) <= top(s, count, h),
    decreases h - y,
{
    if y < h {
        lemma_top_grows(s, count, y, h - 1);
    }
}

proof fn lemma_to_earlier_grows(list: Seq<(nat, nat)>, j: int, i: int, n: int)
    requires
        0 <= i <= n,
    ensures
        to_earlier(list, j, i) <= to_earlier(list, j, n),
    decreases n - i,
{
    if i < n {
        lemma_to_earlier_grows(list, j, i, n - 1);
    }
}

proof fn lemma_spread_grows(list: Seq<(nat, nat)>, k: int, n: int)
    requires
        0 <= k <= n,
    ensures
        spread(list, k) <= spread(list, n),
    decreases n - k,
{
    if k < n {
        lemma_spread_grows(list, k, n - 1);
    }
}

/// The true place of a galaxy.
#[derive(Clone, Copy, Debug, PartialEq, Eq, Structural)]
pub struct Pos {
    pub x: usize,
    pub y: usize,
}

/// The places of a vector.
pub open spec fn places(v: Seq<Pos>) -> Seq<(nat, nat)> {
    Seq::new(v.len(), |i: int| (v[i].x as nat, v[i].y as nat))
}

impl Pos {
    /// The distance to `other`, in steps along rows and columns; nothing if
    /// it does not fit the machine word.
    pub fn ortho_distance(&self, other: &Pos) -> (r: Option<usize>)
        ensures
            match r {
                Some(d) => d == distance(
                    (self.x as nat, self.y as nat),
                    (other.x as nat, other.y as nat),
                ),
                None => distance((self.x as nat, self.y as nat), (other.x as nat, other.y as nat))
                    > usize::MAX,
            },
    {
        gap_of(self.x, other.x).checked_add(gap_of(self.y, other.y))
    }
}

/// Whether each symbol of a rectangular text is a galaxy or empty space.
fn check_symbols(s: &[u8], w: usize, h: usize) -> (ok: bool)
    requires
        rectangular(s@),
        w == line_len(s@),
        h == row_count(s@),
        w >= 1,
        h * (w + 1) == s@.len() + 1,
    ensures
        ok == is_sky(s@),
{
    let mut y: usize = 0;
    while y < h
        invariant
            rectangular(s@),
            w == line_len(s@),
            h == row_count(s@),
            w >= 1,
            h * (w + 1) == s@.len() + 1,
            y <= h,
            forall|cx: int, cy: int|
                0 <= cx < w && 0 <= cy < y ==> {
                    let b = #[trigger] symbol_at(s@, cx, cy);
                    b == GALAXY || b == EMPTY
                },
        decreases h - y,
    {
        let mut x: usize = 0;
        while x < w
            invariant
                rectangular(s@),
                w == line_len(s@),
                h == row_count(s@),
                w >= 1,
                h * (w + 1) == s@.len() + 1,
                y < h,
                x <= w,
                forall|cx: int, cy: int|
                    0 <= cx < w && (0 <= cy < y || (cy == y && cx < x)) ==> {
                        let b = #[trigger] symbol_at(s@, cx, cy);
                        b == GALAXY || b == EMPTY
                    },
            decreases w - x,
        {
            let b = symbol(s, w, h, x, y);
            if b != GALAXY && b != EMPTY {
                return false;
            }
            x += 1;
        }
        y += 1;
    }
    true
}

/// Which columns hold no galaxy.
fn clear_columns(s: &[u8], w: usize, h: usize) -> (r: Vec<bool>)
    requires
        rectangular(s@),
        w == line_len(s@),
        h == row_count(s@),
        h * (w + 1) == s@.len() + 1,
    ensures
        r@.len() == w,
        forall|x: int| 0 <= x < w ==> (#[trigger] r@[x]) == col_clear(s@, x),
{
    let mut out: Vec<bool> = Vec::new();
    let mut x: usize = 0;
    while x < w
        invariant
            rectangular(s@),
            w == line_len(s@),
            h == row_count(s@),
            h * (w + 1) == s@.len() + 1,
            x <= w,
            out@.len() == x,
            forall|cx: int| 0 <= cx < x ==> (#[trigger] out@[cx]) == col_clear(s@, cx),
        decreases w - x,
    {
        let mut clear = true;
        let mut y: usize = 0;
        while y < h
            invariant
                rectangular(s@),
                w == line_len(s@),
                h == row_count(s@),
                h * (w + 1) == s@.len() + 1,
                x < w,
                y <= h,
                clear == (forall|cy: int|
                    0 <= cy < y ==> #[trigger] symbol_at(s@, x as int, cy) != GALAXY),
            decreases h - y,
        {
            if symbol(s, w, h, x, y) == GALAXY {
                clear = false;
            }
            y += 1;
        }
        out.push(clear);
        x += 1;
    }
    out
}

/// Which rows hold no galaxy.
fn clear_rows(s: &[u8], w: usize, h: usize) -> (r: Vec<bool>)
    requires
        rectangular(s@),
        w == line_len(s@),
        h == row_count(s@),
        h * (w + 1) == s@.len() + 1,
    ensures
        r@.len() == h,
        forall|y: int| 0 <= y < h ==> (#[trigger] r@[y]) == row_clear(s@, y),
{
    let mut out: Vec<bool> = Vec::new();
    let mut y: usize = 0;
    while y < h
        invariant
            rectangular(s@),
            w == line_len(s@),
            h == row_count(s@),
            h * (w + 1) == s@.len() + 1,
            y <= h,
            out@.len() == y,
            forall|cy: int| 0 <= cy < y ==> (#[trigger] out@[cy]) == row_clear(s@, cy),
        decreases h - y,
    {
        let mut clear = true;
        let mut x: usize = 0;
        while x < w
            invariant
                rectangular(s@),
                w == line_len(s@),
                h == row_count(s@),
                h * (w + 1) == s@.len() + 1,
                y < h,
                x <= w,
                clear == (forall|cx: int|
                    0 <= cx < x ==> #[trigger] symbol_at(s@, cx, y as int) != GALAXY),
            decreases w - x,
        {
            if symbol(s, w, h, x, y) == GALAXY {
                clear = false;
            }
            x += 1;
        }
        out.push(clear);
        y += 1;
    }
    out
}

/// The true distances of the columns from the west edge, and that of the
/// east edge at the end.
fn column_offsets(s: &[u8], w: usize, count: usize, clear: &Vec<bool>) -> (r: Option<Vec<usize>>)
    requires
        w == line_len(s@),
        clear@.len() == w,
        forall|x: int| 0 <= x < w ==> (#[trigger] clear@[x]) == col_clear(s@, x),
    ensures
        match r {
            Some(v) => {
                &&& v@.len() == w + 1
                &&& forall|x: int| 0 <= x <= w ==> (#[trigger] v@[x]) == left(s@, count as nat, x)
            },
            None => left(s@, count as nat, w as int) > usize::MAX,
        },
{
    let mut out: Vec<usize> = Vec::new();
    out.push(0);
    let mut acc: usize = 0;
    let mut x: usize = 0;
    while x < w
        invariant
            w == line_len(s@),
            clear@.len() == w,
            forall|cx: int| 0 <= cx < w ==> (#[trigger] clear@[cx]) == col_clear(s@, cx),
            x <= w,
            out@.len() == x + 1,
            acc == left(s@, count as nat, x as int),
            forall|cx: int| 0 <= cx <= x ==> (#[trigger] out@[cx]) == left(s@, count as nat, cx),
        decreases w - x,
    {
        let width = if clear[x] {
            count
        } else {
            1
        };
        match acc.checked_add(width) {
            Some(next) => {
                acc = next;
            },
            None => {
                proof {
                    lemma_left_grows(s@, count as nat, x + 1, w as int);
                }
                return None;
            },
        }
        out.push(acc);
        x += 1;
    }
    Some(out)
}

/// The true distances of the rows from the north edge, and that of the
/// south edge at the end.
fn row_offsets(s: &[u8], h: usize, count: usize, clear: &Vec<bool>) -> (r: Option<Vec<usize>>)
    requires
        h == row_count(s@),
        clear@.len() == h,
        forall|y: int| 0 <= y < h ==> (#[trigger] clear@[y]) == row_clear(s@, y),
    ensures
        match r {
            Some(v) => {
                &&& v@.len() == h + 1
                &&& forall|y: int| 0 <= y <= h ==> (#[trigger] v@[y]) == top(s@, count as nat, y)
            },
            None => top(s@, count as nat, h as int) > usize::MAX,
        },
{
    let mut out: Vec<usize> = Vec::new();
    out.push(0);
    let mut acc: usize = 0;
    let mut y: usize = 0;
    while y < h
        invariant
            h == row_count(s@),
            clear@.len() == h,
            forall|cy: int| 0 <= cy < h ==> (#[trigger] clear@[cy]) == row_clear(s@, cy),
            y <= h,
            out@.len() == y + 1,
            acc == top(s@, count as nat, y as int),
            forall|cy: int| 0 <= cy <= y ==> (#[trigger] out@[cy]) == top(s@, count as nat, cy),
        decreases h - y,
    {
        let height = if clear[y] && count > 1 {
            count
        } else {
            1
        };
        match acc.checked_add(height) {
            Some(next) => {
                acc = next;
            },
            None => {
                proof {
                    lemma_top_grows(s@, count as nat, y + 1, h as int);
                }
                return None;
            },
        }
        out.push(acc);
        y += 1;
    }
    Some(out)
}

/// The true places of the galaxies.
fn find_stars(s: &[u8], w: usize, h: usize, count: usize, xs: &Vec<usize>, ys: &Vec<usize>) -> (r:
    Vec<Pos>)
    requires
        rectangular(s@),
        w == line_len(s@),
        h == row_count(s@),
        w >= 1,
        h * (w + 1) == s@.len() + 1,
        xs@.len() == w + 1,
        ys@.len() == h + 1,
        forall|x: int| 0 <= x <= w ==> (#[trigger] xs@[x]) == left(s@, count as nat, x),
        forall|y: int| 0 <= y <= h ==> (#[trigger] ys@[y]) == top(s@, count as nat, y),
    ensures
        places(r@) == stars(s@, count as nat, w * h),
{
    let mut out: Vec<Pos> = Vec::new();
    let mut y: usize = 0;
    proof {
        assert(places(out@) =~= stars(s@, count as nat, 0));
        assert(0 * w == 0);
    }
    while y < h
        invariant
            rectangular(s@),
            w == line_len(s@),
            h == row_count(s@),
            w >= 1,
            h * (w + 1) == s@.len() + 1,
            xs@.len() == w + 1,
            ys@.len() == h + 1,
            forall|x: int| 0 <= x <= w ==> (#[trigger] xs@[x]) == left(s@, count as nat, x),
            forall|cy: int| 0 <= cy <= h ==> (#[trigger] ys@[cy]) == top(s@, count as nat, cy),
            y <= h,
            places(out@) == stars(s@, count as nat, y * w),
        decreases h - y,
    {
        let mut x: usize = 0;
        while x < w
            invariant
                rectangular(s@),
                w == line_len(s@),
                h == row_count(s@),
                w >= 1,
                h * (w + 1) == s@.len() + 1,
                xs@.len() == w + 1,
                ys@.len() == h + 1,
                forall|cx: int| 0 <= cx <= w ==> (#[trigger] xs@[cx]) == left(s@, count as nat, cx),
                forall|cy: int| 0 <= cy <= h ==> (#[trigger] ys@[cy]) == top(s@, count as nat, cy),
                y < h,
                x <= w,
                places(out@) == stars(s@, count as nat, y * w + x),
            decreases w - x,
        {
            let ghost before = places(out@);
            proof {
                lemma_cell_index(x as int, y as int, w as int, h as int);
            }
            if symbol(s, w, h, x, y) == GALAXY {
                out.push(Pos { x: xs[x], y: ys[y] });
                proof {
                    assert(places(out@) =~= before.push((xs@[x as int] as nat,
                        ys@[y as int] as nat)));
                }
            }
            x += 1;
        }
        proof {
            assert((y + 1) * w == y * w + w) by (nonlinear_arith);
        }
        y += 1;
    }
    proof {
        assert(h * w == w * h) by (nonlinear_arith);
    }
    out
}

/// The gap between two numbers.
fn gap_of(a: usize, b: usize) -> (r: usize)
    ensures
        r == gap(a as nat, b as nat),
{
    if a >= b {
        a - b
    } else {
        b - a
    }
}

/// The sum of the distances between all pairs of places.
fn sum_distances(list: &Vec<Pos>) -> (r: Option<usize>)
    ensures
        if spread(places(list@), list@.len() as int) <= usize::MAX {
            r == Some(spread(places(list@), list@.len() as int) as usize)
        } else {
            r.is_none()
        },
{
    let n = list.len();
    let ghost marks = places(list@);
    let mut total: usize = 0;
    let mut j: usize = 0;
    while j < n
        invariant
            j <= n,
            n == list@.len(),
            marks == places(list@),
            total == spread(marks, j as int),
        decreases n - j,
    {
        let b = list[j];
        let ghost base = total;
        let mut i: usize = 0;
        proof {
            lemma_spread_grows(marks, j + 1, n as int);
        }
        while i < j
            invariant
                i <= j < n,
                n == list@.len(),
                marks == places(list@),
                b == list@[j as int],
                base == spread(marks, j as int),
                total == base + to_earlier(marks, j as int, i as int),
                spread(marks, j + 1) <= spread(marks, n as int),
            decreases j - i,
        {
            let a = list[i];
            proof {
                lemma_to_earlier_grows(marks, j as int, i + 1, j as int);
                assert(marks[i as int] == (a.x as nat, a.y as nat));
                assert(marks[j as int] == (b.x as nat, b.y as nat));
            }
            let step = match a.ortho_distance(&b) {
                Some(d) => total.checked_add(d),
                None => None,
            };
            match step {
                Some(next) => {
                    total = next;
                },
                None => {
                    return None;
                },
            }
            i += 1;
        }
        j += 1;
    }
    Some(total)
}

/// In a sky on which no row or column counts more than once, each lies as
/// far from the edge as it is numbered.
proof fn lemma_plain(s: Seq<u8>, k: int)
    requires
        0 <= k,
    ensures
        left(s, 1, k) == k,
        top(s, 1, k) == k,
    decreases k,
{
    if k > 0 {
        lemma_plain(s, k - 1);
    }
}

/// A map of the sky, with the true distances of its columns and rows from
/// the west and north edges.
pub struct Universe<'a> {
    data: &'a [u8],
    width: usize,
    height: usize,
    count: usize,
    xs: Vec<usize>,
    ys: Vec<usize>,
}

impl<'a> Universe<'a> {
    /// The text of the map.
    pub closed spec fn text(&self) -> Seq<u8> {
        self.data@
    }

    /// How many times the rows and columns without a galaxy count.
    pub closed spec fn factor(&self) -> nat {
        self.count as nat
    }

    /// The text is a map of the sky, and the distances are those of its
    /// columns and rows.
    pub closed spec fn wf(&self) -> bool {
        &&& is_sky(self.data@)
        &&& self.width == line_len(self.data@)
        &&& self.height == row_count(self.data@)
        &&& self.height * (self.width + 1) == self.data@.len() + 1
        &&& self.xs@.len() == self.width + 1
        &&& self.ys@.len() == self.height + 1
        &&& forall|x: int|
            0 <= x <= self.width ==> (#[trigger] self.xs@[x]) == left(
                self.data@,
                self.count as nat,
                x,
            )
        &&& forall|y: int|
            0 <= y <= self.height ==> (#[trigger] self.ys@[y]) == top(
                self.data@,
                self.count as nat,
                y,
            )
    }

    /// Reads a map of the sky, on which no row or column counts more than
    /// once.
    pub fn from_input(data: &'a [u8]) -> (r: Option<Universe<'a>>)
        ensures
            match r {
                Some(u) => is_sky(data@) && u.wf() && u.text() == data@ && u.factor() == 1,
                None => !is_sky(data@),
            },
    {
        let (w, h) = match grid_shape(data) {
            Some(shape) => shape,
            None => {
                return None;
            },
        };
        if !check_symbols(data, w, h) {
            return None;
        }
        let cols = clear_columns(data, w, h);
        let rows = clear_rows(data, w, h);
        proof {
            lemma_plain(data@, w as int);
            lemma_plain(data@, h as int);
        }
        let xs = match column_offsets(data, w, 1, &cols) {
            Some(xs) => xs,
            None => {
                return None;
            },
        };
        let ys = match row_offsets(data, h, 1, &rows) {
            Some(ys) => ys,
            None => {
                return None;
            },
        };
        Some(Universe { data, width: w, height: h, count: 1, xs, ys })
    }

    /// Lets the rows and columns without a galaxy count `count` times, and
    /// tells whether the true size of the map fits the machine word. If it
    /// does not, the map stays as it is.
    pub fn expand(&mut self, count: usize) -> (ok: bool)
        requires
            old(self).wf(),
        ensures
            final(self).wf(),
            final(self).text() == old(self).text(),
            ok == (left(old(self).text(), count as nat, line_len(old(self).text())) <= usize::MAX
                && top(old(self).text(), count as nat, row_count(old(self).text())) <= usize::MAX),
            final(self).factor() == if ok {
                count as nat
            } else {
                old(self).factor()
            },
    {
        let cols = clear_columns(self.data, self.width, self.height);
        let rows = clear_rows(self.data, self.width, self.height);
        let xs = match column_offsets(self.data, self.width, count, &cols) {
            Some(xs) => xs,
            None => {
                return false;
            },
        };
        let ys = match row_offsets(self.data, self.height, count, &rows) {
            Some(ys) => ys,
            None => {
                return false;
            },
        };
        proof {
            assert(xs@[self.width as int] == left(self.data@, count as nat, self.width as int));
            assert(ys@[self.height as int] == top(self.data@, count as nat, self.height as int));
        }
        self.xs = xs;
        self.ys = ys;
        self.count = count;
        true
    }

    /// The true places of the galaxies, row by row.
    pub fn iter_galaxies(&self) -> (r: Vec<Pos>)
        requires
            self.wf(),
        ensures
            places(r@) == stars(
                self.text(),
                self.factor(),
                line_len(self.text()) * row_count(self.text()),
            ),
    {
        find_stars(self.data, self.width, self.height, self.count, &self.xs, &self.ys)
    }
}

/// The sum of the distances between all pairs of galaxies of the map in
/// `data`, on which the rows and columns without a galaxy count `count`
/// times.
pub fn expand_and_sum_distances(data: &str, count: usize) -> (r: Option<usize>)
    ensures
        match distances(content(data.spec_bytes()), count as nat) {
            Some(v) => r == Some(v as usize),
            None => r.is_none(),
        },
{
    let text = content_of(data.as_bytes());
    let mut universe = match Universe::from_input(text.as_slice()) {
        Some(universe) => universe,
        None => {
            return None;
        },
    };
    if !universe.expand(count) {
        return None;
    }
    let galaxies = universe.iter_galaxies();
    proof {
        assert(places(galaxies@).len() == galaxies@.len());
    }
    sum_distances(&galaxies)
}

/// The sum of the distances where empty rows and columns count twice.
pub fn part1(data: &str) -> (r: Option<usize>)
    ensures
        match distances(content(data.spec_bytes()), 2) {
            Some(v) => r == Some(v as usize),
            None => r.is_none(),
        },
{
    expand_and_sum_distances(data, 2)
}

/// The sum of the distances where empty rows and columns count a million
/// times.
pub fn part2(data: &str) -> (r: Option<usize>)
    ensures
        match distances(content(data.spec_bytes()), 1_000_000) {
            Some(v) => r == Some(v as usize),
            None => r.is_none(),
        },
{
    expand_and_sum_distances(data, 1_000_000)
}

} // verus!
