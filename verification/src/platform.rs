//! A platform with round rocks that roll and cube rocks that stay. The
//! platform is tilted to one side or turned through all four, the rocks
//! roll as far as they can, and the load on the north beams is weighed.

use vstd::prelude::*;
use vstd::string::StringSliceAdditionalSpecFns;
use crate::text::{
    content, content_of, grid_shape, line_len, rectangular, row_count, symbol, symbol_at,
};
use crate::words::same_bytes;

verus! {

/// The symbol of empty ground.
pub const EMPTY: u8 = 46;

/// The symbol of a round rock.
pub const ROLL: u8 = 79;

/// The symbol of a cube rock.
pub const FIXED: u8 = 35;

/// The beginning of the stretch between cube rocks in which place `p` of
/// the line lies.
pub open spec fn top(line: Seq<u8>, p: int) -> int
    decreases p,
{
    if p <= 0 {
        0
    } else if line[p - 1] == FIXED {
        p
    } else {
        top(line, p - 1)
    }
}

/// The end of the stretch between cube rocks in which place `p` lies: the
/// place of the next cube rock, or the end of the line.
pub open spec fn end(line: Seq<u8>, p: int) -> int
    decreases line.len() - p,
{
    if p >= line.len() || line[p] == FIXED {
        p
    } else {
        end(line, p + 1)
    }
}

/// The number of round rocks from place `a` up to, not including, place
/// `b`.
pub open spec fn rocks(line: Seq<u8>, a: int, b: int) -> nat
    decreases b - a,
{
    if b <= a {
        0
    } else {
        rocks(line, a, b - 1) + if line[b - 1] == ROLL {
            1nat
        } else {
            0
        }
    }
}

/// What lies in place `p` of the line after its round rocks have rolled to
/// the front: a cube rock stays; the round rocks of a stretch between cube
/// rocks lie at its beginning, one behind the other.
pub open spec fn rolled_at(line: Seq<u8>, p: int) -> u8 {
    if line[p] == FIXED {
        FIXED
    } else if p - top(line, p) < rocks(line, top(line, p), end(line, p)) {
        ROLL
    } else {
        EMPTY
    }
}

/// The line after its round rocks have rolled to the front.
pub open spec fn rolled(line: Seq<u8>) -> Seq<u8> {
    Seq::new(line.len(), |p: int| rolled_at(line, p))
}

/// The platform tilted north; it is kept column by column, each from north
/// to south.
pub open spec fn tilted(g: Seq<Seq<u8>>) -> Seq<Seq<u8>> {
    Seq::new(g.len(), |x: int| rolled(g[x]))
}

/// The number of rows of a platform.
pub open spec fn depth(g: Seq<Seq<u8>>) -> int {
    if g.len() > 0 {
        g[0].len() as int
    } else {
        0
    }
}

/// Whether all columns of a platform are equally long and not empty, and
/// there is one.
pub open spec fn even(g: Seq<Seq<u8>>) -> bool {
    g.len() >= 1 && depth(g) >= 1 && forall|x: int|
        0 <= x < g.len() ==> (#[trigger] g[x]).len() == depth(g)
}

/// The platform turned by a quarter to the right, so that its west side
/// comes to lie north.
pub open spec fn turned(g: Seq<Seq<u8>>) -> Seq<Seq<u8>> {
    Seq::new(
        depth(g) as nat,
        |x: int| Seq::new(g.len(), |y: int| g[y][depth(g) - 1 - x]),
    )
}

/// A row of the platform, from west to east.
pub open spec fn row(g: Seq<Seq<u8>>, y: int) -> Seq<u8> {
    Seq::new(g.len(), |x: int| g[x][y])
}

/// A line from its end to its front.
pub open spec fn backward(line: Seq<u8>) -> Seq<u8> {
    Seq::new(line.len(), |p: int| line[line.len() - 1 - p])
}

/// The platform tilted west: in each row the round rocks have rolled to
/// the west end of their stretch between cube rocks.
pub open spec fn tilted_west(g: Seq<Seq<u8>>) -> Seq<Seq<u8>> {
    Seq::new(g.len(), |x: int| Seq::new(depth(g) as nat, |y: int| rolled(row(g, y))[x]))
}

/// The platform tilted south: in each column the round rocks have rolled
/// to the south end of their stretch between cube rocks.
pub open spec fn tilted_south(g: Seq<Seq<u8>>) -> Seq<Seq<u8>> {
    Seq::new(
        g.len(),
        |x: int| Seq::new(depth(g) as nat, |y: int| rolled(backward(g[x]))[depth(g) - 1 - y]),
    )
}

/// The platform tilted east: in each row the round rocks have rolled to
/// the east end of their stretch between cube rocks.
pub open spec fn tilted_east(g: Seq<Seq<u8>>) -> Seq<Seq<u8>> {
    Seq::new(
        g.len(),
        |x: int| Seq::new(
            depth(g) as nat,
            |y: int| rolled(backward(row(g, y)))[g.len() - 1 - x],
        ),
    )
}

/// The platform after one cycle: tilted north, west, south and east.
pub open spec fn spun(g: Seq<Seq<u8>>) -> Seq<Seq<u8>> {
    turned(tilted(turned(tilted(turned(tilted(turned(tilted(g))))))))
}

/// The platform after `n` cycles.
pub open spec fn spun_times(g: Seq<Seq<u8>>, n: nat) -> Seq<Seq<u8>>
    decreases n,
{
    if n == 0 {
        g
    } else {
        spun(spun_times(g, (n - 1) as nat))
    }
}

/// The load of the first `k` places of a column on the north beams: each
/// round rock weighs as much as there are rows from it to the south edge.
pub open spec fn column_load(line: Seq<u8>, k: int) -> nat
    decreases k,
{
    if k <= 0 {
        0
    } else {
        column_load(line, k - 1) + if line[k - 1] == ROLL {
            (line.len() - (k - 1)) as nat
        } else {
            0
        }
    }
}

/// The load of the first `k` columns on the north beams.
pub open spec fn load(g: Seq<Seq<u8>>, k: int) -> nat
    decreases k,
{
    if k <= 0 {
        0
    } else {
        load(g, k - 1) + column_load(g[k - 1], g[k - 1].len() as int)
    }
}

/// Whether a text is the plan of a platform: its lines are equally long and
/// not empty, and each symbol is a rock or empty ground.
pub open spec fn is_plan(s: Seq<u8>) -> bool {
    &&& rectangular(s)
    &&& line_len(s) >= 1
    &&& forall|x: int, y: int|
        0 <= x < line_len(s) && 0 <= y < row_count(s) ==> {
            let b = #[trigger] symbol_at(s, x, y);
            b == EMPTY || b == ROLL || b == FIXED
        }
}

/// The platform of a plan.
pub open spec fn platform(s: Seq<u8>) -> Seq<Seq<u8>> {
    Seq::new(line_len(s) as nat,
        |x: int| Seq::new(row_count(s) as nat, |y: int| symbol_at(s, x, y)))
}

/// The columns of a vector.
pub open spec fn columns_of(v: Seq<Vec<u8>>) -> Seq<Seq<u8>> {
    Seq::new(v.len(), |i: int| v[i]@)
}

/// A stretch without a cube rock begins where it begins, for each of its
/// places.
proof fn lemma_top(line: Seq<u8>, a: int, p: int)
    requires
        0 <= a <= p <= line.len(),
        a == 0 || line[a - 1] == FIXED,
        forall|k: int| a <= k < p ==> (#[trigger] line[k]) != FIXED,
    ensures
        top(line, p) == a,
    decreases p - a,
{
    if p > a {
        lemma_top(line, a, p - 1);
    }
}

/// A stretch without a cube rock ends where it ends, for each of its
/// places.
proof fn lemma_end(line: Seq<u8>, p: int, e: int)
    requires
        0 <= p <= e <= line.len(),
        e == line.len() || line[e] == FIXED,
        forall|k: int| p <= k < e ==> (#[trigger] line[k]) != FIXED,
    ensures
        end(line, p) == e,
    decreases e - p,
{
    if p < e {
        lemma_end(line, p + 1, e);
    }
}

/// Lets the round rocks of a line roll to its front.
pub fn roll_row_of_tiles(line: &Vec<u8>) -> (out: Vec<u8>)
    ensures
        out@ == rolled(line@),
{
    let n = line.len();
    let ghost src = line@;
    let mut out: Vec<u8> = Vec::new();
    let mut start: usize = 0;
    let mut count: usize = 0;
    let mut p: usize = 0;
    while p < n
        invariant
            p <= n,
            n == src.len(),
            src == line@,
            out@.len() == p,
            start <= p,
            start == 0 || src[start - 1] == FIXED,
            forall|k: int| start <= k < p ==> (#[trigger] src[k]) != FIXED,
            count == rocks(src, start as int, p as int),
            count <= p - start,
            forall|k: int| 0 <= k < start ==> (#[trigger] out@[k]) == rolled_at(src, k),
            forall|k: int| start <= k < p ==> (#[trigger] out@[k]) == EMPTY,
        decreases n - p,
    {
        let b = line[p];
        if b == FIXED {
            let ghost e = p as int;
            let ghost a = start as int;
            let mut k: usize = start;
            while k < start + count
                invariant
                    start <= k <= start + count <= p,
                    p < n,
                    n == src.len(),
                    out@.len() == p,
                    forall|i: int| 0 <= i < start ==> (#[trigger] out@[i]) == rolled_at(src, i),
                    forall|i: int| start <= i < k ==> (#[trigger] out@[i]) == ROLL,
                    forall|i: int| k <= i < p ==> (#[trigger] out@[i]) == EMPTY,
                decreases start + count - k,
            {
                out.set(k, ROLL);
                k += 1;
            }
            out.push(FIXED);
            proof {
                assert forall|i: int| 0 <= i < p + 1 implies (#[trigger] out@[i]) == rolled_at(
                    src,
                    i,
                ) by {
                    if a <= i < e {
                        lemma_top(src, a, i);
                        lemma_end(src, i, e);
                    }
                }
            }
            start = p + 1;
            count = 0;
        } else {
            if b == ROLL {
                count += 1;
            }
            out.push(EMPTY);
        }
        p += 1;
    }
    let ghost a = start as int;
    let mut k: usize = start;
    while k < start + count
        invariant
            start <= k <= start + count <= n,
            n == src.len(),
            out@.len() == n,
            forall|i: int| 0 <= i < start ==> (#[trigger] out@[i]) == rolled_at(src, i),
            forall|i: int| start <= i < k ==> (#[trigger] out@[i]) == ROLL,
            forall|i: int| k <= i < n ==> (#[trigger] out@[i]) == EMPTY,
        decreases start + count - k,
    {
        out.set(k, ROLL);
        k += 1;
    }
    proof {
        assert forall|i: int| 0 <= i < n implies (#[trigger] out@[i]) == rolled_at(src, i) by {
            if a <= i {
                lemma_top(src, a, i);
                lemma_end(src, i, n as int);
            }
        }
        assert(out@ =~= rolled(src));
    }
    out
}

/// A platform, kept column by column.
pub struct Platform {
    pub cols: Vec<Vec<u8>>,
}

impl View for Platform {
    type V = Seq<Seq<u8>>;

    open spec fn view(&self) -> Seq<Seq<u8>> {
        columns_of(self.cols@)
    }
}

impl Platform {
    /// Reads the plan of a platform.
    pub fn from_input(data: &[u8]) -> (r: Option<Platform>)
        ensures
            match r {
                Some(p) => is_plan(data@) && p@ == platform(data@) && even(p@),
                None => !is_plan(data@),
            },
    {
        let (w, h) = match grid_shape(data) {
            Some(shape) => shape,
            None => {
                return None;
            },
        };
        let mut cols: Vec<Vec<u8>> = Vec::new();
        let mut x: usize = 0;
        while x < w
            invariant
                rectangular(data@),
                w == line_len(data@),
                h == row_count(data@),
                w >= 1,
                h >= 1,
                h * (w + 1) == data@.len() + 1,
                x <= w,
                cols@.len() == x,
                forall|cx: int| 0 <= cx < x ==> (#[trigger] cols@[cx])@.len() == h,
                forall|cx: int, cy: int|
                    0 <= cx < x && 0 <= cy < h ==> {
                        let b = #[trigger] symbol_at(data@, cx, cy);
                        (b == EMPTY || b == ROLL || b == FIXED) && cols@[cx]@[cy] == b
                    },
            decreases w - x,
        {
            let mut col: Vec<u8> = Vec::new();
            let mut y: usize = 0;
            while y < h
                invariant
                    rectangular(data@),
                    w == line_len(data@),
                    h == row_count(data@),
                    h * (w + 1) == data@.len() + 1,
                    x < w,
                    y <= h,
                    col@.len() == y,
                    forall|cy: int|
                        0 <= cy < y ==> {
                            let b = #[trigger] symbol_at(data@, x as int, cy);
                            (b == EMPTY || b == ROLL || b == FIXED) && col@[cy] == b
                        },
                decreases h - y,
            {
                let b = symbol(data, w, h, x, y);
                if !(b == EMPTY || b == ROLL || b == FIXED) {
                    return None;
                }
                col.push(b);
                y += 1;
            }
            cols.push(col);
            x += 1;
        }
        let p = Platform { cols };
        proof {
            assert(p@ =~~= platform(data@)) by {
                assert forall|cx: int, cy: int| 0 <= cx < w && 0 <= cy < h implies p@[cx][cy]
                    == platform(data@)[cx][cy] by {
                    assert(p.cols@[cx]@[cy] == symbol_at(data@, cx, cy));
                }
                assert forall|cx: int| 0 <= cx < w implies (#[trigger] p@[cx]).len() == platform(
                    data@,
                )[cx].len() by {
                    assert(p.cols@[cx]@.len() == h);
                }
            }
            assert(p@[0].len() == h);
            assert forall|cx: int| 0 <= cx < p@.len() implies (#[trigger] p@[cx]).len() == depth(
                p@,
            ) by {
                assert(p.cols@[cx]@.len() == h);
            }
        }
        Some(p)
    }

    /// Tilts the platform north.
    pub fn tilt_north(&mut self)
        ensures
            final(self)@ == tilted(old(self)@),
            even(old(self)@) ==> even(final(self)@),
    {
        let ghost g = self@;
        proof {
            if even(g) {
                lemma_even(g);
            }
        }
        let n = self.cols.len();
        let mut out: Vec<Vec<u8>> = Vec::new();
        let mut x: usize = 0;
        while x < n
            invariant
                x <= n,
                n == self.cols@.len(),
                g == self@,
                out@.len() == x,
                forall|i: int| 0 <= i < x ==> (#[trigger] out@[i])@ == rolled(g[i]),
            decreases n - x,
        {
            proof {
                assert(g[x as int] == self.cols@[x as int]@);
            }
            out.push(roll_row_of_tiles(&self.cols[x]));
            x += 1;
        }
        self.cols = out;
        proof {
            assert(self@ =~= tilted(g));
        }
    }

    /// Turns the platform by a quarter to the right, so that its west side
    /// comes to lie north.
    pub fn turn(&mut self)
        requires
            even(old(self)@),
        ensures
            final(self)@ == turned(old(self)@),
            even(final(self)@),
    {
        let ghost g = self@;
        proof {
            lemma_even(g);
        }
        let w = self.cols.len();
        let h = self.cols[0].len();
        proof {
            assert(g[0] == self.cols@[0]@);
        }
        let mut out: Vec<Vec<u8>> = Vec::new();
        let mut x: usize = 0;
        while x < h
            invariant
                x <= h,
                w == self.cols@.len(),
                h == depth(g),
                g == self@,
                even(g),
                out@.len() == x,
                forall|i: int| 0 <= i < x ==> (#[trigger] out@[i])@ == turned(g)[i],
            decreases h - x,
        {
            let mut col: Vec<u8> = Vec::new();
            let mut y: usize = 0;
            while y < w
                invariant
                    x < h,
                    y <= w,
                    w == self.cols@.len(),
                    h == depth(g),
                    g == self@,
                    even(g),
                    col@.len() == y,
                    forall|j: int| 0 <= j < y ==> (#[trigger] col@[j]) == g[j][h - 1 - x],
                decreases w - y,
            {
                proof {
                    assert(g[y as int] == self.cols@[y as int]@);
                    assert(g[y as int].len() == h);
                }
                col.push(self.cols[y][h - 1 - x]);
                y += 1;
            }
            proof {
                assert(col@ =~= turned(g)[x as int]);
            }
            out.push(col);
            x += 1;
        }
        self.cols = out;
        proof {
            assert(self@ =~= turned(g));
        }
    }

    /// Tilts the platform west.
    pub fn tilt_west(&mut self)
        requires
            even(old(self)@),
        ensures
            final(self)@ == tilted_west(old(self)@),
            final(self)@ == turned(turned(turned(tilted(turned(old(self)@))))),
            even(final(self)@),
    {
        proof {
            lemma_even(self@);
            lemma_tilts(self@);
        }
        self.turn();
        self.tilt_north();
        self.turn();
        self.turn();
        self.turn();
    }

    /// Tilts the platform south.
    pub fn tilt_south(&mut self)
        requires
            even(old(self)@),
        ensures
            final(self)@ == tilted_south(old(self)@),
            final(self)@ == turned(turned(tilted(turned(turned(old(self)@))))),
            even(final(self)@),
    {
        proof {
            lemma_even(self@);
            lemma_tilts(self@);
        }
        self.turn();
        self.turn();
        self.tilt_north();
        self.turn();
        self.turn();
    }

    /// Tilts the platform east.
    pub fn tilt_east(&mut self)
        requires
            even(old(self)@),
        ensures
            final(self)@ == tilted_east(old(self)@),
            final(self)@ == turned(tilted(turned(turned(turned(old(self)@))))),
            even(final(self)@),
    {
        proof {
            lemma_even(self@);
            lemma_tilts(self@);
        }
        self.turn();
        self.turn();
        self.turn();
        self.tilt_north();
        self.turn();
    }

    /// Turns the platform through one cycle: tilts it north, west, south
    /// and east.
    pub fn spin(&mut self)
        requires
            even(old(self)@),
        ensures
            final(self)@ == spun(old(self)@),
            even(final(self)@),
    {
        proof {
            lemma_even(self@);
        }
        self.tilt_north();
        self.turn();
        self.tilt_north();
        self.turn();
        self.tilt_north();
        self.turn();
        self.tilt_north();
        self.turn();
    }

    /// The load on the north beams, if it fits the machine word.
    pub fn calc_north_load(&self) -> (r: Option<usize>)
        ensures
            if load(self@, self@.len() as int) <= usize::MAX {
                r == Some(load(self@, self@.len() as int) as usize)
            } else {
                r.is_none()
            },
    {
        let ghost g = self@;
        let n = self.cols.len();
        let mut total: usize = 0;
        let mut x: usize = 0;
        while x < n
            invariant
                x <= n,
                n == self.cols@.len(),
                g == self@,
                total == load(g, x as int),
            decreases n - x,
        {
            let col = &self.cols[x];
            let h = col.len();
            let ghost line = col@;
            let ghost base = total;
            proof {
                assert(g[x as int] == line);
                lemma_load_grows(g, x + 1, n as int);
            }
            let mut y: usize = 0;
            while y < h
                invariant
                    y <= h,
                    h == line.len(),
                    line == col@,
                    x < n,
                    g[x as int] == line,
                    load(g, x as int) == base,
                    load(g, x + 1) <= load(g, n as int),
                    g == self@,
                    n == self.cols@.len(),
                    total == base + column_load(line, y as int),
                decreases h - y,
            {
                if col[y] == ROLL {
                    proof {
                        lemma_column_grows(line, y + 1, h as int);
                    }
                    total = match total.checked_add(h - y) {
                        Some(next) => next,
                        None => {
                            return None;
                        },
                    };
                }
                y += 1;
            }
            x += 1;
        }
        Some(total)
    }

    /// Whether two platforms are the same.
    pub fn same(&self, other: &Platform) -> (r: bool)
        ensures
            r == (self@ == other@),
    {
        if self.cols.len() != other.cols.len() {
            proof {
                assert(self@.len() == self.cols@.len());
                assert(other@.len() == other.cols@.len());
            }
            return false;
        }
        let n = self.cols.len();
        let mut x: usize = 0;
        while x < n
            invariant
                x <= n,
                n == self.cols@.len(),
                n == other.cols@.len(),
                forall|i: int| 0 <= i < x ==> (#[trigger] self@[i]) == other@[i],
            decreases n - x,
        {
            proof {
                assert(self@[x as int] == self.cols@[x as int]@);
                assert(other@[x as int] == other.cols@[x as int]@);
            }
            if !same_bytes(self.cols[x].as_slice(), other.cols[x].as_slice()) {
                return false;
            }
            x += 1;
        }
        proof {
            assert(self@ =~= other@);
        }
        true
    }

    /// A copy of the platform.
    pub fn copy(&self) -> (r: Platform)
        ensures
            r@ == self@,
    {
        let n = self.cols.len();
        let mut out: Vec<Vec<u8>> = Vec::new();
        let mut x: usize = 0;
        while x < n
            invariant
                x <= n,
                n == self.cols@.len(),
                out@.len() == x,
                forall|i: int| 0 <= i < x ==> (#[trigger] out@[i])@ == self.cols@[i]@,
            decreases n - x,
        {
            out.push(vstd::slice::slice_to_vec(self.cols[x].as_slice()));
            x += 1;
        }
        let r = Platform { cols: out };
        proof {
            assert(r@ =~= self@);
        }
        r
    }
}

/// Tilting and turning keep the columns of a platform equally long.
proof fn lemma_even(g: Seq<Seq<u8>>)
    requires
        even(g),
    ensures
        even(tilted(g)),
        depth(tilted(g)) == depth(g),
        tilted(g).len() == g.len(),
        depth(g) >= 1 ==> even(turned(g)),
        depth(g) >= 1 ==> depth(turned(g)) == g.len(),
        turned(g).len() == depth(g),
{
    assert(tilted(g)[0].len() == g[0].len());
    if depth(g) >= 1 {
        assert(turned(g)[0].len() == g.len());
    }
}

/// What lies where on a turned platform.
proof fn lemma_turned(g: Seq<Seq<u8>>)
    requires
        even(g),
    ensures
        even(turned(g)),
        turned(g).len() == depth(g),
        depth(turned(g)) == g.len(),
        forall|i: int, j: int|
            0 <= i < depth(g) && 0 <= j < g.len() ==> #[trigger] turned(g)[i][j] == g[j][depth(g)
                - 1 - i],
{
    lemma_even(g);
}

/// To turn the platform so that a side lies north, tilt it north and turn it
/// back is to let the round rocks of each row roll west, of each column
/// south, or of each row east.
pub proof fn lemma_tilts(g: Seq<Seq<u8>>)
    requires
        even(g),
    ensures
        turned(turned(turned(tilted(turned(g))))) == tilted_west(g),
        turned(turned(tilted(turned(turned(g))))) == tilted_south(g),
        turned(tilted(turned(turned(turned(g))))) == tilted_east(g),
{
    let w = g.len() as int;
    let h = depth(g);
    let a = turned(g);
    lemma_turned(g);
    let a2 = turned(a);
    lemma_turned(a);
    let a3 = turned(a2);
    lemma_turned(a2);
    assert forall|y: int| 0 <= y < h implies #[trigger] a[h - 1 - y] =~= row(g, y) by {
        assert forall|x: int| 0 <= x < w implies a[h - 1 - y][x] == row(g, y)[x] by {
            assert(turned(g)[h - 1 - y][x] == g[x][h - 1 - (h - 1 - y)]);
        }
    }
    assert forall|x: int| 0 <= x < w implies #[trigger] a2[w - 1 - x] =~= backward(g[x]) by {
        assert forall|y: int| 0 <= y < h implies a2[w - 1 - x][y] == backward(g[x])[y] by {
            assert(turned(a)[w - 1 - x][y] == a[y][w - 1 - (w - 1 - x)]);
            assert(turned(g)[y][x] == g[x][h - 1 - y]);
        }
    }
    assert forall|y: int| 0 <= y < h implies #[trigger] a3[y] =~= backward(row(g, y)) by {
        assert forall|x: int| 0 <= x < w implies a3[y][x] == backward(row(g, y))[x] by {
            assert(turned(a2)[y][x] == a2[x][h - 1 - y]);
            assert(turned(a)[x][h - 1 - y] == a[h - 1 - y][w - 1 - x]);
            assert(turned(g)[h - 1 - y][w - 1 - x] == g[w - 1 - x][h - 1 - (h - 1 - y)]);
        }
    }
    // west: one turn, the tilt, three turns
    let b = tilted(a);
    lemma_even(a);
    let c = turned(b);
    lemma_turned(b);
    let d = turned(c);
    lemma_turned(c);
    let e = turned(d);
    lemma_turned(d);
    assert(e =~~= tilted_west(g)) by {
        assert forall|x: int, y: int| 0 <= x < w && 0 <= y < h implies e[x][y] == tilted_west(
            g,
        )[x][y] by {
            assert(turned(d)[x][y] == d[y][w - 1 - x]);
            assert(turned(c)[y][w - 1 - x] == c[w - 1 - x][h - 1 - y]);
            assert(turned(b)[w - 1 - x][h - 1 - y] == b[h - 1 - y][w - 1 - (w - 1 - x)]);
            assert(b[h - 1 - y] == rolled(a[h - 1 - y]));
            assert(a[h - 1 - y] == row(g, y));
        }
    }
    // south: two turns, the tilt, two turns
    let b = tilted(a2);
    lemma_even(a2);
    let c = turned(b);
    lemma_turned(b);
    let d = turned(c);
    lemma_turned(c);
    assert(d =~~= tilted_south(g)) by {
        assert forall|x: int, y: int| 0 <= x < w && 0 <= y < h implies d[x][y] == tilted_south(
            g,
        )[x][y] by {
            assert(turned(c)[x][y] == c[y][w - 1 - x]);
            assert(turned(b)[y][w - 1 - x] == b[w - 1 - x][h - 1 - y]);
            assert(b[w - 1 - x] == rolled(a2[w - 1 - x]));
            assert(a2[w - 1 - x] == backward(g[x]));
        }
    }
    // east: three turns, the tilt, one turn
    let b = tilted(a3);
    lemma_even(a3);
    let c = turned(b);
    lemma_turned(b);
    assert(c =~~= tilted_east(g)) by {
        assert forall|x: int, y: int| 0 <= x < w && 0 <= y < h implies c[x][y] == tilted_east(
            g,
        )[x][y] by {
            assert(turned(b)[x][y] == b[y][w - 1 - x]);
            assert(b[y] == rolled(a3[y]));
            assert(a3[y] == backward(row(g, y)));
        }
    }
}

proof fn lemma_load_grows(g: Seq<Seq<u8>>, k: int, n: int)
    requires
        0 <= k <= n,
    ensures
        load(g, k) <= load(g, n),
    decreases n - k,
{
    if k < n {
        lemma_load_grows(g, k, n - 1);
    }
}

proof fn lemma_column_grows(line: Seq<u8>, k: int, n: int)
    requires
        0 <= k <= n,
    ensures
        column_load(line, k) <= column_load(line, n),
    decreases n - k,
{
    if k < n {
        lemma_column_grows(line, k, n - 1);
    }
}

/// The number of cycles of the second question.
pub const CYCLES: usize = 1_000_000_000;

/// Cycles add up.
proof fn lemma_spun_sum(g: Seq<Seq<u8>>, a: nat, b: nat)
    ensures
        spun_times(g, a + b) == spun_times(spun_times(g, a), b),
    decreases b,
{
    if b > 0 {
        lemma_spun_sum(g, a, (b - 1) as nat);
    }
}

/// A platform that lies after `i` cycles as it lay after `j` goes on as it
/// did from `j`: after `j + k` cycles it lies as after `j` and the rest of
/// `k` divided by `i - j`.
proof fn lemma_round(g: Seq<Seq<u8>>, j: nat, i: nat, k: nat)
    requires
        j < i,
        spun_times(g, j) == spun_times(g, i),
    ensures
        spun_times(g, j + k) == spun_times(g, j + (k % ((i - j) as nat))),
    decreases k,
{
    let p = (i - j) as nat;
    if k >= p {
        let rest = (k - p) as nat;
        lemma_round(g, j, i, rest);
        lemma_spun_sum(g, i, rest);
        lemma_spun_sum(g, j, rest);
        assert(j + k == i + rest);
        assert(k % p == rest % p) by {
            vstd::arithmetic::div_mod::lemma_mod_sub_multiples_vanish(k as int, p as int);
        }
    } else {
        vstd::arithmetic::div_mod::lemma_small_mod(k, p);
    }
}

/// The load on the north beams after the platform was tilted north. Nothing
/// if the text is not the plan of a platform, or if the load does not fit
/// the machine word.
pub fn part1(data: &str) -> (r: Option<usize>)
    ensures
        ({
            let s = content(data.spec_bytes());
            let g = tilted(platform(s));
            if is_plan(s) && load(g, g.len() as int) <= usize::MAX {
                r == Some(load(g, g.len() as int) as usize)
            } else {
                r.is_none()
            }
        }),
{
    let text = content_of(data.as_bytes());
    let mut map = match Platform::from_input(text.as_slice()) {
        Some(map) => map,
        None => {
            return None;
        },
    };
    map.tilt_north();
    map.calc_north_load()
}

/// The load on the north beams after the platform was turned through a
/// thousand million cycles.
pub fn part2(data: &str) -> (r: Option<usize>)
    ensures
        ({
            let s = content(data.spec_bytes());
            let g = spun_times(platform(s), CYCLES as nat);
            if is_plan(s) && load(g, g.len() as int) <= usize::MAX {
                r == Some(load(g, g.len() as int) as usize)
            } else {
                r.is_none()
            }
        }),
{
    let text = content_of(data.as_bytes());
    let mut map = match Platform::from_input(text.as_slice()) {
        Some(map) => map,
        None => {
            return None;
        },
    };
    let ghost g = map@;
    let mut seen: Vec<Platform> = Vec::new();
    let mut i: usize = 0;
    while i < CYCLES
        invariant
            i <= CYCLES,
            is_plan(content(data.spec_bytes())),
            g == platform(content(data.spec_bytes())),
            even(map@),
            map@ == spun_times(g, i as nat),
            seen@.len() == i,
            forall|k: int| 0 <= k < i ==> (#[trigger] seen@[k])@ == spun_times(g, k as nat),
        decreases CYCLES - i,
    {
        let mut j: usize = 0;
        while j < i
            invariant
                j <= i < CYCLES,
                g == platform(content(data.spec_bytes())),
                is_plan(content(data.spec_bytes())),
                map@ == spun_times(g, i as nat),
                seen@.len() == i,
                forall|k: int| 0 <= k < i ==> (#[trigger] seen@[k])@ == spun_times(g, k as nat),
            decreases i - j,
        {
            if seen[j].same(&map) {
                let at = j + (CYCLES - j) % (i - j);
                proof {
                    lemma_round(g, j as nat, i as nat, (CYCLES - j) as nat);
                    vstd::arithmetic::div_mod::lemma_mod_bound((CYCLES - j) as int, (i - j) as int);
                    assert(seen@[at as int]@ == spun_times(g, at as nat));
                }
                return seen[at].calc_north_load();
            }
            j += 1;
        }
        seen.push(map.copy());
        map.spin();
        i += 1;
    }
    map.calc_north_load()
}

} // verus!
