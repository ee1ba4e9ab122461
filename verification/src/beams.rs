//! A beam of light in a cave of mirrors and splitters. The beam goes from
//! tile to tile, is turned by mirrors and parted by splitters, and the tiles
//! that it passes are counted.

use vstd::prelude::*;
use vstd::string::StringSliceAdditionalSpecFns;
use crate::layout::{lemma_cell_index, lemma_cell_unique};
use crate::pipes::pos::Pos;
use crate::text::{
    content, content_of, grid_shape, line_len, rectangular, row_count, symbol, symbol_at,
};

verus! {

/// The symbol of an empty tile.
pub const EMPTY: u8 = 46;

/// The symbol of the mirror that rises to the east.
pub const MIRROR_F: u8 = 47;

/// The symbol of the mirror that falls to the east.
pub const MIRROR_B: u8 = 92;

/// The symbol of the splitter that stands upright.
pub const SPLIT_V: u8 = 124;

/// The symbol of the splitter that lies flat.
pub const SPLIT_H: u8 = 45;

/// The direction of a beam: to the left, to the right, up or down.
#[derive(Clone, Copy, Debug, PartialEq, Eq, Structural)]
pub enum Dir {
    L,
    R,
    U,
    D,
}

impl Dir {
    /// The direction after a mirror that falls to the east.
    pub open spec fn swapped(self) -> Dir {
        match self {
            Dir::L => Dir::U,
            Dir::R => Dir::D,
            Dir::U => Dir::L,
            Dir::D => Dir::R,
        }
    }

    /// The direction the other way.
    pub open spec fn negated(self) -> Dir {
        match self {
            Dir::L => Dir::R,
            Dir::R => Dir::L,
            Dir::U => Dir::D,
            Dir::D => Dir::U,
        }
    }

    /// The number of the direction, from zero to three.
    pub open spec fn number(self) -> int {
        match self {
            Dir::L => 0,
            Dir::R => 1,
            Dir::U => 2,
            Dir::D => 3,
        }
    }

    /// The change of column that a step in this direction makes.
    pub open spec fn dx(self) -> int {
        match self {
            Dir::L => -1,
            Dir::R => 1,
            _ => 0,
        }
    }

    /// The change of row that a step in this direction makes.
    pub open spec fn dy(self) -> int {
        match self {
            Dir::U => -1,
            Dir::D => 1,
            _ => 0,
        }
    }

    /// Turns the direction as a mirror that falls to the east does.
    pub fn swap(&mut self)
        ensures
            *final(self) == old(self).swapped(),
    {
        *self = match *self {
            Dir::L => Dir::U,
            Dir::R => Dir::D,
            Dir::U => Dir::L,
            Dir::D => Dir::R,
        };
    }

    /// Turns the direction around.
    pub fn neg(&mut self)
        ensures
            *final(self) == old(self).negated(),
    {
        *self = match *self {
            Dir::L => Dir::R,
            Dir::R => Dir::L,
            Dir::U => Dir::D,
            Dir::D => Dir::U,
        };
    }

    /// Turns the direction as a mirror that rises to the east does.
    pub fn neg_swap(&mut self)
        ensures
            *final(self) == old(self).swapped().negated(),
    {
        *self = match *self {
            Dir::L => Dir::D,
            Dir::R => Dir::U,
            Dir::U => Dir::R,
            Dir::D => Dir::L,
        };
    }

    /// The number of the direction, from zero to three.
    pub fn as_flags(self) -> (r: usize)
        ensures
            r == self.number(),
    {
        match self {
            Dir::L => 0,
            Dir::R => 1,
            Dir::U => 2,
            Dir::D => 3,
        }
    }
}

/// A beam on a tile: the column and row of the tile, and the direction in
/// which the beam entered it.
pub struct Ray {
    pub x: int,
    pub y: int,
    pub d: Dir,
}

/// Whether a symbol is one of a cave.
pub open spec fn is_tile(b: u8) -> bool {
    b == EMPTY || b == MIRROR_F || b == MIRROR_B || b == SPLIT_V || b == SPLIT_H
}

/// Whether a text is the map of a cave: its lines are equally long and not
/// empty, and each symbol is a tile.
pub open spec fn is_cave(s: Seq<u8>) -> bool {
    &&& rectangular(s)
    &&& line_len(s) >= 1
    &&& forall|x: int, y: int|
        0 <= x < line_len(s) && 0 <= y < row_count(s) ==> is_tile(#[trigger] symbol_at(s, x, y))
}

/// Whether column `x`, row `y` is a tile of the cave.
pub open spec fn in_cave(s: Seq<u8>, x: int, y: int) -> bool {
    0 <= x < line_len(s) && 0 <= y < row_count(s)
}

/// The direction in which a beam leaves a tile with the symbol `b` that it
/// entered in the direction `d`; for a splitter that parts the beam, the
/// first of the two.
pub open spec fn first_way(b: u8, d: Dir) -> Dir {
    if b == MIRROR_F {
        d.swapped().negated()
    } else if b == MIRROR_B {
        d.swapped()
    } else if b == SPLIT_V && (d == Dir::L || d == Dir::R) {
        d.swapped()
    } else if b == SPLIT_H && (d == Dir::U || d == Dir::D) {
        d.swapped()
    } else {
        d
    }
}

/// Whether a tile with the symbol `b` parts a beam that enters it in the
/// direction `d`.
pub open spec fn parts(b: u8, d: Dir) -> bool {
    (b == SPLIT_V && (d == Dir::L || d == Dir::R)) || (b == SPLIT_H && (d == Dir::U || d
        == Dir::D))
}

/// The beam one tile on in the direction `d`.
pub open spec fn onward(r: Ray, d: Dir) -> Ray {
    Ray { x: r.x + d.dx(), y: r.y + d.dy(), d }
}

/// Whether the beam `a` goes on as the beam `b`.
pub open spec fn goes(s: Seq<u8>, a: Ray, b: Ray) -> bool {
    let sym = symbol_at(s, a.x, a.y);
    &&& in_cave(s, a.x, a.y)
    &&& in_cave(s, b.x, b.y)
    &&& (b == onward(a, first_way(sym, a.d)) || (parts(sym, a.d) && b == onward(
        a,
        first_way(sym, a.d).negated(),
    )))
}

/// Whether `path` is the path of a beam: it stays in the cave, and each beam
/// of it goes on as the next.
pub open spec fn is_path(s: Seq<u8>, path: Seq<Ray>) -> bool {
    &&& path.len() >= 1
    &&& in_cave(s, path[0].x, path[0].y)
    &&& forall|i: int| 0 <= i < path.len() - 1 ==> goes(s, #[trigger] path[i], path[i + 1])
}

/// Whether the beam that enters the cave as `start` comes to be the beam
/// `r`.
pub open spec fn shines(s: Seq<u8>, start: Ray, r: Ray) -> bool {
    exists|path: Seq<Ray>| #[trigger] is_path(s, path) && path[0] == start && path.last() == r
}

/// Whether the tile in column `x`, row `y` is lit.
pub open spec fn lit(s: Seq<u8>, start: Ray, x: int, y: int) -> bool {
    exists|d: Dir| #[trigger] shines(s, start, Ray { x, y, d })
}

/// The number of lit tiles among the first `k`, counted row by row.
pub open spec fn lit_upto(s: Seq<u8>, start: Ray, k: int) -> nat
    decreases k,
{
    if k <= 0 {
        0
    } else {
        lit_upto(s, start, k - 1) + if lit(s, start, (k - 1) % line_len(s), (k - 1) / line_len(s)) {
            1nat
        } else {
            0
        }
    }
}

/// The number of tiles that the beam lights.
pub open spec fn energized(s: Seq<u8>, start: Ray) -> nat {
    lit_upto(s, start, line_len(s) * row_count(s))
}

proof fn lemma_shines_start(s: Seq<u8>, start: Ray)
    requires
        in_cave(s, start.x, start.y),
    ensures
        shines(s, start, start),
{
    let path = seq![start];
    assert(is_path(s, path));
    assert(path[0] == start && path.last() == start);
}

proof fn lemma_shines_on(s: Seq<u8>, start: Ray, a: Ray, b: Ray)
    requires
        shines(s, start, a),
        goes(s, a, b),
    ensures
        shines(s, start, b),
{
    let path = choose|path: Seq<Ray>|
        #[trigger] is_path(s, path) && path[0] == start && path.last() == a;
    let longer = path.push(b);
    assert forall|i: int| 0 <= i < longer.len() - 1 implies goes(
        s,
        #[trigger] longer[i],
        longer[i + 1],
    ) by {
        if i < path.len() - 1 {
            assert(longer[i] == path[i] && longer[i + 1] == path[i + 1]);
            assert(goes(s, path[i], path[i + 1]));
        }
    }
    assert(longer[0] == path[0]);
    assert(is_path(s, longer));
    assert(longer[0] == start && longer.last() == b);
}

/// The place of a beam in the list of marks.
pub open spec fn mark_index(w: int, r: Ray) -> int {
    (r.y * w + r.x) * 4 + r.d.number()
}

/// Whether the beam `r` is marked.
spec fn marked(marks: Seq<bool>, w: int, r: Ray) -> bool {
    marks[mark_index(w, r)]
}

/// The number of beams that are not marked.
spec fn unmarked(marks: Seq<bool>) -> nat
    decreases marks.len(),
{
    if marks.len() == 0 {
        0
    } else {
        unmarked(marks.drop_last()) + if marks.last() {
            0nat
        } else {
            1
        }
    }
}

proof fn lemma_mark(marks: Seq<bool>, i: int)
    requires
        0 <= i < marks.len(),
        !marks[i],
    ensures
        unmarked(marks.update(i, true)) == unmarked(marks) - 1,
    decreases marks.len(),
{
    let t = marks.update(i, true);
    if i == marks.len() - 1 {
        assert(t.drop_last() =~= marks.drop_last());
    } else {
        assert(t.drop_last() =~= marks.drop_last().update(i, true));
        lemma_mark(marks.drop_last(), i);
    }
}

/// Beams in the cave have places of their own in the list of marks.
proof fn lemma_mark_index(w: int, h: int, a: Ray, b: Ray)
    requires
        0 <= a.x < w,
        0 <= a.y < h,
        0 <= b.x < w,
        0 <= b.y < h,
    ensures
        0 <= mark_index(w, a) < w * h * 4,
        mark_index(w, a) == mark_index(w, b) ==> a == b,
{
    lemma_cell_index(a.x, a.y, w, h);
    lemma_cell_index(b.x, b.y, w, h);
    if mark_index(w, a) == mark_index(w, b) {
        lemma_cell_unique(a.x, a.y, b.x, b.y, w);
    }
}

/// A beam that waits to be followed.
struct Waiting {
    pos: Pos,
    dir: Dir,
}

/// The beam that waits, as a value of mathematics.
spec fn ray_of(q: Waiting) -> Ray {
    Ray { x: q.pos.x as int, y: q.pos.y as int, d: q.dir }
}

/// Whether the beam `r` waits in the queue.
spec fn waits(queue: Seq<Waiting>, r: Ray) -> bool {
    exists|i: int| 0 <= i < queue.len() && ray_of(#[trigger] queue[i]) == r
}

/// What holds while the beams are followed.
spec fn tracing(s: Seq<u8>, start: Ray, marks: Seq<bool>, queue: Seq<Waiting>) -> bool {
    let w = line_len(s);
    let h = row_count(s);
    &&& marks.len() == w * h * 4
    &&& forall|r: Ray| in_cave(s, r.x, r.y) && #[trigger] marked(marks, w, r) ==>
        shines(s, start, r)
    &&& forall|i: int|
        0 <= i < queue.len() && in_cave(s, ray_of(queue[i]).x, ray_of(queue[i]).y) ==> shines(
            s,
            start,
            ray_of(#[trigger] queue[i]),
        )
    &&& forall|a: Ray, b: Ray|
        in_cave(s, a.x, a.y) && marked(marks, w, a) && #[trigger] goes(s, a, b) ==> marked(
            marks,
            w,
            b,
        ) || waits(queue, b)
    &&& in_cave(s, start.x, start.y) ==> marked(marks, w, start) || waits(queue, start)
}

/// The map of a cave.
pub struct Cave<'a> {
    data: &'a [u8],
    width: usize,
    height: usize,
}

impl<'a> Cave<'a> {
    /// The text of the map.
    pub closed spec fn text(&self) -> Seq<u8> {
        self.data@
    }

    /// The text is the map of a cave, and the cave knows its size.
    pub closed spec fn wf(&self) -> bool {
        &&& is_cave(self.data@)
        &&& self.width == line_len(self.data@)
        &&& self.height == row_count(self.data@)
        &&& self.height >= 1
        &&& self.height * (self.width + 1) == self.data@.len() + 1
    }

    /// The number of columns.
    pub closed spec fn columns(&self) -> int {
        self.width as int
    }

    /// The number of rows.
    pub closed spec fn rows(&self) -> int {
        self.height as int
    }

    /// The number of columns.
    pub fn width(&self) -> (w: usize)
        requires
            self.wf(),
        ensures
            w == self.columns(),
            w == line_len(self.text()),
            w >= 1,
    {
        self.width
    }

    /// The number of rows.
    pub fn height(&self) -> (h: usize)
        requires
            self.wf(),
        ensures
            h == self.rows(),
            h == row_count(self.text()),
            h >= 1,
    {
        self.height
    }

    /// Reads the map of a cave.
    pub fn from_input(data: &'a [u8]) -> (r: Option<Cave<'a>>)
        ensures
            match r {
                Some(c) => c.wf() && c.text() == data@ && is_cave(data@),
                None => !is_cave(data@),
            },
    {
        let (w, h) = match grid_shape(data) {
            Some(shape) => shape,
            None => {
                return None;
            },
        };
        let mut y: usize = 0;
        while y < h
            invariant
                rectangular(data@),
                w == line_len(data@),
                h == row_count(data@),
                w >= 1,
                h * (w + 1) == data@.len() + 1,
                y <= h,
                forall|cx: int, cy: int|
                    0 <= cx < w && 0 <= cy < y ==> is_tile(#[trigger] symbol_at(data@, cx, cy)),
            decreases h - y,
        {
            let mut x: usize = 0;
            while x < w
                invariant
                    rectangular(data@),
                    w == line_len(data@),
                    h == row_count(data@),
                    w >= 1,
                    h * (w + 1) == data@.len() + 1,
                    y < h,
                    x <= w,
                    forall|cx: int, cy: int|
                        0 <= cx < w && (0 <= cy < y || (cy == y && cx < x)) ==> is_tile(
                            #[trigger] symbol_at(data@, cx, cy),
                        ),
                decreases w - x,
            {
                let b = symbol(data, w, h, x, y);
                if !(b == EMPTY || b == MIRROR_F || b == MIRROR_B || b == SPLIT_V || b == SPLIT_H) {
                    return None;
                }
                x += 1;
            }
            y += 1;
        }
        Some(Cave { data, width: w, height: h })
    }

    /// The number of tiles that a beam lights which enters the cave at `pos`
    /// in the direction `dir`.
    pub fn trace_beam(&self, pos: Pos, dir: Dir) -> (r: usize)
        requires
            self.wf(),
            self.text().len() * 4 <= isize::MAX,
        ensures
            r == energized(self.text(), Ray { x: pos.x as int, y: pos.y as int, d: dir }),
    {
        let ghost s = self.data@;
        let ghost start = Ray { x: pos.x as int, y: pos.y as int, d: dir };
        let w = self.width;
        let h = self.height;
        proof {
            assert(w * h * 4 <= s.len() * 4) by (nonlinear_arith)
                requires
                    h * (w + 1) == s.len() + 1,
                    h >= 1,
                    w >= 1,
            ;
            assert(w <= w * h && h <= w * h) by (nonlinear_arith)
                requires
                    h >= 1,
                    w >= 1,
            ;
        }
        let cells = w * h;
        let mut marks: Vec<bool> = vec![false; cells * 4];
        let mut queue: Vec<Waiting> = Vec::new();
        queue.push(Waiting { pos, dir });
        proof {
            assert(ray_of(queue@[0]) == start);
            assert forall|r: Ray| in_cave(s, r.x, r.y)
                implies !#[trigger] marked(marks@, w as int, r) by {
                lemma_mark_index(w as int, h as int, r, r);
            }
            if in_cave(s, start.x, start.y) {
                lemma_shines_start(s, start);
            }
            assert(tracing(s, start, marks@, queue@));
        }
        loop
            invariant
                self.wf(),
                s == self.data@,
                w == self.width,
                h == self.height,
                cells == w * h,
                w >= 1,
                h >= 1,
                w <= cells,
                h <= cells,
                cells * 4 <= isize::MAX,
                tracing(s, start, marks@, queue@),
            ensures
                queue@.len() == 0,
            decreases unmarked(marks@), queue@.len(),
        {
            let ghost before = queue@;
            let q = match queue.pop() {
                Some(q) => q,
                None => {
                    break ;
                },
            };
            let ghost r = ray_of(q);
            let ghost rest = queue@;
            proof {
                assert(before[before.len() - 1] == q);
                assert forall|b: Ray| waits(before, b) implies waits(rest, b) || b == r by {
                    let i = choose|i: int| 0 <= i < before.len()
                        && ray_of(#[trigger] before[i]) == b;
                    if i < rest.len() {
                        assert(rest[i] == before[i]);
                    }
                }
                assert forall|i: int| 0 <= i < rest.len() implies rest[i] == before[i] by {}
            }
            if q.pos.x < 0 || q.pos.y < 0 || q.pos.x as usize >= w || q.pos.y as usize >= h {
                proof {
                    assert(!in_cave(s, r.x, r.y));
                    assert forall|a: Ray, b: Ray|
                        in_cave(s, a.x, a.y) && marked(marks@, w as int, a) && #[trigger] goes(
                            s,
                            a,
                            b,
                        ) implies marked(marks@, w as int, b) || waits(rest, b) by {
                        assert(marked(marks@, w as int, b) || waits(before, b));
                    }
                    if in_cave(s, start.x, start.y) {
                        assert(marked(marks@, w as int, start) || waits(before, start));
                    }
                    assert forall|i: int|
                        0 <= i < rest.len() && in_cave(
                            s,
                            ray_of(rest[i]).x,
                            ray_of(rest[i]).y,
                        ) implies shines(s, start, ray_of(#[trigger] rest[i])) by {
                        assert(rest[i] == before[i]);
                    }
                }
                continue ;
            }
            let x = q.pos.x as usize;
            let y = q.pos.y as usize;
            proof {
                lemma_mark_index(w as int, h as int, r, r);
                assert(in_cave(s, r.x, r.y));
                assert(shines(s, start, r));
            }
            let at = (y * w + x) * 4 + q.dir.as_flags();
            if marks[at] {
                proof {
                    assert(marked(marks@, w as int, r));
                    assert forall|a: Ray, b: Ray|
                        in_cave(s, a.x, a.y) && marked(marks@, w as int, a) && #[trigger] goes(
                            s,
                            a,
                            b,
                        ) implies marked(marks@, w as int, b) || waits(rest, b) by {
                        assert(marked(marks@, w as int, b) || waits(before, b));
                    }
                    if in_cave(s, start.x, start.y) {
                        assert(marked(marks@, w as int, start) || waits(before, start));
                    }
                    assert forall|i: int|
                        0 <= i < rest.len() && in_cave(
                            s,
                            ray_of(rest[i]).x,
                            ray_of(rest[i]).y,
                        ) implies shines(s, start, ray_of(#[trigger] rest[i])) by {
                        assert(rest[i] == before[i]);
                    }
                }
                continue ;
            }
            let ghost old_marks = marks@;
            proof {
                lemma_mark(old_marks, at as int);
            }
            marks.set(at, true);
            let b = symbol(self.data, w, h, x, y);
            let mut d = q.dir;
            if b == MIRROR_F {
                d.neg_swap();
            } else if b == MIRROR_B {
                d.swap();
            } else if b == SPLIT_V && (q.dir == Dir::L || q.dir == Dir::R) {
                d.swap();
            } else if b == SPLIT_H && (q.dir == Dir::U || q.dir == Dir::D) {
                d.swap();
            }
            let split = (b == SPLIT_V && (q.dir == Dir::L || q.dir == Dir::R)) || (b == SPLIT_H && (
            q.dir == Dir::U || q.dir == Dir::D));
            let first = Waiting { pos: q.pos.add(d), dir: d };
            queue.push(first);
            if split {
                let mut other = d;
                other.neg();
                queue.push(Waiting { pos: q.pos.add(other), dir: other });
            }
            proof {
                let wi = w as int;
                let now = queue@;
                assert(d == first_way(b, q.dir));
                assert(split == parts(b, q.dir));
                assert(ray_of(first) == onward(r, d));
                assert(now[rest.len() as int] == first);
                assert forall|i: int| 0 <= i < rest.len() implies now[i] == rest[i] by {}
                assert forall|c: Ray| waits(rest, c) implies waits(now, c) by {
                    let i = choose|i: int| 0 <= i < rest.len() && ray_of(#[trigger] rest[i]) == c;
                    assert(now[i] == rest[i]);
                }
                assert forall|c: Ray| in_cave(s, c.x, c.y) implies (#[trigger] marked(marks@, wi, c)
                    == (marked(old_marks, wi, c) || c == r)) by {
                    lemma_mark_index(wi, h as int, c, r);
                }
                assert forall|c: Ray| in_cave(s, c.x, c.y) && #[trigger] marked(
                    marks@,
                    wi,
                    c,
                ) implies shines(s, start, c) by {
                    if c != r {
                        assert(marked(old_marks, wi, c));
                    }
                }
                assert forall|i: int|
                    0 <= i < now.len() && in_cave(s, ray_of(now[i]).x, ray_of(now[i]).y)
                        implies shines(
                    s,
                    start,
                    ray_of(#[trigger] now[i]),
                ) by {
                    if i < rest.len() {
                        assert(now[i] == rest[i]);
                        assert(rest[i] == before[i]);
                    } else {
                        assert(goes(s, r, ray_of(now[i])));
                        lemma_shines_on(s, start, r, ray_of(now[i]));
                    }
                }
                assert forall|a: Ray, c: Ray|
                    in_cave(s, a.x, a.y) && marked(marks@, wi, a) && #[trigger] goes(s, a, c)
                        implies marked(
                    marks@,
                    wi,
                    c,
                ) || waits(now, c) by {
                    if a == r {
                        if c == onward(r, d) {
                            assert(ray_of(now[rest.len() as int]) == c);
                        } else {
                            assert(ray_of(now[rest.len() as int + 1]) == c);
                        }
                    } else {
                        assert(marked(old_marks, wi, a));
                        assert(marked(old_marks, wi, c) || waits(before, c));
                        if !marked(old_marks, wi, c) {
                            assert(waits(rest, c) || c == r);
                        }
                    }
                }
                if in_cave(s, start.x, start.y) {
                    assert(marked(old_marks, wi, start) || waits(before, start));
                    if !marked(old_marks, wi, start) {
                        assert(waits(rest, start) || start == r);
                    }
                }
            }
        }
        proof {
            assert forall|c: Ray| !waits(queue@, c) by {}
        }
        let mut count: usize = 0;
        let mut y: usize = 0;
        proof {
            assert(0 * w == 0);
        }
        while y < h
            invariant
                self.wf(),
                s == self.data@,
                w == self.width,
                h == self.height,
                cells == w * h,
                w >= 1,
                cells * 4 <= isize::MAX,
                tracing(s, start, marks@, queue@),
                queue@.len() == 0,
                y <= h,
                count == lit_upto(s, start, y * w),
                count <= y * w,
            decreases h - y,
        {
            let mut x: usize = 0;
            proof {
                assert((y + 1) * w == y * w + w) by (nonlinear_arith);
                assert((y + 1) * w <= h * w) by (nonlinear_arith)
                    requires
                        y + 1 <= h,
                ;
                assert(h * w == w * h) by (nonlinear_arith);
            }
            while x < w
                invariant
                    self.wf(),
                    s == self.data@,
                    w == self.width,
                    h == self.height,
                    cells == w * h,
                    w >= 1,
                    cells * 4 <= isize::MAX,
                    tracing(s, start, marks@, queue@),
                    queue@.len() == 0,
                    y < h,
                    x <= w,
                    y * w + w <= cells,
                    count == lit_upto(s, start, y * w + x),
                    count <= y * w + x,
                decreases w - x,
            {
                let base = (y * w + x) * 4;
                let any = marks[base] || marks[base + 1] || marks[base + 2] || marks[base + 3];
                proof {
                    let (xi, yi, wi) = (x as int, y as int, w as int);
                    lemma_cell_index(xi, yi, wi, h as int);
                    assert(any == lit(s, start, xi, yi)) by {
                        if any {
                            let d = if marks@[base as int] {
                                Dir::L
                            } else if marks@[base + 1] {
                                Dir::R
                            } else if marks@[base + 2] {
                                Dir::U
                            } else {
                                Dir::D
                            };
                            let r = Ray { x: xi, y: yi, d };
                            assert(marked(marks@, wi, r));
                            assert(shines(s, start, r));
                        }
                        if lit(s, start, xi, yi) {
                            let d = choose|d: Dir| #[trigger] shines(s, start,
                                Ray { x: xi, y: yi, d });
                            let r = Ray { x: xi, y: yi, d };
                            lemma_all_marked(s, start, marks@, queue@, r);
                            assert(marked(marks@, wi, r));
                        }
                    }
                }
                if any {
                    count += 1;
                }
                x += 1;
            }
            y += 1;
        }
        proof {
            assert(h * w == w * h) by (nonlinear_arith);
        }
        count
    }
}

/// Once no beam waits, each beam that the light comes to be is marked.
proof fn lemma_all_marked(s: Seq<u8>, start: Ray, marks: Seq<bool>, queue: Seq<Waiting>, r: Ray)
    requires
        tracing(s, start, marks, queue),
        queue.len() == 0,
        shines(s, start, r),
    ensures
        marked(marks, line_len(s), r),
        in_cave(s, r.x, r.y),
{
    let path = choose|path: Seq<Ray>|
        #[trigger] is_path(s, path) && path[0] == start && path.last() == r;
    lemma_path_marked(s, start, marks, queue, path, path.len() - 1);
}

proof fn lemma_path_marked(
    s: Seq<u8>,
    start: Ray,
    marks: Seq<bool>,
    queue: Seq<Waiting>,
    path: Seq<Ray>,
    i: int,
)
    requires
        tracing(s, start, marks, queue),
        queue.len() == 0,
        is_path(s, path),
        path[0] == start,
        0 <= i < path.len(),
    ensures
        marked(marks, line_len(s), path[i]),
        in_cave(s, path[i].x, path[i].y),
    decreases i,
{
    if i > 0 {
        lemma_path_marked(s, start, marks, queue, path, i - 1);
        assert(goes(s, path[i - 1], path[i - 1 + 1]));
        assert(!waits(queue, path[i]));
    } else {
        assert(!waits(queue, start));
    }
}

impl Pos {
    /// The position one tile on in the direction `rhs`.
    pub fn add(self, rhs: Dir) -> (r: Pos)
        requires
            isize::MIN < self.x < isize::MAX,
            isize::MIN < self.y < isize::MAX,
        ensures
            r.x == self.x + rhs.dx(),
            r.y == self.y + rhs.dy(),
    {
        match rhs {
            Dir::L => self.move_west(),
            Dir::R => self.move_east(),
            Dir::U => self.move_north(),
            Dir::D => self.move_south(),
        }
    }
}

/// The greater of two numbers.
pub open spec fn greater(a: nat, b: nat) -> nat {
    if a >= b {
        a
    } else {
        b
    }
}

/// The most tiles that a beam lights which enters the cave downwards at the
/// top or upwards at the bottom of one of the first `k` columns.
pub open spec fn best_columns(s: Seq<u8>, k: int) -> nat
    decreases k,
{
    if k <= 0 {
        0
    } else {
        greater(
            best_columns(s, k - 1),
            greater(
                energized(s, Ray { x: k - 1, y: 0, d: Dir::D }),
                energized(s, Ray { x: k - 1, y: row_count(s) - 1, d: Dir::U }),
            ),
        )
    }
}

/// The most tiles that a beam lights which enters the cave to the right at
/// the west end or to the left at the east end of one of the first `k`
/// rows.
pub open spec fn best_rows(s: Seq<u8>, k: int) -> nat
    decreases k,
{
    if k <= 0 {
        0
    } else {
        greater(
            best_rows(s, k - 1),
            greater(
                energized(s, Ray { x: 0, y: k - 1, d: Dir::R }),
                energized(s, Ray { x: line_len(s) - 1, y: k - 1, d: Dir::L }),
            ),
        )
    }
}

/// Whether the map of a cave is small enough for the beams on its tiles to
/// be told apart in a signed machine word.
pub open spec fn small(s: Seq<u8>) -> bool {
    s.len() * 4 <= isize::MAX
}

/// The number of tiles that a beam lights which enters the cave to the
/// right in its north-west corner. Nothing if the text is not the map of a
/// cave, or too large a one.
pub fn part1(data: &str) -> (r: Option<usize>)
    ensures
        ({
            let s = content(data.spec_bytes());
            if is_cave(s) && small(s) {
                r == Some(energized(s, Ray { x: 0, y: 0, d: Dir::R }) as usize)
            } else {
                r.is_none()
            }
        }),
{
    let text = content_of(data.as_bytes());
    let body = text.as_slice();
    if body.len() > (isize::MAX as usize) / 4 {
        return None;
    }
    let cave = match Cave::from_input(body) {
        Some(cave) => cave,
        None => {
            return None;
        },
    };
    Some(cave.trace_beam(Pos { x: 0, y: 0 }, Dir::R))
}

/// The most tiles that a beam lights which enters the cave at one of its
/// edges.
pub fn part2(data: &str) -> (r: Option<usize>)
    ensures
        ({
            let s = content(data.spec_bytes());
            if is_cave(s) && small(s) {
                r == Some(
                    greater(best_columns(s, line_len(s)), best_rows(s, row_count(s))) as usize,
                )
            } else {
                r.is_none()
            }
        }),
{
    let text = content_of(data.as_bytes());
    let body = text.as_slice();
    if body.len() > (isize::MAX as usize) / 4 {
        return None;
    }
    let cave = match Cave::from_input(body) {
        Some(cave) => cave,
        None => {
            return None;
        },
    };
    let ghost s = body@;
    let w = cave.width();
    let h = cave.height();
    proof {
        cave.lemma_size();
    }
    let mut ret: usize = 0;
    let mut x: usize = 0;
    while x < w
        invariant
            cave.wf(),
            s == cave.text(),
            small(s),
            w == line_len(s),
            h == row_count(s),
            h >= 1,
            w <= s.len(),
            h <= s.len(),
            x <= w,
            ret == best_columns(s, x as int),
        decreases w - x,
    {
        let top = cave.trace_beam(Pos::new(x, 0), Dir::D);
        let bottom = cave.trace_beam(Pos::new(x, h - 1), Dir::U);
        if top > ret {
            ret = top;
        }
        if bottom > ret {
            ret = bottom;
        }
        x += 1;
    }
    let mut rows: usize = 0;
    let mut y: usize = 0;
    while y < h
        invariant
            cave.wf(),
            s == cave.text(),
            small(s),
            w == line_len(s),
            h == row_count(s),
            w >= 1,
            w <= s.len(),
            h <= s.len(),
            y <= h,
            rows == best_rows(s, y as int),
        decreases h - y,
    {
        let west = cave.trace_beam(Pos::new(0, y), Dir::R);
        let east = cave.trace_beam(Pos::new(w - 1, y), Dir::L);
        if west > rows {
            rows = west;
        }
        if east > rows {
            rows = east;
        }
        y += 1;
    }
    if rows > ret {
        ret = rows;
    }
    Some(ret)
}

impl<'a> Cave<'a> {
    /// A cave has no more columns or rows than its text has bytes.
    pub proof fn lemma_size(&self)
        requires
            self.wf(),
        ensures
            line_len(self.text()) <= self.text().len(),
            row_count(self.text()) <= self.text().len(),
    {
        let (w, h, n) = (self.width as int, self.height as int, self.data@.len() as int);
        assert(w <= n && h <= n) by (nonlinear_arith)
            requires
                h * (w + 1) == n + 1,
                h >= 1,
                w >= 1,
        ;
    }
}

} // verus!
