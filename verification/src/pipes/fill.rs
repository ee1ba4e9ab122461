//! The flood that fills the canvas from a seed, row by row in spans.

use vstd::prelude::*;
use crate::pipes::canvas::{cols, flooded, is_open, on_raster, open_at, regular, FilledGrid};
use crate::pipes::pos::Pos;

verus! {

/// Whether two cells share a side.
pub open spec fn adjacent(a: (int, int), b: (int, int)) -> bool {
    ||| a.1 == b.1 && (a.0 == b.0 + 1 || a.0 + 1 == b.0)
    ||| a.0 == b.0 && (a.1 == b.1 + 1 || a.1 + 1 == b.1)
}

/// Whether `route` is a way through the raster: one or more cells that the
/// flood can enter, each sharing a side with the next.
pub open spec fn is_route(r: Seq<Seq<u8>>, route: Seq<(int, int)>) -> bool {
    &&& route.len() >= 1
    &&& forall|i: int| 0 <= i < route.len() ==> open_at(r, (#[trigger] route[i]).0, route[i].1)
    &&& forall|i: int| 0 <= i < route.len() - 1 ==> adjacent(#[trigger] route[i], route[i + 1])
}

/// Whether the flood that starts in the cell `seed` gets to column `x`, row
/// `y`: some way through the raster leads from the one to the other.
pub open spec fn reaches(r: Seq<Seq<u8>>, seed: (int, int), x: int, y: int) -> bool {
    exists|route: Seq<(int, int)>|
        #[trigger] is_route(r, route) && route[0] == seed && route.last() == (x, y)
}

/// The raster after the flood from `seed`: the cells that the flood reaches
/// are marked, all others are as they were.
pub open spec fn flood(r: Seq<Seq<u8>>, seed: (int, int)) -> Seq<Seq<u8>> {
    Seq::new(
        r.len(),
        |y: int|
            Seq::new(
                r[y].len(),
                |x: int|
                    if reaches(r, seed, x, y) {
                        flooded(r[y][x])
                    } else {
                        r[y][x]
                    },
            ),
    )
}

/// The flood gets to its seed if it can enter it.
pub proof fn lemma_reach_seed(r: Seq<Seq<u8>>, seed: (int, int))
    requires
        open_at(r, seed.0, seed.1),
    ensures
        reaches(r, seed, seed.0, seed.1),
{
    let route = seq![seed];
    assert(is_route(r, route));
    assert(route[0] == seed && route.last() == (seed.0, seed.1));
}

/// The flood gets from a cell to each neighbour that it can enter.
pub proof fn lemma_reach_step(r: Seq<Seq<u8>>, seed: (int, int), a: (int, int), b: (int, int))
    requires
        reaches(r, seed, a.0, a.1),
        adjacent(a, b),
        open_at(r, b.0, b.1),
    ensures
        reaches(r, seed, b.0, b.1),
{
    let route = choose|route: Seq<(int, int)>|
        #[trigger] is_route(r, route) && route[0] == seed && route.last() == (a.0, a.1);
    let longer = route.push(b);
    assert forall|i: int| 0 <= i < longer.len() - 1 implies adjacent(
        #[trigger] longer[i],
        longer[i + 1],
    ) by {
        if i < route.len() - 1 {
            assert(longer[i] == route[i]);
            assert(longer[i + 1] == route[i + 1]);
        }
    }
    assert forall|i: int| 0 <= i < longer.len() implies open_at(
        r,
        (#[trigger] longer[i]).0,
        longer[i].1,
    ) by {
        if i < route.len() {
            assert(longer[i] == route[i]);
        }
    }
    assert(is_route(r, longer));
    assert(longer[0] == seed && longer.last() == (b.0, b.1));
}

/// The flood gets only to cells that it can enter, and only if it can enter
/// its seed.
pub proof fn lemma_reach_open(r: Seq<Seq<u8>>, seed: (int, int), x: int, y: int)
    requires
        reaches(r, seed, x, y),
    ensures
        open_at(r, x, y),
        open_at(r, seed.0, seed.1),
{
    let route = choose|route: Seq<(int, int)>|
        #[trigger] is_route(r, route) && route[0] == seed && route.last() == (x, y);
    assert(open_at(r, route[0].0, route[0].1));
    assert(open_at(r, route[route.len() - 1].0, route[route.len() - 1].1));
}

/// The flood that gets to one cell of a run of cells in a row, all of which
/// it can enter, gets to each of them.
pub proof fn lemma_reach_run(
    r: Seq<Seq<u8>>,
    seed: (int, int),
    y: int,
    from: int,
    lo: int,
    hi: int,
    x: int,
)
    requires
        reaches(r, seed, from, y),
        lo <= from < hi,
        lo <= x < hi,
        forall|c: int| lo <= c < hi ==> #[trigger] open_at(r, c, y),
    ensures
        reaches(r, seed, x, y),
    decreases
            if x >= from {
                x - from
            } else {
                from - x
            },
{
    if x > from {
        lemma_reach_run(r, seed, y, from, lo, hi, x - 1);
        assert(open_at(r, x, y));
        lemma_reach_step(r, seed, (x - 1, y), (x, y));
    } else if x < from {
        lemma_reach_run(r, seed, y, from, lo, hi, x + 1);
        assert(open_at(r, x, y));
        lemma_reach_step(r, seed, (x + 1, y), (x, y));
    }
}

/// The flood that gets from one cell to another gets back from there.
pub proof fn lemma_reach_back(r: Seq<Seq<u8>>, seed: (int, int), x: int, y: int)
    requires
        reaches(r, seed, x, y),
    ensures
        reaches(r, (x, y), seed.0, seed.1),
{
    let route = choose|route: Seq<(int, int)>|
        #[trigger] is_route(r, route) && route[0] == seed && route.last() == (x, y);
    let n = route.len() as int;
    let back = Seq::new(route.len(), |i: int| route[n - 1 - i]);
    assert forall|i: int| 0 <= i < back.len() implies open_at(
        r,
        (#[trigger] back[i]).0,
        back[i].1,
    ) by {
        assert(open_at(r, route[n - 1 - i].0, route[n - 1 - i].1));
    }
    assert forall|i: int| 0 <= i < back.len() - 1 implies adjacent(
        #[trigger] back[i],
        back[i + 1],
    ) by {
        assert(adjacent(route[n - 2 - i], route[n - 2 - i + 1]));
    }
    assert(is_route(r, back));
    assert(back[0] == (x, y) && back.last() == (seed.0, seed.1));
}

/// The flood that gets from a first cell to a second, and from the second
/// to a third, gets from the first to the third.
pub proof fn lemma_reach_on(r: Seq<Seq<u8>>, a: (int, int), b: (int, int), x: int, y: int)
    requires
        reaches(r, a, b.0, b.1),
        reaches(r, b, x, y),
    ensures
        reaches(r, a, x, y),
{
    let first = choose|route: Seq<(int, int)>|
        #[trigger] is_route(r, route) && route[0] == a && route.last() == (b.0, b.1);
    let second = choose|route: Seq<(int, int)>|
        #[trigger] is_route(r, route) && route[0] == b && route.last() == (x, y);
    if second.len() > 1 {
        let rest = second.skip(1);
        let whole = first + rest;
        let n = first.len() as int;
        assert forall|i: int| 0 <= i < whole.len() implies open_at(
            r,
            (#[trigger] whole[i]).0,
            whole[i].1,
        ) by {
            if i < n {
                assert(whole[i] == first[i]);
            } else {
                assert(whole[i] == second[i - n + 1]);
            }
        }
        assert forall|i: int| 0 <= i < whole.len() - 1 implies adjacent(
            #[trigger] whole[i],
            whole[i + 1],
        ) by {
            if i < n - 1 {
                assert(whole[i] == first[i] && whole[i + 1] == first[i + 1]);
            } else if i == n - 1 {
                assert(whole[i] == first[n - 1]);
                assert(whole[i + 1] == second[1]);
                assert(adjacent(second[0], second[0int + 1]));
            } else {
                assert(whole[i] == second[i - n + 1]);
                assert(whole[i + 1] == second[i - n + 1 + 1]);
            }
        }
        assert(is_route(r, whole));
        assert(whole[0] == a);
        assert(whole.last() == second[second.len() - 1]);
    }
}

/// A second flood from the same seed changes nothing.
pub proof fn lemma_flood_idempotent(r: Seq<Seq<u8>>, seed: (int, int))
    ensures
        flood(flood(r, seed), seed) == flood(r, seed),
{
    let once = flood(r, seed);
    let twice = flood(once, seed);
    assert forall|y: int, x: int| 0 <= y < once.len() && 0 <= x < once[y].len() implies twice[y][x]
        == once[y][x] by {
        if reaches(once, seed, x, y) {
            lemma_reach_open(once, seed, x, y);
            assert(on_raster(r, seed.0, seed.1));
            if reaches(r, seed, seed.0, seed.1) {
            } else if open_at(r, seed.0, seed.1) {
                lemma_reach_seed(r, seed);
            }
        }
    }
    assert(twice =~~= once);
}

/// The raster with the cells of row `y` from column `lo` up to, not
/// including, column `hi` marked as flooded.
pub open spec fn flood_run(r: Seq<Seq<u8>>, y: int, lo: int, hi: int) -> Seq<Seq<u8>> {
    Seq::new(
        r.len(),
        |cy: int|
            Seq::new(
                r[cy].len(),
                |cx: int|
                    if cy == y && lo <= cx < hi {
                        flooded(r[cy][cx])
                    } else {
                        r[cy][cx]
                    },
            ),
    )
}

/// A stretch of a row that the flood has yet to look at: the columns from
/// `x1` to `x2` of row `y`, which lie next to flooded cells of the row
/// `y - dy`.
struct Span {
    x1: isize,
    x2: isize,
    y: isize,
    dy: isize,
}

/// A span as a value of mathematics.
struct SpanView {
    x1: int,
    x2: int,
    y: int,
    dy: int,
}

/// The span as a value of mathematics.
spec fn model(s: Span) -> SpanView {
    SpanView { x1: s.x1 as int, x2: s.x2 as int, y: s.y as int, dy: s.dy as int }
}

/// All that the flood has yet to look at: the spans laid aside, what is left
/// of the span in hand, and the cells beyond the run in hand.
struct Front {
    stack: Seq<Span>,
    cur: SpanView,
    fwd: SpanView,
}

/// A span that holds no cell.
spec fn no_span() -> SpanView {
    SpanView { x1: 0, x2: -1, y: 0, dy: 1 }
}

/// Whether the span holds column `x` of row `y`.
spec fn covers(s: SpanView, x: int, y: int) -> bool {
    s.y == y && s.x1 <= x <= s.x2
}

/// Whether the span laid aside in place `i` holds column `x` of row `y`.
spec fn covers_at(f: Front, i: int, x: int, y: int) -> bool {
    0 <= i < f.stack.len() && covers(model(f.stack[i]), x, y)
}

/// Whether the flood has yet to look at column `x` of row `y`.
spec fn covered(f: Front, x: int, y: int) -> bool {
    covers(f.cur, x, y) || covers(f.fwd, x, y) || exists|i: int| #[trigger] covers_at(f, i, x, y)
}

/// Whether nothing is left undone about column `x` of row `y`: the flood
/// cannot enter it, or has yet to look at it.
spec fn settled(c: Seq<Seq<u8>>, f: Front, x: int, y: int) -> bool {
    !open_at(c, x, y) || covered(f, x, y)
}

/// Whether the flood has marked column `x` of row `y`.
spec fn changed(old: Seq<Seq<u8>>, c: Seq<Seq<u8>>, x: int, y: int) -> bool {
    on_raster(old, x, y) && c[y][x] != old[y][x]
}

/// Whether the raster `c` is the raster `old` with some cells flooded.
spec fn shape(old: Seq<Seq<u8>>, c: Seq<Seq<u8>>) -> bool {
    &&& regular(old)
    &&& c.len() == old.len()
    &&& forall|y: int| 0 <= y < old.len() ==> (#[trigger] c[y]).len() == old[y].len()
    &&& forall|x: int, y: int| #[trigger]
        on_raster(old, x, y) ==> c[y][x] == old[y][x] || (is_open(old[y][x]) && c[y][x]
            == flooded(old[y][x]))
}

/// A marked cell is one that the flood gets to.
spec fn sound_at(old: Seq<Seq<u8>>, c: Seq<Seq<u8>>, seed: (int, int), x: int, y: int) -> bool {
    changed(old, c, x, y) ==> reaches(old, seed, x, y)
}

/// Nothing is left undone about the four neighbours of a marked cell.
spec fn closed_at(old: Seq<Seq<u8>>, c: Seq<Seq<u8>>, f: Front, x: int, y: int) -> bool {
    changed(old, c, x, y) ==> {
        &&& settled(c, f, x + 1, y)
        &&& settled(c, f, x - 1, y)
        &&& settled(c, f, x, y + 1)
        &&& settled(c, f, x, y - 1)
    }
}

/// What holds of column `x` of a span: the flood gets to the cell if it can
/// enter it, and nothing is left undone about the cell in the row that
/// the span came from.
spec fn span_cell_ok(
    old: Seq<Seq<u8>>,
    c: Seq<Seq<u8>>,
    seed: (int, int),
    f: Front,
    s: SpanView,
    x: int,
) -> bool {
    s.x1 <= x <= s.x2 ==> {
        &&& open_at(old, x, s.y) ==> reaches(old, seed, x, s.y)
        &&& settled(c, f, x, s.y - s.dy)
    }
}

/// What holds of a span.
spec fn span_ok(old: Seq<Seq<u8>>, c: Seq<Seq<u8>>, seed: (int, int), f: Front,
    s: SpanView) -> bool {
    &&& s.dy == 1 || s.dy == -1
    &&& s.x1 <= s.x2 ==> 0 <= s.x1 && s.x2 < cols(old) && -1 <= s.y <= old.len()
    &&& forall|x: int| #[trigger] span_cell_ok(old, c, seed, f, s, x)
}

/// What holds of the span laid aside in place `i`.
spec fn stack_ok(old: Seq<Seq<u8>>, c: Seq<Seq<u8>>, seed: (int, int), f: Front, i: int) -> bool {
    0 <= i < f.stack.len() ==> span_ok(old, c, seed, f, model(f.stack[i])) && f.stack[i].x1
        <= f.stack[i].x2
}

/// What holds while the flood is under way.
spec fn flooding(old: Seq<Seq<u8>>, c: Seq<Seq<u8>>, seed: (int, int), f: Front) -> bool {
    &&& shape(old, c)
    &&& forall|x: int, y: int| #[trigger] sound_at(old, c, seed, x, y)
    &&& forall|x: int, y: int| #[trigger] closed_at(old, c, f, x, y)
    &&& forall|i: int| #[trigger] stack_ok(old, c, seed, f, i)
    &&& span_ok(old, c, seed, f, f.cur)
    &&& span_ok(old, c, seed, f, f.fwd)
    &&& settled(c, f, seed.0, seed.1)
}

/// Whether the span `t` is a part of the span `s`.
spec fn part_of(t: SpanView, s: SpanView) -> bool {
    t.y == s.y && t.dy == s.dy && s.x1 <= t.x1 && t.x2 <= s.x2
}

/// Whether the span `t` is a part of a span of the front `f`.
spec fn derived(t: SpanView, f: Front) -> bool {
    part_of(t, f.cur) || exists|i: int| 0 <= i < f.stack.len()
        && part_of(t, model(#[trigger] f.stack[i]))
}

/// What is left to look at stays so as long as the flood can enter it.
spec fn kept(c: Seq<Seq<u8>>, f1: Front, f2: Front, x: int, y: int) -> bool {
    covered(f1, x, y) && open_at(c, x, y) ==> covered(f2, x, y)
}

/// Nothing is left undone about the four neighbours of a cell of a run.
spec fn run_cell_closed(
    c: Seq<Seq<u8>>,
    f: Front,
    y: int,
    lo: int,
    hi: int,
    x: int,
) -> bool {
    lo <= x < hi ==> {
        &&& settled(c, f, x + 1, y)
        &&& settled(c, f, x - 1, y)
        &&& settled(c, f, x, y + 1)
        &&& settled(c, f, x, y - 1)
    }
}

/// The flood can enter a cell of a run, and gets to it.
spec fn run_cell_open(
    old: Seq<Seq<u8>>,
    c: Seq<Seq<u8>>,
    seed: (int, int),
    y: int,
    lo: int,
    hi: int,
    x: int,
) -> bool {
    lo <= x < hi ==> open_at(c, x, y) && reaches(old, seed, x, y)
}

/// What is laid aside in the front `f2` was laid aside in `f1` or is sound.
spec fn stack_kept(
    old: Seq<Seq<u8>>,
    c: Seq<Seq<u8>>,
    seed: (int, int),
    f1: Front,
    f2: Front,
    j: int,
) -> bool {
    0 <= j < f2.stack.len() ==> (j < f1.stack.len() && f2.stack[j] == f1.stack[j]) || (span_ok(
        old,
        c,
        seed,
        f2,
        model(f2.stack[j]),
    ) && f2.stack[j].x1 <= f2.stack[j].x2)
}

/// Flooding a run of cells keeps the state of the flood sound, if what the
/// flood has yet to look at is extended as the run requires.
proof fn lemma_advance(
    old: Seq<Seq<u8>>,
    c1: Seq<Seq<u8>>,
    c2: Seq<Seq<u8>>,
    seed: (int, int),
    f1: Front,
    f2: Front,
    y: int,
    lo: int,
    hi: int,
)
    requires
        flooding(old, c1, seed, f1),
        c2 == flood_run(c1, y, lo, hi),
        forall|x: int| #[trigger] run_cell_open(old, c1, seed, y, lo, hi, x),
        forall|x: int, cy: int| #[trigger] kept(c2, f1, f2, x, cy),
        forall|x: int| #[trigger] run_cell_closed(c2, f2, y, lo, hi, x),
        forall|j: int| #[trigger] stack_kept(old, c2, seed, f1, f2, j),
        derived(f2.cur, f1) || span_ok(old, c2, seed, f2, f2.cur),
        span_ok(old, c2, seed, f2, f2.fwd),
    ensures
        flooding(old, c2, seed, f2),
{
    assert(shape(old, c2)) by {
        assert forall|x: int, cy: int| #[trigger] on_raster(old, x, cy) implies c2[cy][x]
            == old[cy][x] || (is_open(old[cy][x]) && c2[cy][x] == flooded(old[cy][x])) by {
            assert(run_cell_open(old, c1, seed, y, lo, hi, x));
        }
    }
    assert forall|x: int, cy: int| open_at(c2, x, cy) implies open_at(c1, x, cy) by {}
    assert forall|x: int, cy: int| settled(c1, f1, x, cy) implies settled(c2, f2, x, cy) by {
        assert(kept(c2, f1, f2, x, cy));
    }
    assert forall|x: int, cy: int| #[trigger] sound_at(old, c2, seed, x, cy) by {
        assert(sound_at(old, c1, seed, x, cy));
        assert(run_cell_open(old, c1, seed, y, lo, hi, x));
    }
    assert forall|x: int, cy: int| #[trigger] closed_at(old, c2, f2, x, cy) by {
        assert(closed_at(old, c1, f1, x, cy));
        assert(run_cell_closed(c2, f2, y, lo, hi, x));
    }
    assert forall|s: SpanView| span_ok(old, c1, seed, f1, s)
        implies span_ok(old, c2, seed, f2, s) by {
        assert forall|x: int| #[trigger] span_cell_ok(old, c2, seed, f2, s, x) by {
            assert(span_cell_ok(old, c1, seed, f1, s, x));
        }
    }
    assert forall|s: SpanView, t: SpanView|
        span_ok(old, c1, seed, f1, s) && part_of(t, s) implies span_ok(old, c2, seed, f2, t) by {
        assert forall|x: int| #[trigger] span_cell_ok(old, c2, seed, f2, t, x) by {
            assert(span_cell_ok(old, c1, seed, f1, s, x));
        }
    }
    assert forall|j: int| #[trigger] stack_ok(old, c2, seed, f2, j) by {
        assert(stack_kept(old, c2, seed, f1, f2, j));
        assert(stack_ok(old, c1, seed, f1, j));
    }
    assert(span_ok(old, c2, seed, f2, f2.cur)) by {
        if derived(f2.cur, f1) {
            if part_of(f2.cur, f1.cur) {
            } else {
                let i = choose|i: int|
                    0 <= i < f1.stack.len() && part_of(f2.cur, model(#[trigger] f1.stack[i]));
                assert(stack_ok(old, c1, seed, f1, i));
            }
        }
    }
}

/// Once the flood has nothing left to look at, it has marked each cell on a
/// way from the seed.
proof fn lemma_route_marked(
    old: Seq<Seq<u8>>,
    c: Seq<Seq<u8>>,
    seed: (int, int),
    f: Front,
    route: Seq<(int, int)>,
    i: int,
)
    requires
        flooding(old, c, seed, f),
        forall|x: int, y: int| !covered(f, x, y),
        is_route(old, route),
        route[0] == seed,
        0 <= i < route.len(),
    ensures
        changed(old, c, route[i].0, route[i].1),
    decreases i,
{
    let p = route[i];
    assert(open_at(old, p.0, p.1));
    assert(on_raster(old, p.0, p.1));
    if i > 0 {
        let q = route[i - 1];
        lemma_route_marked(old, c, seed, f, route, i - 1);
        assert(adjacent(q, route[i - 1 + 1]));
        assert(closed_at(old, c, f, q.0, q.1));
    }
}

/// Once the flood has nothing left to look at, the raster is flooded.
proof fn lemma_flood_done(old: Seq<Seq<u8>>, c: Seq<Seq<u8>>, seed: (int, int), f: Front)
    requires
        flooding(old, c, seed, f),
        forall|x: int, y: int| !covered(f, x, y),
    ensures
        c == flood(old, seed),
{
    let goal = flood(old, seed);
    assert forall|y: int, x: int| 0 <= y < old.len() && 0 <= x < old[y].len() implies c[y][x]
        == goal[y][x] by {
        assert(on_raster(old, x, y));
        if reaches(old, seed, x, y) {
            let route = choose|route: Seq<(int, int)>|
                #[trigger] is_route(old, route) && route[0] == seed && route.last() == (x, y);
            lemma_route_marked(old, c, seed, f, route, route.len() - 1);
        } else {
            assert(sound_at(old, c, seed, x, y));
        }
    }
    assert(c =~~= goal);
}

/// A canvas leaves room for one more column and one more row in a signed
/// machine word.
proof fn lemma_room(width: int, height: int)
    requires
        crate::pipes::canvas::canvas_fits(width, height),
    ensures
        2 * (3 * width + 2) <= isize::MAX,
        2 * (3 * height + 2) <= isize::MAX,
{
    let (w, h) = (3 * width + 2, 3 * height + 2);
    assert(2 * w <= w * h && 2 * h <= w * h) by (nonlinear_arith)
        requires
            w >= 2,
            h >= 2,
    ;
}

impl FilledGrid {
    /// Floods the cells west of column `x` in row `y`, one by one, up to the
    /// first that the flood cannot enter, and returns the column of the last
    /// one flooded, or `x` if none was.
    fn fill_left(&mut self, x: isize, y: isize) -> (lo: isize)
        requires
            old(self).wf(),
            0 <= x <= cols(old(self)@),
        ensures
            final(self).wf(),
            final(self).grid_width() == old(self).grid_width(),
            final(self).grid_height() == old(self).grid_height(),
            0 <= lo <= x,
            forall|c: int| lo <= c < x ==> #[trigger] open_at(old(self)@, c, y as int),
            !open_at(old(self)@, lo - 1, y as int),
            final(self)@ == flood_run(old(self)@, y as int, lo as int, x as int),
            final(self).open_count() == old(self).open_count() - (x - lo),
    {
        let ghost before = self@;
        let ghost count = self.open_count();
        let mut lo = x;
        proof {
            assert(self@ =~~= flood_run(before, y as int, lo as int, x as int));
        }
        loop
            invariant
                self.wf(),
                self.grid_width() == old(self).grid_width(),
                self.grid_height() == old(self).grid_height(),
                before == old(self)@,
                regular(before),
                0 <= lo <= x,
                forall|c: int| lo <= c < x ==> #[trigger] open_at(before, c, y as int),
                self@ == flood_run(before, y as int, lo as int, x as int),
                self.open_count() == count - (x - lo),
            ensures
                !open_at(before, lo - 1, y as int),
            decreases lo,
        {
            if !self.try_set_raw(Pos { x: lo - 1, y }) {
                break;
            }
            lo = lo - 1;
            proof {
                assert(self@ =~~= flood_run(before, y as int, lo as int, x as int));
            }
        }
        lo
    }

    /// Floods the cells of row `y` from column `x1` eastwards, one by one, up
    /// to the first that the flood cannot enter, and returns the column of
    /// that one.
    fn fill_right(&mut self, x1: isize, y: isize) -> (hi: isize)
        requires
            old(self).wf(),
            0 <= x1 <= cols(old(self)@),
        ensures
            final(self).wf(),
            final(self).grid_width() == old(self).grid_width(),
            final(self).grid_height() == old(self).grid_height(),
            x1 <= hi <= cols(old(self)@),
            forall|c: int| x1 <= c < hi ==> #[trigger] open_at(old(self)@, c, y as int),
            !open_at(old(self)@, hi as int, y as int),
            final(self)@ == flood_run(old(self)@, y as int, x1 as int, hi as int),
            final(self).open_count() == old(self).open_count() - (hi - x1),
    {
        let ghost before = self@;
        let ghost count = self.open_count();
        let mut hi = x1;
        proof {
            lemma_room(self.grid_width(), self.grid_height());
            assert(self@ =~~= flood_run(before, y as int, x1 as int, hi as int));
        }
        loop
            invariant
                self.wf(),
                self.grid_width() == old(self).grid_width(),
                self.grid_height() == old(self).grid_height(),
                before == old(self)@,
                regular(before),
                2 * cols(before) <= isize::MAX,
                x1 <= hi <= cols(before),
                forall|c: int| x1 <= c < hi ==> #[trigger] open_at(before, c, y as int),
                self@ == flood_run(before, y as int, x1 as int, hi as int),
                self.open_count() == count - (hi - x1),
            ensures
                !open_at(before, hi as int, y as int),
            decreases cols(before) - hi,
        {
            if !self.try_set_raw(Pos { x: hi, y }) {
                break;
            }
            hi = hi + 1;
            proof {
                assert(self@ =~~= flood_run(before, y as int, x1 as int, hi as int));
            }
        }
        hi
    }

    /// The first column from `x1` on and before `x2` in row `y` that the
    /// flood can enter, or the greater of `x1` and `x2` if there is none.
    fn skip_closed(&self, x1: isize, x2: isize, y: isize) -> (r: isize)
        requires
            self.wf(),
        ensures
            x1 <= r,
            r < x2 ==> open_at(self@, r as int, y as int),
            x2 <= r ==> r == x1 || r == x2,
            forall|c: int| x1 <= c < r ==> !#[trigger] open_at(self@, c, y as int),
    {
        let mut r = x1;
        while r < x2
            invariant
                self.wf(),
                x1 <= r,
                r <= x1 || r <= x2,
                forall|c: int| x1 <= c < r ==> !#[trigger] open_at(self@, c, y as int),
            ensures
                r < x2 ==> open_at(self@, r as int, y as int),
            decreases x2 - r,
        {
            if self.is_set_raw(Pos { x: r, y }) {
                break;
            }
            r = r + 1;
        }
        r
    }

    /// Floods the canvas from the cell at `pos`: marks that cell if the flood
    /// can enter it, and each cell that a way through such cells leads to
    /// from there. No other cell changes.
    ///
    /// The work is laid out in spans of a row. A span is looked at from west
    /// to east; each run of free cells that begins in it is flooded to both
    /// of its ends, and the cells next to the run in the rows above and below
    /// are laid aside as new spans, but for those that the span itself came
    /// from.
    pub fn flood_fill(&mut self, pos: Pos)
        requires
            old(self).wf(),
        ensures
            final(self).wf(),
            final(self).grid_width() == old(self).grid_width(),
            final(self).grid_height() == old(self).grid_height(),
            final(self)@ == flood(old(self)@, (pos.x as int, pos.y as int)),
    {
        let ghost old_r = self@;
        let ghost seed = (pos.x as int, pos.y as int);
        if !self.is_set_raw(pos) {
            proof {
                assert forall|y: int, x: int|
                    0 <= y < old_r.len() && 0 <= x < old_r[y].len() implies old_r[y][x] == flood(
                    old_r,
                    seed,
                )[y][x] by {
                    if reaches(old_r, seed, x, y) {
                        lemma_reach_open(old_r, seed, x, y);
                    }
                }
                assert(self@ =~~= flood(old_r, seed));
            }
            return ;
        }
        proof {
            lemma_room(self.grid_width(), self.grid_height());
            lemma_reach_seed(old_r, seed);
        }
        let mut pending: Vec<Span> = Vec::new();
        pending.push(Span { x1: pos.x, x2: pos.x, y: pos.y, dy: 1 });
        if pos.y > 0 {
            pending.push(Span { x1: pos.x, x2: pos.x, y: pos.y - 1, dy: -1 });
        }
        proof {
            let f = idle(pending@);
            assert(covers_at(f, 0, seed.0, seed.1));
            assert forall|i: int| #[trigger] stack_ok(old_r, old_r, seed, f, i) by {
                if i == 0 {
                    let s = model(f.stack[0]);
                    assert forall|x: int| #[trigger] span_cell_ok(old_r, old_r, seed, f, s, x) by {
                        if pos.y > 0 {
                            assert(covers_at(f, 1, seed.0, seed.1 - 1));
                        }
                    }
                } else if i == 1 && pos.y > 0 {
                    let s = model(f.stack[1]);
                    assert forall|x: int| #[trigger] span_cell_ok(old_r, old_r, seed, f, s, x) by {
                        if open_at(old_r, seed.0, seed.1 - 1) {
                            lemma_reach_step(old_r, seed, seed, (seed.0, seed.1 - 1));
                        }
                    }
                }
            }
            assert forall|x: int| #[trigger] span_cell_ok(old_r, old_r, seed, f, no_span(), x) by {}
            assert(flooding(old_r, old_r, seed, f));
        }
        loop
            invariant
                self.wf(),
                self.grid_width() == old(self).grid_width(),
                self.grid_height() == old(self).grid_height(),
                old_r == old(self)@,
                seed == (pos.x as int, pos.y as int),
                2 * cols(old_r) <= isize::MAX,
                2 * old_r.len() <= isize::MAX,
                flooding(old_r, self@, seed, idle(pending@)),
            ensures
                pending@.len() == 0,
            decreases self.open_count(), pending@.len(),
        {
            let ghost stack0 = pending@;
            let ghost c0 = self@;
            let ghost count0 = self.open_count();
            let item = match pending.pop() {
                Some(item) => item,
                None => {
                    break ;
                },
            };
            let a = item.x1;
            let b = item.x2;
            let y = item.y;
            let dy = item.dy;
            let ghost len0 = pending@.len();
            proof {
                let f1 = idle(stack0);
                let f2 = front_of(pending@, a as int, a as int, b as int, y as int, dy as int);
                assert(stack_ok(old_r, c0, seed, f1, stack0.len() - 1));
                assert(f2.cur == model(stack0[stack0.len() - 1]));
                assert(part_of(f2.cur, model(f1.stack[stack0.len() - 1])));
                assert(c0 =~~= flood_run(c0, 0, 0, 0));
                assert forall|x: int, cy: int| #[trigger] kept(c0, f1, f2, x, cy) by {
                    if covered(f1, x, cy) {
                        let i = choose|i: int| #[trigger] covers_at(f1, i, x, cy);
                        if i < stack0.len() - 1 {
                            assert(covers_at(f2, i, x, cy));
                        }
                    }
                }
                assert forall|x: int| #[trigger] run_cell_open(old_r, c0, seed, 0, 0, 0, x) by {}
                assert forall|x: int| #[trigger] run_cell_closed(c0, f2, 0, 0, 0, x) by {}
                assert forall|j: int| #[trigger] stack_kept(old_r, c0, seed, f1, f2, j) by {}
                assert forall|x: int| #[trigger] span_cell_ok(old_r, c0, seed, f2, f2.fwd, x) by {}
                lemma_advance(old_r, c0, c0, seed, f1, f2, 0, 0, 0);
            }
            let mut x = a;
            let mut x1 = a;
            if self.is_set_raw(Pos { x: a, y }) {
                x = self.fill_left(a, y);
                if x < a {
                    pending.push(Span { x1: x, x2: a - 1, y: y - dy, dy: -dy });
                }
            }
            proof {
                let c1 = self@;
                let f1 = front_of(stack0.drop_last(), a as int, a as int, b as int, y as int,
                    dy as int);
                let f2 = front_of(pending@, x as int, a as int, b as int, y as int, dy as int);
                assert(stack0.drop_last() == stack0.subrange(0, stack0.len() - 1));
                assert(c1 =~~= flood_run(c0, y as int, x as int, a as int));
                assert(span_cell_ok(old_r, c0, seed, f1, f1.cur, a as int));
                assert forall|c: int| #[trigger] run_cell_open(old_r, c0, seed, y as int, x as int,
                    a as int, c) by {
                    if x <= c < a {
                        assert(open_at(c0, c, y as int));
                        assert forall|k: int| x <= k < a + 1 implies #[trigger] open_at(
                            old_r,
                            k,
                            y as int,
                        ) by {
                            assert(open_at(c0, k, y as int));
                            assert(on_raster(old_r, k, y as int));
                        }
                        lemma_reach_run(old_r, seed, y as int, a as int, x as int, a + 1, c);
                    }
                }
                assert forall|c: int, cy: int| #[trigger] kept(c1, f1, f2, c, cy) by {
                    if covered(f1, c, cy) && !covers(f1.cur, c, cy) && !covers(f1.fwd, c, cy) {
                        let i = choose|i: int| #[trigger] covers_at(f1, i, c, cy);
                        assert(covers_at(f2, i, c, cy));
                    }
                }
                assert forall|c: int| #[trigger] run_cell_closed(c1, f2, y as int, x as int,
                    a as int, c) by {
                    if x <= c < a {
                        assert(on_raster(old_r, c, y as int));
                        assert(open_at(c0, c, y as int));
                        assert(covers_at(f2, pending@.len() - 1, c, y - dy));
                        assert(covers(f2.fwd, c, y + dy));
                        if c + 1 < a {
                            assert(open_at(c0, c + 1, y as int));
                        } else {
                            assert(covers(f2.cur, a as int, y as int));
                        }
                        if c - 1 >= x {
                            assert(open_at(c0, c - 1, y as int));
                        }
                    }
                }
                assert forall|c: int| x <= c < a
                    implies #[trigger] reaches(old_r, seed, c, y as int) by {
                    assert(run_cell_open(old_r, c0, seed, y as int, x as int, a as int, c));
                }
                assert forall|j: int| #[trigger] stack_kept(old_r, c1, seed, f1, f2, j) by {
                    if j == len0 && x < a {
                        let s = model(f2.stack[j]);
                        assert forall|c: int| #[trigger] span_cell_ok(old_r, c1, seed, f2, s,
                            c) by {
                            if x <= c <= a - 1 {
                                assert(open_at(c0, c, y as int));
                                assert(reaches(old_r, seed, c, y as int));
                                if open_at(old_r, c, y - dy) {
                                    lemma_reach_step(old_r, seed, (c, y as int), (c, y - dy));
                                }
                            }
                        }
                    }
                }
                assert forall|c: int| #[trigger] span_cell_ok(old_r, c1, seed, f2, f2.fwd, c) by {
                    if x <= c <= a - 1 {
                        assert(open_at(c0, c, y as int));
                        assert(reaches(old_r, seed, c, y as int));
                        if open_at(old_r, c, y + dy) {
                            lemma_reach_step(old_r, seed, (c, y as int), (c, y + dy));
                        }
                    }
                }
                assert(part_of(f2.cur, f1.cur));
                lemma_advance(old_r, c0, c1, seed, f1, f2, y as int, x as int, a as int);
                assert forall|c: int| x <= c < a implies #[trigger] changed(
                    old_r,
                    c1,
                    c,
                    y as int,
                ) by {
                    assert(open_at(c0, c, y as int));
                    assert(on_raster(old_r, c, y as int));
                }
            }
            while x1 <= b
                invariant
                    self.wf(),
                    self.grid_width() == old(self).grid_width(),
                    self.grid_height() == old(self).grid_height(),
                    old_r == old(self)@,
                    seed == (pos.x as int, pos.y as int),
                    2 * cols(old_r) <= isize::MAX,
                    2 * old_r.len() <= isize::MAX,
                    flooding(
                        old_r,
                        self@,
                        seed,
                        front_of(pending@, x as int, x1 as int, b as int, y as int, dy as int),
                    ),
                    0 <= a <= b < cols(old_r),
                    -1 <= y <= old_r.len(),
                    0 <= x <= x1,
                    a <= x1 <= cols(old_r) + 1,
                    x == x1 || x1 == a,
                    x < x1 ==> 0 <= y < old_r.len(),
                    !open_at(self@, x1 - 1, y as int) || !open_at(self@, x1 as int, y as int),
                    forall|c: int| x <= c < x1 ==> #[trigger] changed(old_r, self@, c, y as int),
                    self.open_count() < count0 || (self.open_count() == count0 && pending@.len()
                        == len0 && x == x1),
                decreases cols(old_r) + 2 - x1,
            {
                let ghost c1 = self@;
                let ghost f1 = front_of(pending@, x as int, x1 as int, b as int, y as int,
                    dy as int);
                let ghost stack1 = pending@;
                let ghost x1_old = x1;
                let hi = self.fill_right(x1, y);
                if hi > x {
                    pending.push(Span { x1: x, x2: hi - 1, y: y + dy, dy });
                }
                let ghost stack_mid = pending@;
                if hi - 1 > b {
                    pending.push(Span { x1: b + 1, x2: hi - 1, y: y - dy, dy: -dy });
                }
                let next = self.skip_closed(hi + 1, b, y);
                proof {
                    let c2 = self@;
                    let f2 = front_of(pending@, next as int, next as int, b as int, y as int,
                        dy as int);
                    assert(span_cell_ok(old_r, c1, seed, f1, f1.cur, x1 as int));
                    assert forall|c: int| #[trigger] run_cell_open(old_r, c1, seed, y as int,
                        x1 as int, hi as int, c) by {
                        if x1 <= c < hi {
                            assert(open_at(c1, c, y as int));
                            assert forall|k: int| x1 <= k < hi implies #[trigger] open_at(
                                old_r,
                                k,
                                y as int,
                            ) by {
                                assert(open_at(c1, k, y as int));
                                assert(on_raster(old_r, k, y as int));
                            }
                            lemma_reach_run(old_r, seed, y as int, x1 as int, x1 as int, hi as int,
                                c);
                        }
                    }
                    assert forall|c: int| x <= c < hi implies #[trigger] reaches(old_r, seed, c,
                        y as int) && !open_at(c2, c, y as int) && on_raster(old_r, c, y as int) by {
                        if c < x1 {
                            assert(changed(old_r, c1, c, y as int));
                            assert(sound_at(old_r, c1, seed, c, y as int));
                        } else {
                            assert(run_cell_open(old_r, c1, seed, y as int, x1 as int, hi as int,
                                c));
                            assert(open_at(c1, c, y as int));
                        }
                    }
                    assert forall|c: int, cy: int| #[trigger] kept(c2, f1, f2, c, cy) by {
                        if covered(f1, c, cy) && open_at(c2, c, cy) {
                            if covers(f1.cur, c, cy) {
                                if c < hi {
                                    assert(open_at(c1, c, y as int));
                                } else if c == hi {
                                } else if c < next {
                                    assert(!open_at(c2, c, y as int));
                                } else {
                                    assert(covers(f2.cur, c, cy));
                                }
                            } else if covers(f1.fwd, c, cy) {
                                assert(covers_at(f2, stack1.len() as int, c, cy));
                            } else {
                                let i = choose|i: int| #[trigger] covers_at(f1, i, c, cy);
                                assert(covers_at(f2, i, c, cy));
                            }
                        }
                    }
                    assert forall|c: int| #[trigger] run_cell_closed(c2, f2, y as int, x1 as int,
                        hi as int, c) by {
                        if x1 <= c < hi {
                            assert(open_at(c1, c, y as int));
                            assert(open_at(c1, x1 as int, y as int));
                            assert(covers_at(f2, stack1.len() as int, c, y + dy));
                            if c + 1 < hi {
                                assert(open_at(c1, c + 1, y as int));
                            }
                            if c - 1 >= x1 {
                                assert(open_at(c1, c - 1, y as int));
                            }
                            if c <= b {
                                assert(span_cell_ok(old_r, c1, seed, f1, f1.cur, c));
                                assert(kept(c2, f1, f2, c, y - dy));
                            } else {
                                assert(covers_at(f2, stack_mid.len() as int, c, y - dy));
                            }
                        }
                    }
                    if hi > x {
                        assert(0 <= y < old_r.len()) by {
                            if x < x1 {
                            } else {
                                assert(open_at(c1, x1 as int, y as int));
                            }
                        }
                    }
                    assert forall|j: int| #[trigger] stack_kept(old_r, c2, seed, f1, f2, j) by {
                        if 0 <= j < stack1.len() {
                            assert(f2.stack[j] == f1.stack[j]);
                        } else if stack1.len() <= j < pending@.len() {
                            let s = model(f2.stack[j]);
                            assert(hi > x);
                            assert(s.y == y + dy || s.y == y - dy);
                            assert(x <= s.x1 && s.x2 == hi - 1);
                            assert(s.y - s.dy == y);
                            assert forall|c: int| #[trigger] span_cell_ok(old_r, c2, seed, f2, s,
                                c) by {
                                if s.x1 <= c <= s.x2 {
                                    assert(x <= c < hi);
                                    assert(reaches(old_r, seed, c, y as int));
                                    assert(!open_at(c2, c, y as int));
                                    if open_at(old_r, c, s.y) {
                                        lemma_reach_step(old_r, seed, (c, y as int), (c, s.y));
                                    }
                                }
                            }
                        }
                    }
                    assert forall|c: int| #[trigger] span_cell_ok(old_r, c2, seed, f2, f2.fwd,
                        c) by {}
                    assert(part_of(f2.cur, f1.cur));
                    lemma_advance(old_r, c1, c2, seed, f1, f2, y as int, x1 as int, hi as int);
                }
                x1 = next;
                x = next;
            }
            proof {
                let c = self@;
                let f1 = front_of(pending@, x as int, x1 as int, b as int, y as int, dy as int);
                let f2 = idle(pending@);
                assert(c =~~= flood_run(c, 0, 0, 0));
                assert forall|cx: int, cy: int| #[trigger] kept(c, f1, f2, cx, cy) by {
                    if covered(f1, cx, cy) {
                        let i = choose|i: int| #[trigger] covers_at(f1, i, cx, cy);
                        assert(covers_at(f2, i, cx, cy));
                    }
                }
                assert forall|cx: int| #[trigger] run_cell_open(old_r, c, seed, 0, 0, 0, cx) by {}
                assert forall|cx: int| #[trigger] run_cell_closed(c, f2, 0, 0, 0, cx) by {}
                assert forall|j: int| #[trigger] stack_kept(old_r, c, seed, f1, f2, j) by {}
                assert forall|cx: int| #[trigger] span_cell_ok(old_r, c, seed, f2, no_span(),
                    cx) by {}
                lemma_advance(old_r, c, c, seed, f1, f2, 0, 0, 0);
            }
        }
        proof {
            let f = idle(pending@);
            assert forall|x: int, y: int| !covered(f, x, y) by {
                if covered(f, x, y) {
                    let i = choose|i: int| #[trigger] covers_at(f, i, x, y);
                }
            }
            lemma_flood_done(old_r, self@, seed, f);
        }
    }
}

/// The front of a flood that has no span in hand.
spec fn idle(stack: Seq<Span>) -> Front {
    Front { stack, cur: no_span(), fwd: no_span() }
}

/// The front of a flood that has a span of row `y` in hand, of which the
/// columns from `x1` to `b` are left, and a run of flooded cells from column
/// `x` to just before `x1`.
spec fn front_of(stack: Seq<Span>, x: int, x1: int, b: int, y: int, dy: int) -> Front {
    Front {
        stack,
        cur: SpanView { x1, x2: b, y, dy },
        fwd: SpanView { x1: x, x2: x1 - 1, y: y + dy, dy },
    }
}

} // verus!
