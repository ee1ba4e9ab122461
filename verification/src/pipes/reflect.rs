//! The grid seen in a mirror that stands at its side: the columns come in
//! reverse order, and east and west change places. The loop of the
//! reflected grid is the reflected loop, and encloses as many cells. With
//! the mirror along the diagonal this yields the same for the grid turned
//! by a quarter.

use vstd::prelude::*;
use crate::pipes::area::{drawn, enclosed, farthest, mark_of};
use crate::pipes::canvas::{block_cell, in_block, open_at};
use crate::pipes::cycle::{lemma_either_way, place};
use crate::pipes::fill::{
    adjacent, is_route, lemma_reach_back, lemma_reach_on, reaches,
};
use crate::pipes::grid::GridView;
use crate::pipes::mirror::{lemma_drawn_block, lemma_transposed, lemma_transposed_area, transposed};
use crate::pipes::pipe::{Pipe, EAST, NORTH, SOUTH, WEST};
use crate::pipes::region::{
    census_rows, lemma_drawn, lemma_rim, lemma_rim_blank, on_loop, on_rim, region_of, row_census,
    stamped, Region,
};
use crate::pipes::walk::{
    at_start, can_step, closes_at, joins, lemma_closes_once, loop_len, pipe_at, start_degree,
    start_exit, start_from, start_pipe, step, trace, Cursor,
};

verus! {

/// The directions of a pipe in the mirror: east and west change places.
pub open spec fn facing(p: Pipe) -> Pipe {
    Pipe((p.0 & 0xF3) | ((p.0 & 4) << 1) | ((p.0 & 8) >> 1))
}

/// The grid in the mirror.
pub open spec fn reflected(g: GridView) -> GridView {
    GridView {
        cells: Seq::new(
            g.height() as nat,
            |y: int| Seq::new(g.width() as nat, |x: int| facing(g.cells[y][g.width() - 1 - x])),
        ),
        start: (g.width() - 1 - g.start.0, g.start.1),
    }
}

/// A cursor in the mirror of a grid of `w` columns.
pub open spec fn reflected_cursor(w: int, c: Cursor) -> Cursor {
    Cursor { x: w - 1 - c.x, y: c.y, from: facing(c.from) }
}

/// What the mirror does to the four directions, and to sets of them.
pub proof fn lemma_facing(p: Pipe, d: Pipe)
    ensures
        facing(Pipe(NORTH)) == Pipe(NORTH),
        facing(Pipe(SOUTH)) == Pipe(SOUTH),
        facing(Pipe(EAST)) == Pipe(WEST),
        facing(Pipe(WEST)) == Pipe(EAST),
        facing(Pipe(0)) == Pipe(0),
        facing(Pipe(15)) == Pipe(15),
        facing(facing(p)) == p,
        facing(p).is_direction() == p.is_direction(),
        facing(p.without(d)) == facing(p).without(facing(d)),
        facing(p).connects(facing(d)) == p.connects(d),
        facing(Pipe(p.0 | d.0)) == Pipe(facing(p).0 | facing(d).0),
        facing(p).leads_on(facing(d)) == p.leads_on(d),
{
    let (v, w) = (p.0, d.0);
    assert(facing(Pipe(1u8)).0 == 1u8 && facing(Pipe(2u8)).0 == 2u8 && facing(Pipe(4u8)).0 == 8u8
        && facing(Pipe(8u8)).0 == 4u8 && facing(Pipe(0u8)).0 == 0u8 && facing(Pipe(15u8)).0
        == 15u8) by (bit_vector);
    let (av, aw) = (facing(p).0, facing(d).0);
    assert(facing(Pipe(av)).0 == v && ((av == 1 || av == 2 || av == 4 || av == 8) == (v == 1 || v
        == 2 || v == 4 || v == 8))) by (bit_vector)
        requires
            av == (v & 0xF3) | ((v & 4) << 1) | ((v & 8) >> 1),
    ;
    assert(facing(Pipe(v & !w)).0 == av & !aw && ((av & aw != 0) == (v & w != 0)) && ((av & aw
        == aw) == (v & w == w)) && facing(Pipe(v | w)).0 == av | aw) by (bit_vector)
        requires
            av == (v & 0xF3) | ((v & 4) << 1) | ((v & 8) >> 1),
            aw == (w & 0xF3) | ((w & 4) << 1) | ((w & 8) >> 1),
    ;
    let rv = p.without(d).0;
    let arest = facing(p.without(d)).0;
    assert((arest == 1 || arest == 2 || arest == 4 || arest == 8) == (rv == 1 || rv == 2 || rv
        == 4 || rv == 8)) by (bit_vector)
        requires
            arest == (rv & 0xF3) | ((rv & 4) << 1) | ((rv & 8) >> 1),
    ;
    assert((aw == 1 || aw == 2 || aw == 4 || aw == 8) == (w == 1 || w == 2 || w == 4 || w == 8))
        by (bit_vector)
        requires
            aw == (w & 0xF3) | ((w & 4) << 1) | ((w & 8) >> 1),
    ;
}

/// What the mirror does to a step in one of the four directions.
pub proof fn lemma_facing_step(d: Pipe)
    requires
        d.is_direction(),
    ensures
        facing(d).is_direction(),
        facing(d).dx() == -d.dx(),
        facing(d).dy() == d.dy(),
        facing(d).reverse() == facing(d.reverse()),
{
    lemma_facing(d, d);
}

/// The reflected grid is a grid of the same size, and holds the reflected
/// pipes.
pub proof fn lemma_reflected(g: GridView)
    requires
        g.valid(),
    ensures
        reflected(g).valid(),
        reflected(g).width() == g.width(),
        reflected(g).height() == g.height(),
        reflected(reflected(g)) == g,
        forall|x: int, y: int| #[trigger] reflected(g).at(g.width() - 1 - x,
            y) == facing(g.at(x, y)),
{
    let t = reflected(g);
    let w = g.width();
    lemma_facing(Pipe(0), Pipe(0));
    assert(g.cells[0].len() == w);
    assert(t.cells[0].len() == w);
    assert forall|x: int, y: int| #[trigger] t.at(w - 1 - x, y) == facing(g.at(x, y)) by {
        if g.contains(x, y) {
            assert(g.cells[y].len() == w);
            assert(t.cells[y][w - 1 - x] == facing(g.cells[y][w - 1 - (w - 1 - x)]));
        }
    }
    assert(t.at(w - 1 - g.start.0, g.start.1) == facing(g.at(g.start.0, g.start.1)));
    assert(g.cells[g.start.1].len() == w);
    let tt = reflected(t);
    assert(tt.cells =~~= g.cells) by {
        assert forall|y: int, x: int| 0 <= y < g.height() && 0 <= x < w implies tt.cells[y][x]
            == g.cells[y][x] by {
            assert(g.cells[y].len() == w);
            assert(t.cells[y][w - 1 - x] == facing(g.cells[y][w - 1 - (w - 1 - x)]));
            lemma_facing(g.cells[y][x], Pipe(0));
        }
        assert forall|y: int| 0 <= y < g.height() implies (#[trigger] tt.cells[y]).len()
            == g.cells[y].len() by {
            assert(g.cells[y].len() == w);
        }
    }
}

/// A neighbour connects to the start cell of the reflected grid if its
/// image connects to the start cell of the grid.
pub proof fn lemma_joins(g: GridView, d: Pipe)
    requires
        g.valid(),
        d.is_direction(),
    ensures
        joins(reflected(g), facing(d)) == joins(g, d),
{
    lemma_reflected(g);
    lemma_facing_step(d);
    let t = reflected(g);
    let (x, y) = (g.start.0 + d.dx(), g.start.1 + d.dy());
    assert(t.at(g.width() - 1 - x, y) == facing(g.at(x, y)));
    lemma_facing(g.at(x, y), d.reverse());
}

/// The start cell of the reflected grid connects to the reflected
/// directions.
pub proof fn lemma_start(g: GridView)
    requires
        g.valid(),
    ensures
        start_degree(reflected(g)) == start_degree(g),
        start_degree(g) == 2 ==> start_pipe(reflected(g)) == facing(start_pipe(g)),
        start_degree(g) == 2 ==> (start_from(reflected(g)) == facing(start_from(g)) && start_exit(
            reflected(g),
        ) == facing(start_exit(g))) || (start_from(reflected(g)) == facing(start_exit(g))
            && start_exit(reflected(g)) == facing(start_from(g))),
{
    lemma_joins(g, Pipe(NORTH));
    lemma_joins(g, Pipe(SOUTH));
    lemma_joins(g, Pipe(EAST));
    lemma_joins(g, Pipe(WEST));
    lemma_facing(Pipe(0), Pipe(0));
    if start_degree(g) == 2 {
        let (e, f) = (start_exit(g), start_from(g));
        lemma_facing(e, f);
        let (x, y) = (facing(e).0, facing(f).0);
        assert(x | y == y | x) by (bit_vector);
    }
}

/// The reflected grid holds the reflected pipes, that of the start cell
/// too.
pub proof fn lemma_pipe_at(g: GridView, x: int, y: int)
    requires
        g.valid(),
        start_degree(g) == 2,
    ensures
        pipe_at(reflected(g), g.width() - 1 - x, y) == facing(pipe_at(g, x, y)),
{
    lemma_reflected(g);
    lemma_start(g);
    assert(reflected(g).at(g.width() - 1 - x, y) == facing(g.at(x, y)));
}

/// A step on the reflected grid is the reflected step.
pub proof fn lemma_reflected_step(g: GridView, c: Cursor)
    requires
        g.valid(),
        start_degree(g) == 2,
    ensures
        can_step(reflected(g), reflected_cursor(g.width(), c)) == can_step(g, c),
        can_step(g, c) ==> step(reflected(g), reflected_cursor(g.width(), c)) == reflected_cursor(
            g.width(),
            step(g, c),
        ),
{
    lemma_pipe_at(g, c.x, c.y);
    let p = pipe_at(g, c.x, c.y);
    lemma_facing(p, c.from);
    if can_step(g, c) {
        lemma_facing_step(p.without(c.from));
    }
}

/// A walk on the reflected grid is the reflected walk.
pub proof fn lemma_reflected_trace(g: GridView, from: Pipe, k: nat)
    requires
        g.valid(),
        start_degree(g) == 2,
        forall|j: nat| j < k ==> can_step(g, #[trigger] trace(g, from, j)),
    ensures
        trace(reflected(g), facing(from), k) == reflected_cursor(g.width(), trace(g, from, k)),
    decreases k,
{
    if k > 0 {
        let j = (k - 1) as nat;
        lemma_reflected_trace(g, from, j);
        assert(can_step(g, trace(g, from, j)));
        lemma_reflected_step(g, trace(g, from, j));
    }
}

/// A walk that comes back on the grid comes back on the reflected grid
/// after as many steps.
pub proof fn lemma_reflected_closes(g: GridView, from: Pipe, n: nat)
    requires
        g.valid(),
        start_degree(g) == 2,
        closes_at(g, from, n),
    ensures
        closes_at(reflected(g), facing(from), n),
{
    let t = reflected(g);
    let f = facing(from);
    let w = g.width();
    assert forall|k: nat| k <= n implies #[trigger] trace(t, f, k) == reflected_cursor(
        w,
        trace(g, from, k),
    ) by {
        lemma_reflected_trace(g, from, k);
    }
    assert forall|k: nat| k < n implies can_step(t, #[trigger] trace(t, f, k)) by {
        assert(trace(t, f, k) == reflected_cursor(w, trace(g, from, k)));
        assert(can_step(g, trace(g, from, k)));
        lemma_reflected_step(g, trace(g, from, k));
    }
    assert forall|k: nat| 0 < k < n implies !#[trigger] at_start(t, f, k) by {
        assert(trace(t, f, k) == reflected_cursor(w, trace(g, from, k)));
        assert(!at_start(g, from, k));
    }
    assert(trace(t, f, n) == reflected_cursor(w, trace(g, from, n)));
    assert(at_start(g, from, n));
}

/// A walk comes back on the reflected grid exactly if its image comes back
/// on the grid.
pub proof fn lemma_closes_alike(g: GridView, from: Pipe, n: nat)
    requires
        g.valid(),
        start_degree(g) == 2,
    ensures
        closes_at(reflected(g), facing(from), n) == closes_at(g, from, n),
{
    let t = reflected(g);
    lemma_reflected(g);
    lemma_start(g);
    lemma_facing(from, from);
    if closes_at(g, from, n) {
        lemma_reflected_closes(g, from, n);
    }
    if closes_at(t, facing(from), n) {
        lemma_reflected_closes(t, facing(from), n);
    }
}

/// The walk of the reflected grid, which may go around the loop the other
/// way, comes back exactly if the walk of the grid does.
pub proof fn lemma_walks_alike(g: GridView, n: nat)
    requires
        g.valid(),
        start_degree(g) == 2,
    ensures
        closes_at(reflected(g), start_from(reflected(g)), n) == closes_at(g, start_from(g), n),
{
    let t = reflected(g);
    let (e, f) = (start_exit(g), start_from(g));
    lemma_start(g);
    if start_from(t) == facing(f) {
        lemma_closes_alike(g, f, n);
    } else {
        lemma_closes_alike(g, e, n);
        if closes_at(g, f, n) {
            lemma_either_way(g, f, e, n);
        }
        if closes_at(g, e, n) {
            lemma_either_way(g, e, f, n);
        }
    }
}

/// The loop of the reflected grid is as long as the loop of the grid, and
/// the reflected grid is rejected exactly if the grid is, with the same
/// error.
pub proof fn lemma_reflected_len(g: GridView)
    requires
        g.valid(),
    ensures
        loop_len(reflected(g)) == loop_len(g),
{
    let t = reflected(g);
    lemma_reflected(g);
    lemma_start(g);
    if start_degree(g) == 2 {
        let cells = g.width() * g.height();
        assert forall|n: nat| closes_at(t, start_from(t), n) == closes_at(g, start_from(g), n) by {
            lemma_walks_alike(g, n);
        }
        if exists|n: nat| n <= cells && closes_at(g, start_from(g), n) {
            let n = choose|n: nat| n <= cells && closes_at(g, start_from(g), n);
            assert(n <= cells && closes_at(t, start_from(t), n));
            let m = choose|m: nat| m <= t.width() * t.height() && closes_at(t, start_from(t), m);
            lemma_closes_once(t, start_from(t), n, m);
        } else {
            assert forall|m: nat| !(m <= t.width() * t.height()
                && closes_at(t, start_from(t), m)) by {
                assert(closes_at(t, start_from(t), m) == closes_at(g, start_from(g), m));
            }
        }
    }
}

/// The walk of the reflected grid passes the images of the cells that the
/// walk of the grid passes.
pub proof fn lemma_on_loop(g: GridView, n: nat, x: int, y: int)
    requires
        g.valid(),
        start_degree(g) == 2,
        closes_at(g, start_from(g), n),
    ensures
        on_loop(reflected(g), n, g.width() - 1 - x, y) == on_loop(g, n, x, y),
{
    let t = reflected(g);
    let w = g.width();
    let (e, f) = (start_exit(g), start_from(g));
    let ft = start_from(t);
    lemma_start(g);
    lemma_either_way(g, f, e, n);
    let a = if ft == facing(f) {
        f
    } else {
        e
    };
    assert(closes_at(g, a, n));
    assert forall|k: nat| k <= n implies #[trigger] place(t, ft, k) == (
        w - 1 - place(g, a, k).0,
        place(g, a, k).1,
    ) by {
        lemma_reflected_trace(g, a, k);
    }
    if on_loop(g, n, x, y) {
        let k = choose|k: nat| k < n && #[trigger] place(g, f, k) == (x, y);
        let j: nat = if a == f || k == 0 {
            k
        } else {
            (n - k) as nat
        };
        assert(place(g, a, j) == (x, y)) by {
            if a != f {
                assert(place(g, e, j) == place(g, f, (n - j) as nat));
                assert(at_start(g, f, n));
            }
        }
        assert(j < n && place(t, ft, j) == (w - 1 - x, y));
    }
    if on_loop(t, n, w - 1 - x, y) {
        let j = choose|j: nat| j < n && #[trigger] place(t, ft, j) == (w - 1 - x, y);
        assert(place(g, a, j) == (x, y));
        let k: nat = if a == f || j == 0 {
            j
        } else {
            (n - j) as nat
        };
        assert(place(g, f, k) == (x, y)) by {
            if a != f {
                assert(place(g, e, j) == place(g, f, (n - j) as nat));
                assert(at_start(g, f, n));
            }
        }
        assert(k < n && place(g, f, k) == (x, y));
    }
}

/// The block of a pipe in the mirror is the reflected block.
pub proof fn lemma_block_facing(sx: int, sy: int, centre: u8, p: Pipe)
    ensures
        block_cell(2 - sx, sy, centre, facing(p)) == block_cell(sx, sy, centre, p),
{
    lemma_facing(p, Pipe(NORTH));
    lemma_facing(p, Pipe(SOUTH));
    lemma_facing(p, Pipe(EAST));
    lemma_facing(p, Pipe(WEST));
}

/// The canvas of the reflected grid is the reflected canvas.
pub proof fn lemma_drawn_facing(g: GridView, n: nat, cx: int, cy: int)
    requires
        g.valid(),
        start_degree(g) == 2,
        closes_at(g, start_from(g), n),
        0 <= cx < 3 * g.width() + 2,
        0 <= cy < 3 * g.height() + 2,
    ensures
        drawn(g, start_from(g), n).len() == 3 * g.height() + 2,
        drawn(g, start_from(g), n)[cy].len() == 3 * g.width() + 2,
        drawn(reflected(g), start_from(reflected(g)), n).len() == 3 * g.height() + 2,
        drawn(reflected(g), start_from(reflected(g)), n)[cy].len() == 3 * g.width() + 2,
        drawn(reflected(g), start_from(reflected(g)), n)[cy][3 * g.width() + 1 - cx] == drawn(
            g,
            start_from(g),
            n,
        )[cy][cx],
{
    let t = reflected(g);
    let w = g.width();
    let mx = 3 * w + 1 - cx;
    let (f, ft) = (start_from(g), start_from(t));
    let (d, dt) = (drawn(g, f, n), drawn(t, ft, n));
    lemma_reflected(g);
    lemma_start(g);
    lemma_walks_alike(g, n);
    lemma_drawn(g, f, n);
    lemma_drawn(t, ft, n);
    assert(d[cy].len() == 3 * w + 2);
    assert(dt[cy].len() == 3 * w + 2);
    if stamped(g, f, n, cx, cy) {
        let j = choose|j: nat|
            j < n && in_block(cx, cy, (#[trigger] place(g, f, j)).0, place(g, f, j).1);
        let (x, y) = place(g, f, j);
        assert(on_loop(g, n, x, y));
        lemma_on_loop(g, n, x, y);
        let i = choose|i: nat| i < n && #[trigger] place(t, ft, i) == (w - 1 - x, y);
        lemma_drawn_block(g, f, n, n, j, cx, cy);
        lemma_drawn_block(t, ft, n, n, i, mx, cy);
        lemma_pipe_at(g, x, y);
        lemma_block_facing(cx - 3 * x - 1, cy - 3 * y - 1, mark_of(j as int), pipe_at(g, x, y));
        assert((j == 0) == (i == 0)) by {
            if j == 0 && i != 0 {
                assert(!at_start(t, ft, i));
            }
            if i == 0 && j != 0 {
                assert(!at_start(g, f, j));
            }
        }
    } else {
        if stamped(t, ft, n, mx, cy) {
            let i = choose|i: nat|
                i < n && in_block(mx, cy, (#[trigger] place(t, ft, i)).0, place(t, ft, i).1);
            let (tx, y) = place(t, ft, i);
            let x = w - 1 - tx;
            assert(on_loop(t, n, w - 1 - x, y));
            lemma_on_loop(g, n, x, y);
            let j = choose|j: nat| j < n && #[trigger] place(g, f, j) == (x, y);
            assert(in_block(cx, cy, place(g, f, j).0, place(g, f, j).1));
        }
    }
}

/// The flood gets to the images of the cells that it gets to on a reflected
/// raster of `w` columns, from the image of its seed.
pub proof fn lemma_reach_facing(
    r: Seq<Seq<u8>>,
    m: Seq<Seq<u8>>,
    w: int,
    seed: (int, int),
    x: int,
    y: int,
)
    requires
        forall|a: int, b: int| #[trigger] open_at(r, a, b) ==> open_at(m, w - 1 - a, b),
        reaches(r, seed, x, y),
    ensures
        reaches(m, (w - 1 - seed.0, seed.1), w - 1 - x, y),
{
    let route = choose|route: Seq<(int, int)>|
        #[trigger] is_route(r, route) && route[0] == seed && route.last() == (x, y);
    let image = Seq::new(route.len(), |i: int| (w - 1 - route[i].0, route[i].1));
    assert forall|i: int| 0 <= i < image.len() implies open_at(
        m,
        (#[trigger] image[i]).0,
        image[i].1,
    ) by {
        assert(open_at(r, route[i].0, route[i].1));
    }
    assert forall|i: int| 0 <= i < image.len() - 1 implies adjacent(
        #[trigger] image[i],
        image[i + 1],
    ) by {
        assert(adjacent(route[i], route[i + 1]));
    }
    assert(is_route(m, image));
    assert(image[0] == (w - 1 - seed.0, seed.1) && image.last() == (w - 1 - x, y));
}

/// The cells of the canvas of the reflected grid that the flood can enter
/// are the images of those of the canvas of the grid.
pub proof fn lemma_open_facing(g: GridView, n: nat, cx: int, cy: int)
    requires
        g.valid(),
        start_degree(g) == 2,
        closes_at(g, start_from(g), n),
    ensures
        open_at(
            drawn(reflected(g), start_from(reflected(g)), n),
            3 * g.width() + 1 - cx,
            cy,
        ) == open_at(drawn(g, start_from(g), n), cx, cy),
{
    let t = reflected(g);
    let (d, dt) = (drawn(g, start_from(g), n), drawn(t, start_from(t), n));
    lemma_reflected(g);
    lemma_drawn(g, start_from(g), n);
    lemma_drawn(t, start_from(t), n);
    if 0 <= cx < 3 * g.width() + 2 && 0 <= cy < 3 * g.height() + 2 {
        lemma_drawn_facing(g, n, cx, cy);
    } else {
        if 0 <= cy < d.len() {
            assert(d[cy].len() == 3 * g.width() + 2);
            assert(dt[cy].len() == 3 * g.width() + 2);
        }
    }
}

/// The flood that enters the canvas at its north-east corner gets to the
/// cells that the flood from the north-west corner gets to.
pub proof fn lemma_either_corner(g: GridView, n: nat, x: int, y: int)
    requires
        g.valid(),
        closes_at(g, start_from(g), n),
    ensures
        reaches(drawn(g, start_from(g), n), (3 * g.width() + 1, 0), x, y) == reaches(
            drawn(g, start_from(g), n),
            (0, 0),
            x,
            y,
        ),
{
    let d = drawn(g, start_from(g), n);
    let (w, h) = (3 * g.width() + 2, 3 * g.height() + 2);
    let west = (0int, 0int);
    let east = (w - 1, 0int);
    lemma_drawn(g, start_from(g), n);
    assert forall|a: int, b: int| on_rim(w, h, a, b) implies #[trigger] open_at(d, a, b) by {
        lemma_rim_blank(g, n, a, b);
    }
    lemma_rim(d, w, h, w - 1, 0);
    lemma_reach_back(d, west, w - 1, 0);
    if reaches(d, east, x, y) {
        lemma_reach_on(d, west, east, x, y);
    }
    if reaches(d, west, x, y) {
        lemma_reach_on(d, east, west, x, y);
    }
}

/// A cell of the reflected grid is to its loop what its image is to the
/// loop of the grid.
pub proof fn lemma_region_facing(g: GridView, n: nat, x: int, y: int)
    requires
        g.valid(),
        start_degree(g) == 2,
        closes_at(g, start_from(g), n),
    ensures
        region_of(reflected(g), n, g.width() - 1 - x, y) == region_of(g, n, x, y),
{
    let t = reflected(g);
    let w = 3 * g.width() + 2;
    let (d, dt) = (drawn(g, start_from(g), n), drawn(t, start_from(t), n));
    let (cx, cy) = (3 * x + 2, 3 * y + 2);
    lemma_reflected(g);
    lemma_start(g);
    lemma_walks_alike(g, n);
    lemma_on_loop(g, n, x, y);
    assert forall|a: int, b: int| #[trigger] open_at(d, a, b) == open_at(dt, w - 1 - a, b) by {
        lemma_open_facing(g, n, a, b);
    }
    assert forall|a: int, b: int| #[trigger] open_at(dt, a, b) == open_at(d, w - 1 - a, b) by {
        lemma_open_facing(g, n, w - 1 - a, b);
    }
    lemma_either_corner(g, n, cx, cy);
    lemma_either_corner(t, n, w - 1 - cx, cy);
    if reaches(d, (0, 0), cx, cy) {
        lemma_reach_facing(d, dt, w, (w - 1, 0), cx, cy);
    }
    if reaches(dt, (0, 0), w - 1 - cx, cy) {
        lemma_reach_facing(dt, d, w, (w - 1, 0), w - 1 - cx, cy);
    }
}

/// The number of cells of the kind `kind` in row `y` from column `lo` up
/// to, not including, column `hi`.
pub open spec fn span_census(g: GridView, n: nat, kind: Region, y: int, lo: int, hi: int) -> int
    decreases hi - lo,
{
    if lo >= hi {
        0
    } else {
        span_census(g, n, kind, y, lo + 1, hi) + if region_of(g, n, lo, y) == kind {
            1int
        } else {
            0
        }
    }
}

/// The cells of a row are those of its beginning and those behind it.
proof fn lemma_span_grows(g: GridView, n: nat, kind: Region, y: int, lo: int, hi: int)
    requires
        lo < hi,
    ensures
        span_census(g, n, kind, y, lo, hi) == span_census(g, n, kind, y, lo, hi - 1) + if region_of(
            g,
            n,
            hi - 1,
            y,
        ) == kind {
            1int
        } else {
            0
        },
    decreases hi - lo,
{
    if lo + 1 < hi {
        lemma_span_grows(g, n, kind, y, lo + 1, hi);
    } else {
        assert(span_census(g, n, kind, y, hi, hi) == 0);
        assert(span_census(g, n, kind, y, lo + 1, hi - 1) == 0);
    }
}

/// The cells of a row counted from its west end.
proof fn lemma_span_is_row(g: GridView, n: nat, kind: Region, y: int, w: int)
    requires
        0 <= w,
    ensures
        span_census(g, n, kind, y, 0, w) == row_census(g, n, kind, y, w),
    decreases w,
{
    if w > 0 {
        lemma_span_is_row(g, n, kind, y, w - 1);
        lemma_span_grows(g, n, kind, y, 0, w);
    }
}

/// The first cells of a row of the reflected grid are the last of the row
/// of the grid.
proof fn lemma_row_facing(g: GridView, n: nat, kind: Region, y: int, k: int)
    requires
        g.valid(),
        start_degree(g) == 2,
        closes_at(g, start_from(g), n),
        0 <= k <= g.width(),
    ensures
        row_census(reflected(g), n, kind, y, k) == span_census(
            g,
            n,
            kind,
            y,
            g.width() - k,
            g.width(),
        ),
    decreases k,
{
    if k > 0 {
        lemma_row_facing(g, n, kind, y, k - 1);
        lemma_region_facing(g, n, g.width() - k, y);
    }
}

/// The first rows of the reflected grid hold what the first rows of the
/// grid hold.
proof fn lemma_rows_facing(g: GridView, n: nat, kind: Region, h: int)
    requires
        g.valid(),
        start_degree(g) == 2,
        closes_at(g, start_from(g), n),
    ensures
        census_rows(reflected(g), n, kind, h) == census_rows(g, n, kind, h),
    decreases h,
{
    lemma_reflected(g);
    if h > 0 {
        lemma_rows_facing(g, n, kind, h - 1);
        lemma_row_facing(g, n, kind, h - 1, g.width());
        lemma_span_is_row(g, n, kind, h - 1, g.width());
    }
}

/// The loop of a grid seen in a mirror at its side encloses as many cells
/// as the loop of the grid, and its farthest point lies as far from the
/// start; and the reflected grid is rejected exactly if the grid is, with
/// the same error.
pub proof fn lemma_reflected_area(g: GridView)
    requires
        g.valid(),
    ensures
        enclosed(reflected(g)) == enclosed(g),
        farthest(reflected(g)) == farthest(g),
{
    lemma_reflected_len(g);
    lemma_reflected(g);
    match loop_len(g) {
        Ok(n) => {
            lemma_rows_facing(g, n, Region::Inside, g.height());
        },
        Err(_) => {},
    }
}

/// The grid turned by a quarter: seen in the mirror at its side, and then
/// in the mirror along the diagonal.
pub open spec fn quarter_turned(g: GridView) -> GridView {
    transposed(reflected(g))
}

/// The loop of a grid turned by a quarter encloses as many cells as the
/// loop of the grid, and its farthest point lies as far from the start.
pub proof fn lemma_turned_area(g: GridView)
    requires
        g.valid(),
    ensures
        quarter_turned(g).valid(),
        quarter_turned(g).width() == g.height(),
        quarter_turned(g).height() == g.width(),
        enclosed(quarter_turned(g)) == enclosed(g),
        farthest(quarter_turned(g)) == farthest(g),
{
    lemma_reflected(g);
    lemma_reflected_area(g);
    lemma_transposed(reflected(g));
    lemma_transposed_area(reflected(g));
}

} // verus!
