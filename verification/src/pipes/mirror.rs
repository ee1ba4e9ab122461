//! The grid seen in a mirror that stands along its diagonal: rows become
//! columns, north becomes west and south becomes east. The loop of the
//! mirrored grid is the mirrored loop, and encloses as many cells.

use vstd::prelude::*;
use crate::pipes::area::{drawn, mark_of};
use crate::pipes::canvas::{block_cell, in_block, open_at};
use crate::pipes::cycle::{lemma_either_way, lemma_simple_cycle, place};
use crate::pipes::fill::{is_route, reaches};
use crate::pipes::grid::GridView;
use crate::pipes::region::{
    census, census_rows, lemma_drawn, on_loop, region_of, row_census, stamped, Region,
};
use crate::pipes::pipe::{Pipe, EAST, NORTH, SOUTH, WEST};
use crate::pipes::walk::{
    at_start, can_step, closes_at, joins, pipe_at, start_degree, start_exit, start_from,
    start_pipe, step, trace, Cursor,
};

verus! {

/// The directions of a pipe in the mirror: north and west change places, and
/// so do south and east.
pub open spec fn across(p: Pipe) -> Pipe {
    Pipe(
        (p.0 & 0xF0) | ((p.0 & 1) << 3) | ((p.0 & 8) >> 3) | ((p.0 & 2) << 1) | ((p.0 & 4) >> 1),
    )
}

/// The grid in the mirror.
pub open spec fn transposed(g: GridView) -> GridView {
    GridView {
        cells: Seq::new(
            g.width() as nat,
            |y: int| Seq::new(g.height() as nat, |x: int| across(g.cells[x][y])),
        ),
        start: (g.start.1, g.start.0),
    }
}

/// A cursor in the mirror.
pub open spec fn flipped(c: Cursor) -> Cursor {
    Cursor { x: c.y, y: c.x, from: across(c.from) }
}

/// What the mirror does to the four directions, and to sets of them.
pub proof fn lemma_across(p: Pipe, d: Pipe)
    ensures
        across(Pipe(NORTH)) == Pipe(WEST),
        across(Pipe(WEST)) == Pipe(NORTH),
        across(Pipe(SOUTH)) == Pipe(EAST),
        across(Pipe(EAST)) == Pipe(SOUTH),
        across(Pipe(0)) == Pipe(0),
        across(Pipe(15)) == Pipe(15),
        across(across(p)) == p,
        across(p).is_direction() == p.is_direction(),
        across(p.without(d)) == across(p).without(across(d)),
        across(p).connects(across(d)) == p.connects(d),
        (across(p).0 & across(d).0 == across(d).0) == (p.0 & d.0 == d.0),
        across(Pipe(p.0 | d.0)) == Pipe(across(p).0 | across(d).0),
        across(p).leads_on(across(d)) == p.leads_on(d),
{
    let (v, w) = (p.0, d.0);
    assert(across(Pipe(1u8)).0 == 8u8 && across(Pipe(8u8)).0 == 1u8 && across(Pipe(2u8)).0 == 4u8
        && across(Pipe(4u8)).0 == 2u8 && across(Pipe(0u8)).0 == 0u8 && across(Pipe(15u8)).0
        == 15u8) by (bit_vector);
    let (av, aw) = (across(p).0, across(d).0);
    assert(across(Pipe(av)).0 == v) by (bit_vector)
        requires
            av == (v & 0xF0) | ((v & 1) << 3) | ((v & 8) >> 3) | ((v & 2) << 1) | ((v & 4) >> 1),
    ;
    assert((av == 1 || av == 2 || av == 4 || av == 8) == (v == 1 || v == 2 || v == 4 || v == 8))
        by (bit_vector)
        requires
            av == (v & 0xF0) | ((v & 1) << 3) | ((v & 8) >> 3) | ((v & 2) << 1) | ((v & 4) >> 1),
    ;
    assert(across(Pipe(v & !w)).0 == av & !aw && ((av & aw != 0) == (v & w != 0)) && ((av & aw
        == aw) == (v & w == w)) && across(Pipe(v | w)).0 == av | aw) by (bit_vector)
        requires
            av == (v & 0xF0) | ((v & 1) << 3) | ((v & 8) >> 3) | ((v & 2) << 1) | ((v & 4) >> 1),
            aw == (w & 0xF0) | ((w & 1) << 3) | ((w & 8) >> 3) | ((w & 2) << 1) | ((w & 4) >> 1),
    ;
    let rest = p.without(d);
    let arest = across(rest).0;
    let rv = rest.0;
    assert((arest == 1 || arest == 2 || arest == 4 || arest == 8) == (rv == 1 || rv == 2 || rv
        == 4 || rv == 8)) by (bit_vector)
        requires
            arest == (rv & 0xF0) | ((rv & 1) << 3) | ((rv & 8) >> 3) | ((rv & 2) << 1) | ((rv & 4)
                >> 1),
    ;
    assert((aw == 1 || aw == 2 || aw == 4 || aw == 8) == (w == 1 || w == 2 || w == 4 || w == 8))
        by (bit_vector)
        requires
            aw == (w & 0xF0) | ((w & 1) << 3) | ((w & 8) >> 3) | ((w & 2) << 1) | ((w & 4) >> 1),
    ;
}

/// What the mirror does to a step in one of the four directions.
pub proof fn lemma_across_step(d: Pipe)
    requires
        d.is_direction(),
    ensures
        across(d).is_direction(),
        across(d).dx() == d.dy(),
        across(d).dy() == d.dx(),
        across(d).reverse() == across(d.reverse()),
{
    lemma_across(d, d);
}

/// The mirrored grid is a grid, as wide as the grid is high, and holds the
/// mirrored pipes.
pub proof fn lemma_transposed(g: GridView)
    requires
        g.valid(),
    ensures
        transposed(g).valid(),
        transposed(g).width() == g.height(),
        transposed(g).height() == g.width(),
        transposed(transposed(g)) == g,
        forall|x: int, y: int| #[trigger] transposed(g).at(y, x) == across(g.at(x, y)),
{
    let t = transposed(g);
    lemma_across(Pipe(0), Pipe(0));
    assert(t.cells[0].len() == g.height());
    assert forall|x: int, y: int| #[trigger] t.at(y, x) == across(g.at(x, y)) by {
        if g.contains(x, y) {
            assert(g.cells[y].len() == g.width());
            assert(t.cells[x][y] == across(g.cells[y][x]));
        }
    }
    assert(t.at(t.start.0, t.start.1) == across(g.at(g.start.0, g.start.1)));
    assert(g.cells[g.start.1].len() == g.width());
    let tt = transposed(t);
    assert(tt.cells =~~= g.cells) by {
        assert forall|y: int, x: int| 0 <= y < g.height() && 0 <= x < g.width()
            implies tt.cells[y][x]
            == g.cells[y][x] by {
            assert(g.cells[y].len() == g.width());
            lemma_across(g.cells[y][x], Pipe(0));
        }
        assert forall|y: int| 0 <= y < g.height() implies (#[trigger] tt.cells[y]).len()
            == g.cells[y].len() by {
            assert(g.cells[y].len() == g.width());
        }
    }
}

/// A neighbour connects to the start cell of the mirrored grid if its image
/// connects to the start cell of the grid.
pub proof fn lemma_joins(g: GridView, d: Pipe)
    requires
        g.valid(),
        d.is_direction(),
    ensures
        joins(transposed(g), across(d)) == joins(g, d),
{
    lemma_transposed(g);
    lemma_across_step(d);
    let t = transposed(g);
    let (x, y) = (g.start.0 + d.dx(), g.start.1 + d.dy());
    assert(t.at(y, x) == across(g.at(x, y)));
    lemma_across(g.at(x, y), d.reverse());
}

/// The start cell of the mirrored grid connects to the mirrored
/// directions.
pub proof fn lemma_start(g: GridView)
    requires
        g.valid(),
    ensures
        start_degree(transposed(g)) == start_degree(g),
        start_degree(g) == 2 ==> start_pipe(transposed(g)) == across(start_pipe(g)),
        start_degree(g) == 2 ==> (start_from(transposed(g)) == across(start_from(g)) && start_exit(
            transposed(g),
        ) == across(start_exit(g))) || (start_from(transposed(g)) == across(start_exit(g))
            && start_exit(transposed(g)) == across(start_from(g))),
{
    lemma_joins(g, Pipe(NORTH));
    lemma_joins(g, Pipe(SOUTH));
    lemma_joins(g, Pipe(EAST));
    lemma_joins(g, Pipe(WEST));
    lemma_across(Pipe(0), Pipe(0));
    if start_degree(g) == 2 {
        let (e, f) = (start_exit(g), start_from(g));
        lemma_across(e, f);
        let (x, y) = (across(e).0, across(f).0);
        assert(x | y == y | x) by (bit_vector);
    }
}

/// The mirrored grid holds the mirrored pipes, that of the start cell too.
pub proof fn lemma_pipe_at(g: GridView, x: int, y: int)
    requires
        g.valid(),
        start_degree(g) == 2,
    ensures
        pipe_at(transposed(g), y, x) == across(pipe_at(g, x, y)),
{
    lemma_transposed(g);
    lemma_start(g);
    assert(transposed(g).at(y, x) == across(g.at(x, y)));
}

/// A step on the mirrored grid is the mirrored step.
pub proof fn lemma_flipped_step(g: GridView, c: Cursor)
    requires
        g.valid(),
        start_degree(g) == 2,
    ensures
        can_step(transposed(g), flipped(c)) == can_step(g, c),
        can_step(g, c) ==> step(transposed(g), flipped(c)) == flipped(step(g, c)),
{
    lemma_pipe_at(g, c.x, c.y);
    let p = pipe_at(g, c.x, c.y);
    lemma_across(p, c.from);
    if can_step(g, c) {
        lemma_across_step(p.without(c.from));
    }
}

/// A walk on the mirrored grid is the mirrored walk.
pub proof fn lemma_flipped_trace(g: GridView, from: Pipe, k: nat)
    requires
        g.valid(),
        start_degree(g) == 2,
        forall|j: nat| j < k ==> can_step(g, #[trigger] trace(g, from, j)),
    ensures
        trace(transposed(g), across(from), k) == flipped(trace(g, from, k)),
    decreases k,
{
    if k > 0 {
        let j = (k - 1) as nat;
        lemma_flipped_trace(g, from, j);
        assert(can_step(g, trace(g, from, j)));
        lemma_flipped_step(g, trace(g, from, j));
    }
}

/// A walk that comes back on the grid comes back on the mirrored grid after
/// as many steps.
pub proof fn lemma_flipped_closes(g: GridView, from: Pipe, n: nat)
    requires
        g.valid(),
        start_degree(g) == 2,
        closes_at(g, from, n),
    ensures
        closes_at(transposed(g), across(from), n),
{
    let t = transposed(g);
    let f = across(from);
    assert forall|k: nat| k <= n
        implies #[trigger] trace(t, f, k) == flipped(trace(g, from, k)) by {
        lemma_flipped_trace(g, from, k);
    }
    assert forall|k: nat| k < n implies can_step(t, #[trigger] trace(t, f, k)) by {
        assert(trace(t, f, k) == flipped(trace(g, from, k)));
        assert(can_step(g, trace(g, from, k)));
        lemma_flipped_step(g, trace(g, from, k));
    }
    assert forall|k: nat| 0 < k < n implies !#[trigger] at_start(t, f, k) by {
        assert(trace(t, f, k) == flipped(trace(g, from, k)));
        assert(!at_start(g, from, k));
    }
    assert(trace(t, f, n) == flipped(trace(g, from, n)));
    assert(at_start(g, from, n));
}

/// A walk comes back on the mirrored grid exactly if its image comes back
/// on the grid.
pub proof fn lemma_closes_alike(g: GridView, from: Pipe, n: nat)
    requires
        g.valid(),
        start_degree(g) == 2,
    ensures
        closes_at(transposed(g), across(from), n) == closes_at(g, from, n),
{
    let t = transposed(g);
    lemma_transposed(g);
    lemma_start(g);
    lemma_across(from, from);
    if closes_at(g, from, n) {
        lemma_flipped_closes(g, from, n);
    }
    if closes_at(t, across(from), n) {
        lemma_flipped_closes(t, across(from), n);
    }
}

/// The walk of the mirrored grid, which may go around the loop the other
/// way, comes back exactly if the walk of the grid does.
pub proof fn lemma_walks_alike(g: GridView, n: nat)
    requires
        g.valid(),
        start_degree(g) == 2,
    ensures
        closes_at(transposed(g), start_from(transposed(g)), n) == closes_at(g, start_from(g), n),
{
    let t = transposed(g);
    let (e, f) = (start_exit(g), start_from(g));
    lemma_start(g);
    if start_from(t) == across(f) {
        lemma_closes_alike(g, f, n);
    } else {
        lemma_closes_alike(g, e, n);
        if closes_at(g, f, n) {
            crate::pipes::cycle::lemma_either_way(g, f, e, n);
        }
        if closes_at(g, e, n) {
            crate::pipes::cycle::lemma_either_way(g, e, f, n);
        }
    }
}

/// The loop of the mirrored grid is as long as the loop of the grid, and
/// the mirrored grid is rejected exactly if the grid is, with the same
/// error.
pub proof fn lemma_transposed_len(g: GridView)
    requires
        g.valid(),
    ensures
        crate::pipes::walk::loop_len(transposed(g)) == crate::pipes::walk::loop_len(g),
{
    let t = transposed(g);
    lemma_transposed(g);
    lemma_start(g);
    if start_degree(g) == 2 {
        let cells = g.width() * g.height();
        assert(t.width() * t.height() == cells) by (nonlinear_arith)
            requires
                t.width() == g.height(),
                t.height() == g.width(),
                cells == g.width() * g.height(),
        ;
        assert forall|n: nat| closes_at(t, start_from(t), n) == closes_at(g, start_from(g), n) by {
            lemma_walks_alike(g, n);
        }
        if exists|n: nat| n <= cells && closes_at(g, start_from(g), n) {
            let n = choose|n: nat| n <= cells && closes_at(g, start_from(g), n);
            assert(n <= cells && closes_at(t, start_from(t), n));
            let m = choose|m: nat| m <= t.width() * t.height() && closes_at(t, start_from(t), m);
            crate::pipes::walk::lemma_closes_once(t, start_from(t), n, m);
        } else {
            assert forall|m: nat| !(m <= t.width() * t.height()
                && closes_at(t, start_from(t), m)) by {
                assert(closes_at(t, start_from(t), m) == closes_at(g, start_from(g), m));
            }
        }
    }
}

/// The walk of the mirrored grid passes the images of the cells that the
/// walk of the grid passes.
pub proof fn lemma_on_loop(g: GridView, n: nat, x: int, y: int)
    requires
        g.valid(),
        start_degree(g) == 2,
        closes_at(g, start_from(g), n),
    ensures
        on_loop(transposed(g), n, y, x) == on_loop(g, n, x, y),
{
    let t = transposed(g);
    let (e, f) = (start_exit(g), start_from(g));
    let ft = start_from(t);
    lemma_start(g);
    lemma_either_way(g, f, e, n);
    let a = if ft == across(f) {
        f
    } else {
        e
    };
    assert(closes_at(g, a, n));
    assert forall|k: nat| k <= n implies #[trigger] place(t, ft, k) == (
        place(g, a, k).1,
        place(g, a, k).0,
    ) by {
        lemma_flipped_trace(g, a, k);
    }
    if on_loop(g, n, x, y) {
        let k = choose|k: nat| k < n && #[trigger] place(g, f, k) == (x, y);
        let j: nat = if a == f || k == 0 {
            k
        } else {
            (n - k) as nat
        };
        assert(place(g, a, j) == (x, y)) by {
            if a != f {
                assert(place(g, e, j) == place(g, f, (n - j) as nat));
                assert(at_start(g, f, n));
            }
        }
        assert(j < n && place(t, ft, j) == (y, x));
    }
    if on_loop(t, n, y, x) {
        let j = choose|j: nat| j < n && #[trigger] place(t, ft, j) == (y, x);
        assert(place(g, a, j) == (x, y));
        let k: nat = if a == f || j == 0 {
            j
        } else {
            (n - j) as nat
        };
        assert(place(g, f, k) == (x, y)) by {
            if a != f {
                assert(place(g, e, j) == place(g, f, (n - j) as nat));
                assert(at_start(g, f, n));
            }
        }
        assert(k < n && place(g, f, k) == (x, y));
    }
}

/// A cell of the canvas in the block of a cell of the loop shows the block
/// of that cell.
pub proof fn lemma_drawn_block(g: GridView, from: Pipe, n: nat, k: nat, j: nat, cx: int, cy: int)
    requires
        closes_at(g, from, n),
        j < k <= n,
        0 <= cy < drawn(g, from, k).len(),
        0 <= cx < drawn(g, from, k)[cy].len(),
        in_block(cx, cy, place(g, from, j).0, place(g, from, j).1),
    ensures
        drawn(g, from, k)[cy][cx] == block_cell(
            cx - 3 * place(g, from, j).0 - 1,
            cy - 3 * place(g, from, j).1 - 1,
            mark_of(j as int),
            pipe_at(g, place(g, from, j).0, place(g, from, j).1),
        ),
    decreases k,
{
    lemma_simple_cycle(g, from, n);
    let last = (k - 1) as nat;
    let c = trace(g, from, last);
    let before = drawn(g, from, last);
    if in_block(cx, cy, c.x, c.y) {
        if j < last {
            assert(place(g, from, j) != place(g, from, last));
        }
    } else {
        assert(j < last);
        lemma_drawn_block(g, from, n, last, j, cx, cy);
    }
}

/// The block of a pipe in the mirror is the mirrored block.
pub proof fn lemma_block_across(sx: int, sy: int, centre: u8, p: Pipe)
    ensures
        block_cell(sy, sx, centre, across(p)) == block_cell(sx, sy, centre, p),
{
    lemma_across(p, Pipe(NORTH));
    lemma_across(p, Pipe(SOUTH));
    lemma_across(p, Pipe(EAST));
    lemma_across(p, Pipe(WEST));
}

/// The canvas of the mirrored grid is the mirrored canvas.
pub proof fn lemma_drawn_across(g: GridView, n: nat, cx: int, cy: int)
    requires
        g.valid(),
        start_degree(g) == 2,
        closes_at(g, start_from(g), n),
        0 <= cx < 3 * g.width() + 2,
        0 <= cy < 3 * g.height() + 2,
    ensures
        drawn(g, start_from(g), n).len() == 3 * g.height() + 2,
        drawn(g, start_from(g), n)[cy].len() == 3 * g.width() + 2,
        drawn(transposed(g), start_from(transposed(g)), n).len() == 3 * g.width() + 2,
        drawn(transposed(g), start_from(transposed(g)), n)[cx].len() == 3 * g.height() + 2,
        drawn(transposed(g), start_from(transposed(g)), n)[cx][cy] == drawn(
            g,
            start_from(g),
            n,
        )[cy][cx],
{
    let t = transposed(g);
    let (f, ft) = (start_from(g), start_from(t));
    let (d, dt) = (drawn(g, f, n), drawn(t, ft, n));
    lemma_transposed(g);
    lemma_start(g);
    lemma_walks_alike(g, n);
    lemma_drawn(g, f, n);
    lemma_drawn(t, ft, n);
    assert(d[cy].len() == 3 * g.width() + 2);
    assert(dt[cx].len() == 3 * g.height() + 2);
    if stamped(g, f, n, cx, cy) {
        let j = choose|j: nat|
            j < n && in_block(cx, cy, (#[trigger] place(g, f, j)).0, place(g, f, j).1);
        let (x, y) = place(g, f, j);
        assert(on_loop(g, n, x, y));
        lemma_on_loop(g, n, x, y);
        let i = choose|i: nat| i < n && #[trigger] place(t, ft, i) == (y, x);
        lemma_drawn_block(g, f, n, n, j, cx, cy);
        lemma_drawn_block(t, ft, n, n, i, cy, cx);
        lemma_pipe_at(g, x, y);
        lemma_block_across(cx - 3 * x - 1, cy - 3 * y - 1, mark_of(j as int), pipe_at(g, x, y));
        assert((j == 0) == (i == 0)) by {
            if j == 0 && i != 0 {
                assert(!at_start(t, ft, i));
            }
            if i == 0 && j != 0 {
                assert(!at_start(g, f, j));
            }
        }
    } else {
        if stamped(t, ft, n, cy, cx) {
            let i = choose|i: nat|
                i < n && in_block(cy, cx, (#[trigger] place(t, ft, i)).0, place(t, ft, i).1);
            let (y, x) = place(t, ft, i);
            assert(on_loop(t, n, y, x));
            lemma_on_loop(g, n, x, y);
            let j = choose|j: nat| j < n && #[trigger] place(g, f, j) == (x, y);
            assert(in_block(cx, cy, place(g, f, j).0, place(g, f, j).1));
        }
    }
}

/// The flood gets to the images of the cells that it gets to on a mirrored
/// raster.
pub proof fn lemma_reach_across(r: Seq<Seq<u8>>, m: Seq<Seq<u8>>, x: int, y: int)
    requires
        forall|a: int, b: int| #[trigger] open_at(r, a, b) ==> open_at(m, b, a),
        reaches(r, (0, 0), x, y),
    ensures
        reaches(m, (0, 0), y, x),
{
    let route = choose|route: Seq<(int, int)>|
        #[trigger] is_route(r, route) && route[0] == (0int, 0int) && route.last() == (x, y);
    let image = Seq::new(route.len(), |i: int| (route[i].1, route[i].0));
    assert forall|i: int| 0 <= i < image.len() implies open_at(
        m,
        (#[trigger] image[i]).0,
        image[i].1,
    ) by {
        assert(open_at(r, route[i].0, route[i].1));
    }
    assert forall|i: int| 0 <= i < image.len() - 1 implies crate::pipes::fill::adjacent(
        #[trigger] image[i],
        image[i + 1],
    ) by {
        assert(crate::pipes::fill::adjacent(route[i], route[i + 1]));
    }
    assert(is_route(m, image));
    assert(image[0] == (0int, 0int) && image.last() == (y, x));
}

/// The cells of the canvas of the mirrored grid that the flood can enter
/// are the images of those of the canvas of the grid.
pub proof fn lemma_open_across(g: GridView, n: nat, cx: int, cy: int)
    requires
        g.valid(),
        start_degree(g) == 2,
        closes_at(g, start_from(g), n),
    ensures
        open_at(drawn(transposed(g), start_from(transposed(g)), n), cy, cx) == open_at(
            drawn(g, start_from(g), n),
            cx,
            cy,
        ),
{
    let t = transposed(g);
    let (d, dt) = (drawn(g, start_from(g), n), drawn(t, start_from(t), n));
    lemma_transposed(g);
    lemma_drawn(g, start_from(g), n);
    lemma_drawn(t, start_from(t), n);
    if 0 <= cx < 3 * g.width() + 2 && 0 <= cy < 3 * g.height() + 2 {
        lemma_drawn_across(g, n, cx, cy);
    } else {
        if 0 <= cy < d.len() {
            assert(d[cy].len() == 3 * g.width() + 2);
        }
        if 0 <= cx < dt.len() {
            assert(dt[cx].len() == 3 * g.height() + 2);
        }
    }
}

/// A cell of the mirrored grid is to its loop what its image is to the loop
/// of the grid.
pub proof fn lemma_region_across(g: GridView, n: nat, x: int, y: int)
    requires
        g.valid(),
        start_degree(g) == 2,
        closes_at(g, start_from(g), n),
    ensures
        region_of(transposed(g), n, y, x) == region_of(g, n, x, y),
{
    let t = transposed(g);
    let (d, dt) = (drawn(g, start_from(g), n), drawn(t, start_from(t), n));
    lemma_on_loop(g, n, x, y);
    assert forall|a: int, b: int| #[trigger] open_at(d, a, b) == open_at(dt, b, a) by {
        lemma_open_across(g, n, a, b);
    }
    if reaches(d, (0, 0), 3 * x + 2, 3 * y + 2) {
        lemma_reach_across(d, dt, 3 * x + 2, 3 * y + 2);
    }
    if reaches(dt, (0, 0), 3 * y + 2, 3 * x + 2) {
        lemma_reach_across(dt, d, 3 * y + 2, 3 * x + 2);
    }
}

/// The number of cells of the kind `kind` among the first `h` of column
/// `x`.
pub open spec fn column_census(g: GridView, n: nat, kind: Region, x: int, h: int) -> int
    decreases h,
{
    if h <= 0 {
        0
    } else {
        column_census(g, n, kind, x, h - 1) + if region_of(g, n, x, h - 1) == kind {
            1int
        } else {
            0
        }
    }
}

/// The number of cells of the kind `kind` in the first `h` rows of the
/// first `w` columns, counted column by column.
pub open spec fn census_columns(g: GridView, n: nat, kind: Region, w: int, h: int) -> int
    decreases w,
{
    if w <= 0 {
        0
    } else {
        census_columns(g, n, kind, w - 1, h) + column_census(g, n, kind, w - 1, h)
    }
}

/// One row more adds the cells of that row to the count by columns.
proof fn lemma_columns_grow(g: GridView, n: nat, kind: Region, w: int, h: int)
    requires
        0 <= w,
        0 < h,
    ensures
        census_columns(g, n, kind, w, h) == census_columns(g, n, kind, w, h - 1) + row_census(
            g,
            n,
            kind,
            h - 1,
            w,
        ),
    decreases w,
{
    if w > 0 {
        lemma_columns_grow(g, n, kind, w - 1, h);
    }
}

proof fn lemma_columns_none(g: GridView, n: nat, kind: Region, w: int)
    ensures
        census_columns(g, n, kind, w, 0) == 0,
    decreases w,
{
    if w > 0 {
        lemma_columns_none(g, n, kind, w - 1);
    }
}

/// The cells counted column by column are as many as counted row by row.
proof fn lemma_count_either_way(g: GridView, n: nat, kind: Region, h: int)
    requires
        0 <= h,
        0 <= g.width(),
    ensures
        census_columns(g, n, kind, g.width(), h) == census_rows(g, n, kind, h),
    decreases h,
{
    if h > 0 {
        lemma_count_either_way(g, n, kind, h - 1);
        lemma_columns_grow(g, n, kind, g.width(), h);
    } else {
        lemma_columns_none(g, n, kind, g.width());
    }
}

/// A row of the mirrored grid holds what a column of the grid holds.
proof fn lemma_row_across(g: GridView, n: nat, kind: Region, x: int, h: int)
    requires
        g.valid(),
        start_degree(g) == 2,
        closes_at(g, start_from(g), n),
    ensures
        row_census(transposed(g), n, kind, x, h) == column_census(g, n, kind, x, h),
    decreases h,
{
    if h > 0 {
        lemma_row_across(g, n, kind, x, h - 1);
        lemma_region_across(g, n, x, h - 1);
    }
}

/// The first rows of the mirrored grid hold what the first columns of the
/// grid hold.
proof fn lemma_rows_across(g: GridView, n: nat, kind: Region, w: int)
    requires
        g.valid(),
        start_degree(g) == 2,
        closes_at(g, start_from(g), n),
    ensures
        census_rows(transposed(g), n, kind, w) == census_columns(g, n, kind, w, g.height()),
    decreases w,
{
    lemma_transposed(g);
    if w > 0 {
        lemma_rows_across(g, n, kind, w - 1);
        lemma_row_across(g, n, kind, w - 1, g.height());
    }
}

/// The mirrored grid has as many cells of each kind as the grid.
pub proof fn lemma_census_across(g: GridView, n: nat, kind: Region)
    requires
        g.valid(),
        start_degree(g) == 2,
        closes_at(g, start_from(g), n),
    ensures
        census(transposed(g), n, kind) == census(g, n, kind),
{
    lemma_transposed(g);
    lemma_rows_across(g, n, kind, g.width());
    lemma_count_either_way(g, n, kind, g.height());
}

/// The loop of a grid seen in a mirror along its diagonal encloses as many
/// cells as the loop of the grid; and the mirrored grid is rejected exactly
/// if the grid is, with the same error.
pub proof fn lemma_transposed_area(g: GridView)
    requires
        g.valid(),
    ensures
        crate::pipes::area::enclosed(transposed(g)) == crate::pipes::area::enclosed(g),
        crate::pipes::area::farthest(transposed(g)) == crate::pipes::area::farthest(g),
{
    lemma_transposed_len(g);
    match crate::pipes::walk::loop_len(g) {
        Ok(n) => {
            lemma_census_across(g, n, Region::Inside);
        },
        Err(_) => {},
    }
}

} // verus!
