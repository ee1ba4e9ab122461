//! What holds of every walk that comes back to the start cell: it visits no
//! cell twice, takes at least four steps, and is as long in either direction.

use vstd::prelude::*;
use crate::pipes::grid::GridView;
use crate::pipes::pipe::Pipe;
use crate::pipes::walk::{
    at_start, can_step, closes_at, joins, pipe_at, start_degree, start_exit, start_from,
    start_pipe, step, trace, Cursor,
};

verus! {

/// The walk at `c`, turned around: in the same cell, as if entered from the
/// direction in which the walk leaves it.
pub open spec fn turned(g: GridView, c: Cursor) -> Cursor {
    Cursor { x: c.x, y: c.y, from: pipe_at(g, c.x, c.y).without(c.from) }
}

/// Where a walk that stands at `c` stood one step earlier.
pub open spec fn back(g: GridView, c: Cursor) -> Cursor {
    let x = c.x + c.from.dx();
    let y = c.y + c.from.dy();
    Cursor { x, y, from: pipe_at(g, x, y).without(c.from.reverse()) }
}

/// A pipe that can be passed from one of its directions can be passed from
/// the other, and holds no third.
pub proof fn lemma_two_ways(p: Pipe, from: Pipe)
    requires
        p.leads_on(from),
    ensures
        p.without(from).is_direction(),
        p.without(from) != from,
        p.connects(p.without(from)),
        p.leads_on(p.without(from)),
        p.without(p.without(from)) == from,
{
    let (v, f) = (p.0, from.0);
    assert((v & !f) != f && v & (v & !f) == (v & !f) && v & !(v & !f) == f && (v & (v & !f) != 0))
        by (bit_vector)
        requires
            f == 1 || f == 2 || f == 4 || f == 8,
            v & f == f,
            (v & !f) == 1 || (v & !f) == 2 || (v & !f) == 4 || (v & !f) == 8,
    ;
}

/// One step back from where a step led is where the step began.
pub proof fn lemma_back_step(g: GridView, c: Cursor)
    requires
        can_step(g, c),
    ensures
        back(g, step(g, c)) == c,
{
    lemma_two_ways(pipe_at(g, c.x, c.y), c.from);
}

/// The walk turned around goes the steps of the walk the other way.
pub proof fn lemma_turned_step(g: GridView, c: Cursor)
    requires
        can_step(g, c),
        can_step(g, step(g, c)),
    ensures
        can_step(g, turned(g, step(g, c))),
        step(g, turned(g, step(g, c))) == turned(g, c),
        can_step(g, turned(g, c)),
{
    let n = step(g, c);
    lemma_two_ways(pipe_at(g, c.x, c.y), c.from);
    lemma_two_ways(pipe_at(g, n.x, n.y), n.from);
}

/// A step leads to another cell.
pub proof fn lemma_step_moves(g: GridView, c: Cursor)
    requires
        can_step(g, c),
    ensures
        step(g, c).x != c.x || step(g, c).y != c.y,
        can_step(g, step(g, c)) ==> step(g, c) != turned(g, c),
{
    lemma_two_ways(pipe_at(g, c.x, c.y), c.from);
}

/// A walk that stands at the same place after `i` and after `j` steps stood
/// at the start after `j - i` steps.
proof fn lemma_same_state(g: GridView, from: Pipe, n: nat, i: nat, j: nat)
    requires
        forall|k: nat| k < n ==> can_step(g, #[trigger] trace(g, from, k)),
        i <= j <= n,
        trace(g, from, i) == trace(g, from, j),
    ensures
        trace(g, from, 0) == trace(g, from, (j - i) as nat),
    decreases i,
{
    if i > 0 {
        let a = trace(g, from, (i - 1) as nat);
        let b = trace(g, from, (j - 1) as nat);
        assert(can_step(g, a));
        assert(can_step(g, b));
        lemma_back_step(g, a);
        lemma_back_step(g, b);
        lemma_same_state(g, from, n, (i - 1) as nat, (j - 1) as nat);
    }
}

/// No walk meets itself turned around.
proof fn lemma_never_turned(g: GridView, from: Pipe, n: nat, i: nat, j: nat)
    requires
        forall|k: nat| k < n ==> can_step(g, #[trigger] trace(g, from, k)),
        i <= j <= n,
        i < n,
        j == n ==> can_step(g, trace(g, from, n)),
    ensures
        trace(g, from, j) != turned(g, trace(g, from, i)),
    decreases j - i,
{
    let ci = trace(g, from, i);
    let cj = trace(g, from, j);
    assert(can_step(g, ci));
    lemma_two_ways(pipe_at(g, ci.x, ci.y), ci.from);
    if j == i || cj != turned(g, ci) {
    } else {
        let next = trace(g, from, i + 1);
        assert(next == step(g, ci));
        lemma_step_moves(g, ci);
        if j == i + 1 {
        } else {
            let before = trace(g, from, (j - 1) as nat);
            assert(can_step(g, before));
            assert(can_step(g, next));
            lemma_back_step(g, before);
            lemma_turned_step(g, ci);
            lemma_back_step(g, turned(g, next));
            lemma_never_turned(g, from, n, i + 1, (j - 1) as nat);
        }
    }
}

/// The column and row of the walk after `k` steps.
pub open spec fn place(g: GridView, from: Pipe, k: nat) -> (int, int) {
    (trace(g, from, k).x, trace(g, from, k).y)
}

/// Whether the walk of `n` steps visits no cell twice.
pub open spec fn simple(g: GridView, from: Pipe, n: nat) -> bool {
    forall|i: nat, j: nat| i < j < n ==>
        #[trigger] place(g, from, i) != #[trigger] place(g, from, j)
}

/// A walk that comes back to the start cell is a simple cycle: it visits no
/// cell twice before it is back, and takes at least four steps.
pub proof fn lemma_simple_cycle(g: GridView, from: Pipe, n: nat)
    requires
        closes_at(g, from, n),
    ensures
        simple(g, from, n),
        n >= 4,
{
    assert forall|i: nat, j: nat| i < j < n
        implies #[trigger] place(g, from, i) != #[trigger] place(
        g,
        from,
        j,
    ) by {
        let ci = trace(g, from, i);
        let cj = trace(g, from, j);
        if ci.x == cj.x && ci.y == cj.y {
            assert(can_step(g, ci));
            assert(can_step(g, cj));
            let p = pipe_at(g, ci.x, ci.y);
            if ci.from == cj.from {
                lemma_same_state(g, from, n, i, j);
                assert(at_start(g, from, (j - i) as nat));
                assert(!at_start(g, from, (j - i) as nat));
            } else {
                lemma_two_ways(p, ci.from);
                lemma_two_ways(p, cj.from);
                lemma_only_two(p, ci.from, cj.from);
                assert(cj == turned(g, ci));
                lemma_never_turned(g, from, n, i, j);
            }
        }
    }
    let c0 = trace(g, from, 0);
    let c1 = trace(g, from, 1);
    assert(can_step(g, c0));
    assert(c1 == step(g, c0));
    lemma_two_ways(pipe_at(g, c0.x, c0.y), c0.from);
    assert(!at_start(g, from, 1));
    assert(n >= 2);
    let c2 = trace(g, from, 2);
    assert(can_step(g, c1));
    assert(c2 == step(g, c1));
    lemma_two_ways(pipe_at(g, c1.x, c1.y), c1.from);
    assert(!at_start(g, from, 2));
    assert(n >= 3);
    let c3 = trace(g, from, 3);
    assert(can_step(g, c2));
    assert(c3 == step(g, c2));
    lemma_two_ways(pipe_at(g, c2.x, c2.y), c2.from);
    assert(!at_start(g, from, 3));
}

/// A pipe that can be passed holds two directions only.
pub proof fn lemma_only_two(p: Pipe, from: Pipe, other: Pipe)
    requires
        p.leads_on(from),
        p.leads_on(other),
        other != from,
    ensures
        other == p.without(from),
{
    let (v, f, o) = (p.0, from.0, other.0);
    assert(o == (v & !f)) by (bit_vector)
        requires
            f == 1 || f == 2 || f == 4 || f == 8,
            o == 1 || o == 2 || o == 4 || o == 8,
            o != f,
            v & f == f,
            v & o == o,
            (v & !f) == 1 || (v & !f) == 2 || (v & !f) == 4 || (v & !f) == 8,
    ;
}

/// Whether `a` and `b` are the two directions in which the start cell
/// connects, in either order.
pub open spec fn start_pair(g: GridView, a: Pipe, b: Pipe) -> bool {
    (a == start_from(g) && b == start_exit(g)) || (a == start_exit(g) && b == start_from(g))
}

/// The pipe of a start cell with two neighbours can be passed from either
/// of them to the other.
pub proof fn lemma_start_pipe(g: GridView, a: Pipe, b: Pipe)
    requires
        start_degree(g) == 2,
        start_pair(g, a, b),
    ensures
        a.is_direction(),
        b.is_direction(),
        a != b,
        start_pipe(g).leads_on(a),
        start_pipe(g).without(a) == b,
{
    let f = start_from(g);
    let e = start_exit(g);
    crate::pipes::walk::lemma_two_directions(e.0, f.0);
    crate::pipes::walk::lemma_two_directions(f.0, e.0);
    let (x, y) = (e.0, f.0);
    assert(x | y == y | x) by (bit_vector);
}

/// The walk in the other direction stands, after `k` steps, where the walk
/// stands when `k` steps are left, turned around.
proof fn lemma_other_way_trace(g: GridView, a: Pipe, b: Pipe, n: nat, k: nat)
    requires
        forall|i: nat| i < n ==> can_step(g, #[trigger] trace(g, a, i)),
        trace(g, a, n) == trace(g, a, 0),
        start_pipe(g).without(a) == b,
        n >= 1,
        k <= n,
    ensures
        trace(g, b, k) == turned(g, trace(g, a, (n - k) as nat)),
        can_step(g, trace(g, b, k)),
    decreases k,
{
    let fwd = trace(g, a, (n - k) as nat);
    if k == 0 {
        let c0 = trace(g, a, 0);
        assert(can_step(g, c0));
        lemma_two_ways(pipe_at(g, c0.x, c0.y), c0.from);
    } else {
        lemma_other_way_trace(g, a, b, n, (k - 1) as nat);
        let later = trace(g, a, (n - k + 1) as nat);
        assert(can_step(g, fwd));
        assert(later == step(g, fwd));
        assert(can_step(g, later)) by {
            if k == 1 {
                assert(can_step(g, trace(g, a, 0)));
            }
        }
        lemma_turned_step(g, fwd);
        assert(trace(g, b, k) == step(g, trace(g, b, (k - 1) as nat)));
    }
}

/// A walk that comes back to the start cell enters it from the direction
/// that it began with: after its last step it stands as it stood at first.
pub proof fn lemma_comes_back(g: GridView, a: Pipe, b: Pipe, n: nat)
    requires
        start_degree(g) == 2,
        start_pair(g, a, b),
        closes_at(g, a, n),
    ensures
        trace(g, a, n) == trace(g, a, 0),
{
    lemma_simple_cycle(g, a, n);
    lemma_start_pipe(g, a, b);
    let c0 = trace(g, a, 0);
    let cn = trace(g, a, n);
    let last = trace(g, a, (n - 1) as nat);
    assert(can_step(g, last));
    assert(cn == step(g, last));
    assert(!at_start(g, a, (n - 1) as nat));
    assert(at_start(g, a, n));
    lemma_two_ways(pipe_at(g, last.x, last.y), last.from);
    let d = pipe_at(g, last.x, last.y).without(last.from);
    assert(cn.from == d.reverse());
    assert(joins(g, cn.from)) by {
        assert(last.x == g.start.0 + cn.from.dx());
        assert(last.y == g.start.1 + cn.from.dy());
        assert(cn.from.reverse() == d);
    }
    assert(cn.from == a || cn.from == b);
    if cn.from == b {
        assert(can_step(g, c0));
        assert(cn == turned(g, c0));
        assert(can_step(g, cn)) by {
            lemma_two_ways(pipe_at(g, c0.x, c0.y), c0.from);
        }
        lemma_never_turned(g, a, n, 0, n);
    }
}

/// Each cell of the loop connects to the next, and the next connects back:
/// the walk leaves a cell in a direction that its pipe holds, for the
/// neighbour in that direction, whose pipe holds the reverse direction.
pub proof fn lemma_connected(g: GridView, n: nat, k: nat)
    requires
        start_degree(g) == 2,
        closes_at(g, start_from(g), n),
        k < n,
    ensures
        ({
            let here = trace(g, start_from(g), k);
            let next = trace(g, start_from(g), k + 1);
            let d = pipe_at(g, here.x, here.y).without(here.from);
            &&& d.is_direction()
            &&& next.x == here.x + d.dx()
            &&& next.y == here.y + d.dy()
            &&& pipe_at(g, here.x, here.y).connects(d)
            &&& pipe_at(g, next.x, next.y).connects(d.reverse())
        }),
{
    let f = start_from(g);
    let here = trace(g, f, k);
    let next = trace(g, f, k + 1);
    assert(can_step(g, here));
    assert(next == step(g, here));
    lemma_two_ways(pipe_at(g, here.x, here.y), here.from);
    if k + 1 == n {
        lemma_comes_back(g, f, start_exit(g), n);
        assert(can_step(g, trace(g, f, 0)));
    } else {
        assert(can_step(g, next));
    }
    lemma_held(pipe_at(g, next.x, next.y), next.from);
}

/// A pipe holds the direction from which it can be passed.
pub proof fn lemma_held(p: Pipe, from: Pipe)
    requires
        p.leads_on(from),
    ensures
        p.connects(from),
{
    let (v, f) = (p.0, from.0);
    assert(v & f != 0) by (bit_vector)
        requires
            f == 1 || f == 2 || f == 4 || f == 8,
            v & f == f,
    ;
}

/// The loop is as long in one direction as in the other: the walk that
/// leaves the start cell the other way comes back after as many steps, and
/// visits the same cells in reverse order.
pub proof fn lemma_either_way(g: GridView, a: Pipe, b: Pipe, n: nat)
    requires
        start_degree(g) == 2,
        start_pair(g, a, b),
        closes_at(g, a, n),
    ensures
        closes_at(g, b, n),
        forall|k: nat| k <= n ==> #[trigger] place(g, b, k) == place(g, a, (n - k) as nat),
{
    lemma_simple_cycle(g, a, n);
    lemma_start_pipe(g, a, b);
    lemma_comes_back(g, a, b, n);
    assert(at_start(g, a, n));
    assert forall|k: nat| k <= n implies #[trigger] place(g, b, k) == place(g, a, (n - k) as nat)
        && can_step(g, trace(g, b, k)) by {
        lemma_other_way_trace(g, a, b, n, k);
    }
    assert forall|k: nat| k < n implies can_step(g, #[trigger] trace(g, b, k)) by {
        assert(place(g, b, k) == place(g, a, (n - k) as nat));
    }
    assert forall|k: nat| 0 < k < n implies !#[trigger] at_start(g, b, k) by {
        assert(place(g, b, k) == place(g, a, (n - k) as nat));
        assert(!at_start(g, a, (n - k) as nat));
    }
    assert(place(g, b, n) == place(g, a, 0));
}

} // verus!
