//! The walk along the loop that passes through the start cell.

use vstd::prelude::*;
use crate::pipes::cycle::{lemma_simple_cycle, simple};
use crate::pipes::error::LoopError;
use crate::pipes::grid::{Grid, GridView};
use crate::pipes::pipe::{Pipe, EAST, NORTH, SOUTH, WEST};
use crate::pipes::pos::Pos;

verus! {

/// Where a walk stands: in column `x`, row `y`, having entered that cell
/// from the direction `from`.
pub struct Cursor {
    pub x: int,
    pub y: int,
    pub from: Pipe,
}

/// Whether the neighbour of the start cell in direction `d` connects back to
/// the start cell.
pub open spec fn joins(g: GridView, d: Pipe) -> bool {
    g.at(g.start.0 + d.dx(), g.start.1 + d.dy()).connects(d.reverse())
}

/// The number of neighbours that connect to the start cell.
pub open spec fn start_degree(g: GridView) -> int {
    (if joins(g, Pipe(NORTH)) { 1int } else { 0 })
    + (if joins(g, Pipe(SOUTH)) { 1int } else { 0 })
    + (if joins(g, Pipe(EAST)) { 1int } else { 0 })
    + (if joins(g, Pipe(WEST)) { 1int } else { 0 })
}

/// The direction in which the walk leaves the start cell: the first of north,
/// south, east and west in which a neighbour connects to it.
pub open spec fn start_exit(g: GridView) -> Pipe {
    if joins(g, Pipe(NORTH)) {
        Pipe(NORTH)
    } else if joins(g, Pipe(SOUTH)) {
        Pipe(SOUTH)
    } else if joins(g, Pipe(EAST)) {
        Pipe(EAST)
    } else {
        Pipe(WEST)
    }
}

/// The direction from which the walk comes back to the start cell if the
/// loop is sound: the last of north, south, east and west in which a
/// neighbour connects to it.
pub open spec fn start_from(g: GridView) -> Pipe {
    if joins(g, Pipe(WEST)) {
        Pipe(WEST)
    } else if joins(g, Pipe(EAST)) {
        Pipe(EAST)
    } else if joins(g, Pipe(SOUTH)) {
        Pipe(SOUTH)
    } else {
        Pipe(NORTH)
    }
}

/// The pipe of the start cell, inferred from its neighbours.
pub open spec fn start_pipe(g: GridView) -> Pipe {
    Pipe(start_exit(g).0 | start_from(g).0)
}

/// The pipe in column `x`, row `y`, with the start cell's pipe inferred.
pub open spec fn pipe_at(g: GridView, x: int, y: int) -> Pipe {
    if (x, y) == g.start {
        start_pipe(g)
    } else {
        g.at(x, y)
    }
}

/// Whether the walk can go on from `c`: the pipe there holds the direction it
/// was entered from and exactly one direction more.
pub open spec fn can_step(g: GridView, c: Cursor) -> bool {
    pipe_at(g, c.x, c.y).leads_on(c.from)
}

/// Where the walk stands after one step from `c`: in the neighbour cell in
/// the one other direction of the pipe, entered from the reverse of that
/// direction.
pub open spec fn step(g: GridView, c: Cursor) -> Cursor {
    let d = pipe_at(g, c.x, c.y).without(c.from);
    Cursor { x: c.x + d.dx(), y: c.y + d.dy(), from: d.reverse() }
}

/// Where a walk stands after `k` steps, if it began in the start cell as if
/// entered from `from`.
pub open spec fn trace(g: GridView, from: Pipe, k: nat) -> Cursor
    decreases k,
{
    if k == 0 {
        Cursor { x: g.start.0, y: g.start.1, from }
    } else {
        step(g, trace(g, from, (k - 1) as nat))
    }
}

/// Whether the walk stands in the start cell after `k` steps.
pub open spec fn at_start(g: GridView, from: Pipe, k: nat) -> bool {
    trace(g, from, k).x == g.start.0 && trace(g, from, k).y == g.start.1
}

/// Whether the walk comes back to the start cell after exactly `n` steps:
/// each of the steps can be made, and none before the last ends in the start
/// cell.
pub open spec fn closes_at(g: GridView, from: Pipe, n: nat) -> bool {
    &&& n >= 1
    &&& forall|k: nat| k < n ==> can_step(g, #[trigger] trace(g, from, k))
    &&& forall|k: nat| 0 < k < n ==> !#[trigger] at_start(g, from, k)
    &&& at_start(g, from, n)
}

/// The length of the loop through the start cell: the number of steps after
/// which the walk is back. The grid is rejected with a format error where the
/// start cell does not have exactly two neighbours that connect to it, and
/// with a cycle error where the walk is not back after as many steps as the
/// grid has cells.
pub open spec fn loop_len(g: GridView) -> Result<nat, LoopError> {
    if start_degree(g) != 2 {
        Err(LoopError::Format)
    } else if exists|n: nat| n <= g.width() * g.height() && closes_at(g, start_from(g), n) {
        Ok(choose|n: nat| n <= g.width() * g.height() && closes_at(g, start_from(g), n))
    } else {
        Err(LoopError::Cycle)
    }
}

/// Whether `path` lists the cells of a walk in the order of the visit, each
/// with its pipe.
pub open spec fn follows(g: GridView, from: Pipe, path: Seq<(Pos, Pipe)>) -> bool {
    forall|k: int|
        0 <= k < path.len() ==> {
            let c = trace(g, from, k as nat);
            &&& (#[trigger] path[k]).0.x == c.x
            &&& path[k].0.y == c.y
            &&& path[k].1 == pipe_at(g, c.x, c.y)
        }
}

/// Whether each cell of `path` is a cell of the grid.
pub open spec fn on_grid(g: GridView, path: Seq<(Pos, Pipe)>) -> bool {
    forall|k: int| 0 <= k < path.len() ==>
        g.contains((#[trigger] path[k]).0.x as int, path[k].0.y as int)
}

/// What a walk along the loop found.
pub struct Walker {
    /// The cells of the loop in the order of the visit, the start cell
    /// first, each with its pipe.
    pub path: Vec<(Pos, Pipe)>,
    /// The number of steps that led back to the start cell.
    pub total_steps: usize,
}

/// A walk comes back to the start cell at one number of steps only.
pub proof fn lemma_closes_once(g: GridView, from: Pipe, n: nat, m: nat)
    requires
        closes_at(g, from, n),
        closes_at(g, from, m),
    ensures
        n == m,
{
    if n < m {
        assert(!at_start(g, from, n));
    } else if m < n {
        assert(!at_start(g, from, m));
    }
}

/// The pipe made of two different directions holds both and nothing else.
pub proof fn lemma_two_directions(a: u8, b: u8)
    requires
        Pipe(a).is_direction(),
        Pipe(b).is_direction(),
        a != b,
    ensures
        Pipe(a | b).leads_on(Pipe(b)),
        Pipe(a | b).without(Pipe(b)) == Pipe(a),
{
    assert((a | b) & b == b && (a | b) & !b == a) by (bit_vector)
        requires
            a == 1 || a == 2 || a == 4 || a == 8,
            b == 1 || b == 2 || b == 4 || b == 8,
            a != b,
    ;
}

/// A pipe that can be passed is a pipe.
pub proof fn lemma_passable_is_pipe(p: Pipe, from: Pipe)
    requires
        p.leads_on(from),
    ensures
        p != Pipe(0),
{
    let f = from.0;
    assert(0u8 & f == 0u8) by (bit_vector);
}

impl Grid {
    /// Whether the neighbour of the start cell in direction `d` connects back
    /// to the start cell.
    fn neighbour_joins(&self, d: Pipe) -> (b: bool)
        requires
            self.wf(),
            d.is_direction(),
        ensures
            b == joins(self@, d),
    {
        let start = self.start();
        if d.0 == NORTH {
            self.get(start.move_north()).can_move_south()
        } else if d.0 == SOUTH {
            self.get(start.move_south()).can_move_north()
        } else if d.0 == EAST {
            self.get(start.move_east()).can_move_west()
        } else {
            self.get(start.move_west()).can_move_east()
        }
    }

    /// Walks the loop that passes through the start cell, once around.
    ///
    /// The pipe of the start cell is inferred from its four neighbours: it
    /// connects to those that connect to it, and there must be exactly two.
    /// The walk leaves the start cell towards the first of them, in the
    /// order north, south, east, west, and goes on from pipe to pipe until it
    /// stands in the start cell again. The cells of the walk are all
    /// different, and there are at least four.
    pub fn walk_grid(&self) -> (r: Result<Walker, LoopError>)
        requires
            self.wf(),
        ensures
            match r {
                Ok(w) => {
                    &&& loop_len(self@) == Ok::<nat, LoopError>(w.total_steps as nat)
                    &&& w.path@.len() == w.total_steps
                    &&& follows(self@, start_from(self@), w.path@)
                    &&& on_grid(self@, w.path@)
                    &&& w.total_steps >= 4
                    &&& simple(self@, start_from(self@), w.total_steps as nat)
                },
                Err(e) => loop_len(self@) == Err::<nat, LoopError>(e),
            },
    {
        let ghost g = self@;
        let start = self.start();
        let n = self.neighbour_joins(Pipe(NORTH));
        let s = self.neighbour_joins(Pipe(SOUTH));
        let e = self.neighbour_joins(Pipe(EAST));
        let w = self.neighbour_joins(Pipe(WEST));
        let mut degree: u8 = 0;
        if n {
            degree += 1;
        }
        if s {
            degree += 1;
        }
        if e {
            degree += 1;
        }
        if w {
            degree += 1;
        }
        if degree != 2 {
            return Err(LoopError::Format);
        }
        let exit = if n {
            Pipe(NORTH)
        } else if s {
            Pipe(SOUTH)
        } else if e {
            Pipe(EAST)
        } else {
            Pipe(WEST)
        };
        let from0 = if w {
            Pipe(WEST)
        } else if e {
            Pipe(EAST)
        } else if s {
            Pipe(SOUTH)
        } else {
            Pipe(NORTH)
        };
        let first = Pipe(exit.0 | from0.0);
        proof {
            lemma_two_directions(exit.0, from0.0);
        }
        let total = self.cell_count();
        let mut path: Vec<(Pos, Pipe)> = Vec::new();
        path.push((start, first));
        let (mut from, mut pos) = first.move_trough(from0, start);
        let mut steps: usize = 1;
        proof {
            assert(trace(g, from0, 1) == step(g, trace(g, from0, 0)));
            assert(1 <= g.width() * g.height()) by (nonlinear_arith)
                requires
                    g.width() >= 1,
                    g.height() >= 1,
            ;
        }
        loop
            invariant
                self.wf(),
                g == self@,
                (start.x as int, start.y as int) == g.start,
                from0 == start_from(g),
                start_degree(g) == 2,
                total == g.width() * g.height(),
                1 <= steps <= total,
                (Cursor { x: pos.x as int, y: pos.y as int, from }) == trace(g, from0,
                    steps as nat),
                forall|k: nat| k < steps ==> can_step(g, #[trigger] trace(g, from0, k)),
                forall|k: nat| 0 < k < steps ==> !#[trigger] at_start(g, from0, k),
                path@.len() == steps,
                follows(g, from0, path@),
                on_grid(g, path@),
                -1 <= pos.x <= g.width(),
                -1 <= pos.y <= g.height(),
            decreases total - steps,
        {
            if pos == start {
                proof {
                    assert(at_start(g, from0, steps as nat));
                    assert(closes_at(g, from0, steps as nat));
                    let m = choose|m: nat|
                        m <= g.width() * g.height() && closes_at(g, start_from(g), m);
                    lemma_closes_once(g, from0, steps as nat, m);
                    lemma_simple_cycle(g, from0, steps as nat);
                }
                return Ok(Walker { path, total_steps: steps });
            }
            assert(!at_start(g, from0, steps as nat));
            if steps >= total {
                proof {
                    assert forall|m: nat| m <= g.width() * g.height() implies !closes_at(
                        g,
                        from0,
                        m,
                    ) by {
                        if closes_at(g, from0, m) {
                            assert(at_start(g, from0, m));
                            if m < steps {
                                assert(!at_start(g, from0, m));
                            }
                        }
                    }
                }
                return Err(LoopError::Cycle);
            }
            let pipe = self.get(pos);
            if !pipe.can_pass(from) {
                proof {
                    assert forall|m: nat| m <= g.width() * g.height() implies !closes_at(
                        g,
                        from0,
                        m,
                    ) by {
                        if closes_at(g, from0, m) {
                            assert(at_start(g, from0, m));
                            if m < steps {
                                assert(!at_start(g, from0, m));
                            } else if m > steps {
                                assert(can_step(g, trace(g, from0, steps as nat)));
                            }
                        }
                    }
                }
                return Err(LoopError::Cycle);
            }
            proof {
                lemma_passable_is_pipe(pipe, from);
                assert(g.contains(pos.x as int, pos.y as int));
                assert(trace(g, from0, (steps + 1) as nat) == step(g,
                    trace(g, from0, steps as nat)));
            }
            let ghost before = path@;
            path.push((pos, pipe));
            proof {
                assert forall|k: int| 0 <= k < path@.len() implies {
                    let c = trace(g, from0, k as nat);
                    &&& (#[trigger] path@[k]).0.x == c.x
                    &&& path@[k].0.y == c.y
                    &&& path@[k].1 == pipe_at(g, c.x, c.y)
                } by {
                    if k < steps {
                        assert(path@[k] == before[k]);
                    }
                }
                assert forall|k: int| 0 <= k < path@.len() implies g.contains(
                    (#[trigger] path@[k]).0.x as int,
                    path@[k].0.y as int,
                ) by {
                    if k < steps {
                        assert(path@[k] == before[k]);
                    }
                }
            }
            let next = pipe.move_trough(from, pos);
            from = next.0;
            pos = next.1;
            steps += 1;
        }
    }
}

} // verus!
