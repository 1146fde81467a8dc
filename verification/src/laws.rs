//! What holds of the outcome of every search.

use crate::frontier::{first_min_index, is_first_min, lemma_first_min_exists, lemma_first_min_unique};
use crate::grid::{adjacent, lemma_neighbors_adjacent};
use crate::model::{problem, walk_back, Outcome, Problem, SearchState};
use crate::progress::{
    base, budget, in_frontier, init_witness, inv, lemma_init, lemma_step, link_ok, step_witness,
    Witness,
};
use vstd::prelude::*;

verus! {

/// The `i`-th cell of `q` is no wall and one move away from the cell before it.
pub open spec fn move_ok(p: Problem, q: Seq<usize>, i: int) -> bool {
    &&& adjacent(q[i - 1], q[i], p.dim_x, p.dim_y, p.diagonals)
    &&& !p.walls.contains(q[i])
}

/// `q` is a route: it begins at the start, ends at the target, goes from
/// cell to cell by single moves and enters no wall.
pub open spec fn is_route(p: Problem, q: Seq<usize>) -> bool {
    &&& q.len() > 0
    &&& q[0] == p.start
    &&& q.last() == p.target
    &&& forall|i: int| 0 < i < q.len() ==> #[trigger] move_ok(p, q, i)
}

/// Some route leads from the start to the target.
pub open spec fn reachable(p: Problem) -> bool {
    exists|q: Seq<usize>| is_route(p, q)
}

/// What holds of an outcome: the trace holds cells of the grid; without a
/// path there is no route, and the target is not in the trace; a path,
/// read backwards, is a route, the trace before it ends with the target,
/// and without the heuristic no route has fewer cells.
spec fn outcome_ok(p: Problem, o: Outcome) -> bool {
    &&& forall|k: int| 0 <= k < o.trace.len() ==> #[trigger] o.trace[k] < p.cells()
    &&& o.path.len() == 0 ==> !reachable(p) && !o.trace.contains(p.target)
    &&& o.path.len() > 0 ==> {
        &&& is_route(p, o.path.reverse())
        &&& o.trace.len() > 0 && o.trace.last() == p.target
        &&& !p.heuristic ==> forall|q: Seq<usize>| #[trigger] is_route(p, q) ==> o.path.len() <= q.len()
    }
}

/// With an empty frontier, every cell on a route is closed.
proof fn lemma_route_closed(p: Problem, s: SearchState, w: Witness, q: Seq<usize>, i: int)
    requires
        inv(p, s, w),
        s.frontier.len() == 0,
        is_route(p, q),
        0 <= i < q.len(),
    ensures
        w.closed.contains(q[i]),
    decreases i,
{
    if i > 0 {
        lemma_route_closed(p, s, w, q, i - 1);
        assert(move_ok(p, q, i));
        lemma_neighbors_adjacent(q[i - 1], q[i], p.dim_x, p.dim_y, p.diagonals);
        assert(p.neighbors_of(q[i - 1]).contains(q[i]));
    }
    assert(s.visited.contains(q[i]));
    assert(!in_frontier(s.frontier, q[i]));
}

/// Without the heuristic, the cost of the node that is popped next is at
/// most the number of moves with which any route reaches any of its cells
/// that is not visited at a depth of at most that number.
proof fn lemma_route_depth(p: Problem, s: SearchState, w: Witness, q: Seq<usize>, i: int)
    requires
        inv(p, s, w),
        s.frontier.len() > 0,
        !p.heuristic,
        is_route(p, q),
        0 <= i < q.len(),
    ensures
        s.next().cost <= i || (s.visited.contains(q[i]) && w.depth[q[i]] <= i),
    decreases i,
{
    let f = s.frontier;
    lemma_first_min_exists(f);
    if i > 0 {
        lemma_route_depth(p, s, w, q, i - 1);
        if s.next().cost > i - 1 {
            let a = q[i - 1];
            assert(move_ok(p, q, i));
            lemma_neighbors_adjacent(a, q[i], p.dim_x, p.dim_y, p.diagonals);
            assert(p.neighbors_of(a).contains(q[i]));
            if !w.closed.contains(a) {
                assert(in_frontier(f, a));
                let k = choose|k: int| 0 <= k < f.len() && (#[trigger] f[k]).idx == a;
                assert(f[k].tent_cost >= f[first_min_index(f)].tent_cost);
                assert(false);
            }
        }
    }
}

/// Walking back from a visited cell for as many steps as its depth gives
/// that many cells and one, ends at the start, and goes by single moves
/// through cells that, but for the start, are no walls.
proof fn lemma_walk_back(p: Problem, s: SearchState, w: Witness, v: usize)
    requires
        base(p, s, w),
        s.visited.contains(v),
    ensures
        ({
            let path = walk_back(s.pred, v, w.depth[v] as nat);
            &&& path.len() == w.depth[v] + 1
            &&& path[0] == v
            &&& path.last() == p.start
            &&& forall|i: int|
                0 <= i < path.len() - 1 ==> adjacent(
                    #[trigger] path[i + 1],
                    path[i],
                    p.dim_x,
                    p.dim_y,
                    p.diagonals,
                ) && !p.walls.contains(path[i])
        }),
    decreases w.depth[v],
{
    let path = walk_back(s.pred, v, w.depth[v] as nat);
    if v == p.start {
        assert(path =~= seq![v]);
    } else {
        assert(link_ok(p, s, w, v));
        let u = s.pred[v].unwrap();
        lemma_walk_back(p, s, w, u);
        let rest = walk_back(s.pred, u, w.depth[u] as nat);
        assert(path =~= seq![v] + rest);
        lemma_neighbors_adjacent(u, v, p.dim_x, p.dim_y, p.diagonals);
        assert forall|i: int| 0 <= i < path.len() - 1 implies adjacent(
            #[trigger] path[i + 1],
            path[i],
            p.dim_x,
            p.dim_y,
            p.diagonals,
        ) && !p.walls.contains(path[i]) by {
            if i > 0 {
                assert(path[i + 1] == rest[i - 1 + 1]);
                assert(path[i] == rest[i - 1]);
            } else {
                assert(path[1] == rest[0]);
            }
        }
    }
}

/// The outcome of a search that continues from a state that meets the
/// invariant, with enough fuel, is as `outcome_ok` says.
proof fn lemma_run(p: Problem, s: SearchState, w: Witness, fuel: nat)
    requires
        inv(p, s, w),
        budget(p, s) <= fuel,
    ensures
        outcome_ok(p, p.run(s, fuel)),
    decreases fuel,
{
    let o = p.run(s, fuel);
    if s.frontier.len() == 0 {
        assert(o.path.len() == 0);
        assert forall|k: int| 0 <= k < o.trace.len() implies #[trigger] o.trace[k] < p.cells() by {
            assert(s.visited.contains(s.trace[k]));
        }
        if reachable(p) {
            let q = choose|q: Seq<usize>| is_route(p, q);
            lemma_route_closed(p, s, w, q, q.len() - 1);
        }
        if o.trace.contains(p.target) {
            let k = choose|k: int| 0 <= k < s.trace.len() && s.trace[k] == p.target;
            assert(s.visited.contains(s.trace[k]));
            assert(!in_frontier(s.frontier, p.target));
        }
    } else if s.next().idx == p.target {
        let u = s.next();
        lemma_first_min_exists(s.frontier);
        assert(s.visited.contains(u.idx));
        lemma_walk_back(p, s, w, p.target);
        let path = o.path;
        let route = path.reverse();
        assert(path == walk_back(s.pred, p.target, w.depth[p.target] as nat));
        assert forall|i: int| 0 < i < route.len() implies #[trigger] move_ok(p, route, i) by {
            let j = route.len() - 1 - i;
            assert(route[i] == path[j]);
            assert(route[i - 1] == path[j + 1]);
        }
        assert(o.trace.last() == p.target);
        assert forall|k: int| 0 <= k < o.trace.len() implies #[trigger] o.trace[k] < p.cells() by {
            if k < s.trace.len() {
                assert(s.visited.contains(s.trace[k]));
            }
        }
        if !p.heuristic {
            assert forall|q: Seq<usize>| #[trigger] is_route(p, q) implies path.len() <= q.len() by {
                lemma_route_depth(p, s, w, q, q.len() - 1);
            }
        }
    } else {
        lemma_step(p, s, w);
        lemma_run(p, p.step(s), step_witness(p, s, w), (fuel - 1) as nat);
    }
}

/// From a state that meets the invariant, any fuel that covers the budget
/// gives the same outcome.
proof fn lemma_fuel(p: Problem, s: SearchState, w: Witness, fuel_a: nat, fuel_b: nat)
    requires
        inv(p, s, w),
        budget(p, s) <= fuel_a,
        budget(p, s) <= fuel_b,
    ensures
        p.run(s, fuel_a) == p.run(s, fuel_b),
    decreases fuel_a,
{
    if s.frontier.len() > 0 && s.next().idx != p.target {
        lemma_step(p, s, w);
        lemma_fuel(
            p,
            p.step(s),
            step_witness(p, s, w),
            (fuel_a - 1) as nat,
            (fuel_b - 1) as nat,
        );
    }
}

/// No search ends for want of fuel: with more fuel than one round per
/// cell the outcome is the same.
pub proof fn lemma_fuel_suffices(p: Problem, fuel: nat)
    requires
        p.valid(),
        fuel >= p.cells(),
    ensures
        p.run(p.init(), fuel) == p.search(),
{
    lemma_init(p);
    lemma_fuel(p, p.init(), init_witness(p), fuel, p.cells() as nat);
}

/// The search finds a route whenever there is one: the path that it
/// returns, read from its end, begins at the start, ends at the target,
/// goes from cell to cell by single moves of the allowed kind and enters
/// no wall. If the start is no wall, no cell of the path is a wall. The
/// trace before the path ends with the target.
pub proof fn lemma_path_is_route(p: Problem)
    requires
        p.valid(),
        reachable(p),
    ensures
        is_route(p, p.search().path.reverse()),
        p.search().trace.len() > 0 && p.search().trace.last() == p.target,
        !p.walls.contains(p.start) ==> forall|i: int|
            0 <= i < p.search().path.len() ==> !p.walls.contains(#[trigger] p.search().path[i]),
{
    lemma_init(p);
    lemma_run(p, p.init(), init_witness(p), p.cells() as nat);
    let path = p.search().path;
    let route = path.reverse();
    assert forall|i: int| 0 <= i < path.len() implies !p.walls.contains(#[trigger] path[i])
        || p.walls.contains(p.start) by {
        let j = path.len() - 1 - i;
        assert(route[j] == path[i]);
        if j > 0 {
            assert(move_ok(p, route, j));
        }
    }
}

/// Without the heuristic the path that the search returns is a shortest
/// route: it exists whenever a route exists, and has no more cells, hence
/// no more moves, than any route.
pub proof fn lemma_path_is_shortest(p: Problem, q: Seq<usize>)
    requires
        p.valid(),
        !p.heuristic,
        is_route(p, q),
    ensures
        0 < p.search().path.len() <= q.len(),
        is_route(p, p.search().path.reverse()),
{
    lemma_init(p);
    lemma_run(p, p.init(), init_witness(p), p.cells() as nat);
}

/// Where no route leads to the target, the search returns the trace alone,
/// and the target is not in it.
pub proof fn lemma_no_route_no_path(p: Problem)
    requires
        p.valid(),
        !reachable(p),
    ensures
        p.search().path.len() == 0,
        p.search().flat() == p.search().trace,
        !p.search().trace.contains(p.target),
{
    lemma_init(p);
    lemma_run(p, p.init(), init_witness(p), p.cells() as nat);
    assert(p.search().flat() =~= p.search().trace);
}

/// Every cell that a search returns, in the trace or in the path, is a
/// cell of the grid.
pub proof fn lemma_outcome_in_grid(p: Problem)
    requires
        p.valid(),
    ensures
        forall|k: int|
            0 <= k < p.search().flat().len() ==> #[trigger] p.search().flat()[k] < p.cells(),
{
    lemma_init(p);
    lemma_run(p, p.init(), init_witness(p), p.cells() as nat);
    let o = p.search();
    assert forall|k: int| 0 <= k < o.flat().len() implies #[trigger] o.flat()[k] < p.cells() by {
        if k < o.trace.len() {
            assert(o.flat()[k] == o.trace[k]);
        } else {
            let route = o.path.reverse();
            let i = k - o.trace.len();
            let j = o.path.len() - 1 - i;
            assert(o.flat()[k] == o.path[i]);
            assert(route[j] == o.path[i]);
            if j > 0 {
                assert(move_ok(p, route, j));
            }
        }
    }
}

/// A search whose start is its target returns the start twice: once as the
/// whole trace, once as the whole path.
pub proof fn lemma_start_is_target(p: Problem)
    requires
        p.valid(),
        p.start == p.target,
    ensures
        p.search().trace == seq![p.start],
        p.search().path == seq![p.start],
        p.search().flat() == seq![p.start, p.start],
{
    let s = p.init();
    assert(is_first_min(s.frontier, 0));
    lemma_first_min_exists(s.frontier);
    lemma_first_min_unique(s.frontier, 0, first_min_index(s.frontier));
    assert(s.next() == p.start_node());
    assert(s.popped().trace =~= seq![p.start]);
    assert(p.search().path =~= seq![p.start]);
    assert(p.search().flat() =~= seq![p.start, p.start]);
}

/// The outcome depends on the walls only as a set: their order and
/// repetitions among them change nothing.
pub proof fn lemma_walls_as_set(
    walls_a: Seq<usize>,
    walls_b: Seq<usize>,
    start: usize,
    target: usize,
    dim_x: usize,
    dim_y: usize,
    heuristic: bool,
    diagonals: bool,
)
    requires
        forall|v: usize| walls_a.contains(v) <==> walls_b.contains(v),
    ensures
        problem(walls_a, start, target, dim_x, dim_y, heuristic, diagonals).search() == problem(
            walls_b,
            start,
            target,
            dim_x,
            dim_y,
            heuristic,
            diagonals,
        ).search(),
{
    assert(walls_a.to_set() =~= walls_b.to_set());
}

} // verus!
