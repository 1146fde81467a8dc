//! The search itself: uniform-cost or heuristic-guided, over four or eight
//! directions, recording the order of exploration.

use crate::frontier::{Frontier, Node};
use crate::grid::{get_adjacent, manhattan};
use crate::model::{problem, walk_back};
use crate::progress::{budget, init_witness, inv, lemma_init, lemma_pop, lemma_step, step_witness};
use std::collections::{HashMap, HashSet};
use vstd::prelude::*;
use vstd::std_specs::hash::group_hash_axioms;

verus! {

/// Why a search was not started.
#[derive(Clone, Copy, Debug, PartialEq, Eq, Structural)]
pub enum PathError {
    /// The grid has no cell, or more cells than the machine word can number.
    InvalidDimensions,
    /// The start, the target or a wall is not a cell of the grid.
    IndexOutOfRange,
    /// The start is one of the walls.
    StartIsWall,
}

/// What is wrong with the arguments of a search, if anything. Where
/// several things are wrong, the dimensions are named before the indices,
/// and the indices before a walled start.
pub open spec fn input_error(
    walls: Seq<usize>,
    start: usize,
    target: usize,
    dim_x: usize,
    dim_y: usize,
) -> Option<PathError> {
    if dim_x == 0 || dim_y == 0 || dim_x * dim_y > usize::MAX {
        Some(PathError::InvalidDimensions)
    } else if start >= dim_x * dim_y || target >= dim_x * dim_y || exists|i: int|
        0 <= i < walls.len() && walls[i] >= dim_x * dim_y {
        Some(PathError::IndexOutOfRange)
    } else if walls.contains(start) {
        Some(PathError::StartIsWall)
    } else {
        None
    }
}

/// Whether a search can be run on these arguments: the grid has a cell,
/// its cells can be numbered, and start and target are among them.
pub fn can_search(start: usize, target: usize, dim_x: usize, dim_y: usize) -> (ok: bool)
    ensures
        ok == (dim_x > 0 && dim_y > 0 && dim_x * dim_y <= usize::MAX && start < dim_x * dim_y
            && target < dim_x * dim_y),
{
    if dim_x == 0 || dim_y == 0 {
        return false;
    }
    match dim_x.checked_mul(dim_y) {
        Some(cells) => start < cells && target < cells,
        None => false,
    }
}

/// Checks the arguments of a search.
pub fn validate_input(walls: &[usize], start: usize, target: usize, dim_x: usize, dim_y: usize) -> (checked:
    Result<(), PathError>)
    ensures
        checked == match input_error(walls@, start, target, dim_x, dim_y) {
            Some(e) => Err::<(), PathError>(e),
            None => Ok(()),
        },
{
    if dim_x == 0 || dim_y == 0 {
        return Err(PathError::InvalidDimensions);
    }
    let cells = match dim_x.checked_mul(dim_y) {
        Some(cells) => cells,
        None => {
            return Err(PathError::InvalidDimensions);
        },
    };
    if start >= cells || target >= cells {
        return Err(PathError::IndexOutOfRange);
    }
    let mut i: usize = 0;
    while i < walls.len()
        invariant
            0 <= i <= walls.len(),
            dim_x > 0 && dim_y > 0,
            cells == dim_x * dim_y,
            start < cells && target < cells,
            forall|j: int| 0 <= j < i ==> walls@[j] < cells,
        decreases walls.len() - i,
    {
        if walls[i] >= cells {
            assert(walls@[i as int] >= dim_x * dim_y);
            return Err(PathError::IndexOutOfRange);
        }
        i += 1;
    }
    if is_wall(walls, start) {
        return Err(PathError::StartIsWall);
    }
    Ok(())
}

/// Whether `idx` is one of `walls`.
pub fn is_wall(walls: &[usize], idx: usize) -> (found: bool)
    ensures
        found == walls@.contains(idx),
{
    let mut i: usize = 0;
    while i < walls.len()
        invariant
            0 <= i <= walls.len(),
            forall|j: int| 0 <= j < i ==> walls@[j] != idx,
        decreases walls.len() - i,
    {
        if walls[i] == idx {
            return true;
        }
        i += 1;
    }
    false
}

/// Appends to `trace` the cells met when walking from `target` along the
/// predecessor links of `prev_map`: `target` itself, then at most `steps`
/// predecessors.
pub fn reconstruct_path(
    prev_map: &HashMap<usize, Option<usize>>,
    target: usize,
    steps: usize,
    trace: &mut Vec<usize>,
)
    ensures
        final(trace)@ == old(trace)@ + walk_back(prev_map@, target, steps as nat),
{
    broadcast use group_hash_axioms;

    let ghost full = old(trace)@ + walk_back(prev_map@, target, steps as nat);
    let mut current = target;
    let mut left = steps;
    trace.push(current);
    while left > 0
        invariant
            trace@.len() > 0,
            trace@.last() == current,
            trace@.drop_last() + walk_back(prev_map@, current, left as nat) == full,
        decreases left,
    {
        let ghost before = trace@;
        match prev_map.get(&current) {
            Some(Some(prev)) => {
                trace.push(*prev);
                current = *prev;
                left -= 1;
                assert(trace@.drop_last() == before);
                assert(before == before.drop_last() + seq![before.last()]);
            },
            _ => {
                left = 0;
            },
        }
    }
    assert(trace@ == trace@.drop_last() + seq![current]);
}

/// Searches a shortest path from `start` to `target` on a grid of `dim_x`
/// by `dim_y` cells on which the cells of `walls` may not be entered.
///
/// The result is the trace of the search, followed, if the target was
/// reached, by the path from `target` back to `start`. The trace holds
/// every popped cell at the time it is popped and every discovered cell at
/// the time it is discovered. A cell counts as visited from the moment of
/// its discovery and is never discovered again. Of the waiting cells the
/// one of lowest priority is popped, the earliest discovered among equals.
/// With `heuristic` the priority of a cell is the cost of the cell from
/// which it was discovered plus its Manhattan distance to the target;
/// without, it is the number of moves to the cell. Walls are tested on the
/// cells that are discovered, not on `start`.
pub fn shortest_path(
    walls: &[usize],
    start: usize,
    target: usize,
    dim_x: usize,
    dim_y: usize,
    heuristic: bool,
    diagonals: bool,
) -> (out: Vec<usize>)
    requires
        problem(walls@, start, target, dim_x, dim_y, heuristic, diagonals).valid(),
    ensures
        out@ == problem(walls@, start, target, dim_x, dim_y, heuristic, diagonals).search().flat(),
{
    broadcast use group_hash_axioms;

    let ghost p = problem(walls@, start, target, dim_x, dim_y, heuristic, diagonals);
    let mut open_list = Frontier::new();
    let mut visited: HashSet<usize> = HashSet::new();
    let mut search_trace: Vec<usize> = Vec::new();
    let mut prev_map: HashMap<usize, Option<usize>> = HashMap::new();

    let first: u128 = if heuristic {
        manhattan(start, target, dim_x) as u128
    } else {
        0
    };
    open_list.push(Node { idx: start, cost: 0, tent_cost: first });
    visited.insert(start);
    prev_map.insert(start, None);

    let ghost mut s = p.init();
    let ghost mut w = init_witness(p);
    let ghost mut fuel: nat = p.cells() as nat;
    proof {
        lemma_init(p);
        assert(open_list@ =~= s.frontier);
        assert(visited@ =~= s.visited);
        assert(prev_map@ =~= s.pred);
        assert(search_trace@ =~= s.trace);
    }

    loop
        invariant
            p == problem(walls@, start, target, dim_x, dim_y, heuristic, diagonals),
            inv(p, s, w),
            s.frontier == open_list@,
            s.visited == visited@,
            s.pred == prev_map@,
            s.trace == search_trace@,
            budget(p, s) <= fuel,
            p.search() == p.run(s, fuel),
        decreases fuel,
    {
        let node = match open_list.pop() {
            Some(node) => node,
            None => {
                assert(s.trace + Seq::<usize>::empty() == s.trace);
                return search_trace;
            },
        };
        assert(node == s.next());
        search_trace.push(node.idx);
        if node.idx == target {
            reconstruct_path(&prev_map, target, node.cost, &mut search_trace);
            return search_trace;
        }
        let adjs = get_adjacent(node.idx, dim_x, dim_y, diagonals);
        let ghost popped = s.popped();
        let ghost mut t = popped;
        proof {
            lemma_pop(p, s, w);
        }
        let mut k: usize = 0;
        while k < adjs.len()
            invariant
                p == problem(walls@, start, target, dim_x, dim_y, heuristic, diagonals),
                p.valid(),
                0 <= k <= adjs.len(),
                node.cost + 1 <= usize::MAX,
                t == p.expand(popped, node, adjs@.take(k as int)),
                t.frontier == open_list@,
                t.visited == visited@,
                t.pred == prev_map@,
                t.trace == search_trace@,
            decreases adjs.len() - k,
        {
            let adj = adjs[k];
            proof {
                assert(adjs@.take(k + 1).drop_last() == adjs@.take(k as int));
                assert(adjs@.take(k + 1).last() == adj);
            }
            if !is_wall(walls, adj) {
                if visited.insert(adj) {
                    let tent_cost: u128 = if heuristic {
                        node.cost as u128 + manhattan(adj, target, dim_x) as u128
                    } else {
                        node.cost as u128 + 1
                    };
                    open_list.push(Node { idx: adj, cost: node.cost + 1, tent_cost });
                    prev_map.insert(adj, Some(node.idx));
                    search_trace.push(adj);
                }
            }
            proof {
                t = p.discover(t, node, adj);
                assert(t.visited =~= visited@);
            }
            k += 1;
        }
        proof {
            assert(adjs@.take(k as int) == adjs@);
            lemma_step(p, s, w);
            w = step_witness(p, s, w);
            s = p.step(s);
            fuel = (fuel - 1) as nat;
        }
    }
}

/// Checks the arguments and, if nothing is wrong with them, searches as
/// `shortest_path` does.
pub fn try_shortest_path(
    walls: &[usize],
    start: usize,
    target: usize,
    dim_x: usize,
    dim_y: usize,
    heuristic: bool,
    diagonals: bool,
) -> (found: Result<Vec<usize>, PathError>)
    ensures
        match input_error(walls@, start, target, dim_x, dim_y) {
            Some(e) => found == Err::<Vec<usize>, PathError>(e),
            None => found.is_ok() && found.unwrap()@ == problem(
                walls@,
                start,
                target,
                dim_x,
                dim_y,
                heuristic,
                diagonals,
            ).search().flat(),
        },
{
    match validate_input(walls, start, target, dim_x, dim_y) {
        Err(e) => Err(e),
        Ok(()) => Ok(shortest_path(walls, start, target, dim_x, dim_y, heuristic, diagonals)),
    }
}

} // verus!
