//! The search as a mathematical object: what is searched, the state of a
//! search in progress, and the outcome that a search computes.

use crate::frontier::{first_min_index, Node};
use crate::grid::{manhattan_distance, neighbors};
use vstd::prelude::*;

verus! {

/// One search problem. The walls matter only as a set.
pub struct Problem {
    pub walls: Set<usize>,
    pub start: usize,
    pub target: usize,
    pub dim_x: usize,
    pub dim_y: usize,
    pub heuristic: bool,
    pub diagonals: bool,
}

/// The state of a search between two expansions.
pub struct SearchState {
    /// Discovered cells that wait to be expanded, in order of discovery.
    pub frontier: Seq<Node>,
    /// The cells that have entered the frontier at some time.
    pub visited: Set<usize>,
    /// For every visited cell, the cell from which it was discovered.
    pub pred: Map<usize, Option<usize>>,
    /// The cells in the order in which they were popped and discovered.
    pub trace: Seq<usize>,
}

impl SearchState {
    /// The node that leaves a non-empty frontier next.
    pub open spec fn next(self) -> Node {
        self.frontier[first_min_index(self.frontier)]
    }

    /// The state after the next node was popped and recorded in the trace.
    pub open spec fn popped(self) -> SearchState {
        SearchState {
            frontier: self.frontier.remove(first_min_index(self.frontier)),
            visited: self.visited,
            pred: self.pred,
            trace: self.trace.push(self.next().idx),
        }
    }
}

/// What a search hands back: the trace, and the path from the target back
/// to the start, which is empty if the target was not reached.
pub struct Outcome {
    pub trace: Seq<usize>,
    pub path: Seq<usize>,
}

impl Outcome {
    /// The trace followed by the path.
    pub open spec fn flat(self) -> Seq<usize> {
        self.trace + self.path
    }
}

impl Problem {
    /// Number of cells of the grid.
    pub open spec fn cells(self) -> int {
        self.dim_x * self.dim_y
    }

    /// The grid has a cell, every cell index fits the machine word, and
    /// start and target are cells.
    pub open spec fn valid(self) -> bool {
        &&& self.dim_x > 0
        &&& self.dim_y > 0
        &&& self.cells() <= usize::MAX
        &&& self.start < self.cells()
        &&& self.target < self.cells()
    }

    /// The neighbours of `idx` in visiting order.
    pub open spec fn neighbors_of(self, idx: usize) -> Seq<usize> {
        neighbors(idx, self.dim_x, self.dim_y, self.diagonals)
    }

    /// Estimated number of steps from `idx` to the target.
    pub open spec fn estimate(self, idx: usize) -> int {
        manhattan_distance(idx as int, self.target as int, self.dim_x as int)
    }

    /// The node with which a search begins.
    pub open spec fn start_node(self) -> Node {
        Node {
            idx: self.start,
            cost: 0,
            tent_cost: if self.heuristic {
                self.estimate(self.start) as u128
            } else {
                0
            },
        }
    }

    /// The node for `adj` when it is discovered from `parent`. With the
    /// heuristic its priority is the cost of the parent plus the estimate
    /// for `adj`; without, it is the cost of `adj` itself.
    pub open spec fn child_node(self, parent: Node, adj: usize) -> Node {
        Node {
            idx: adj,
            cost: (parent.cost + 1) as usize,
            tent_cost: if self.heuristic {
                (parent.cost + self.estimate(adj)) as u128
            } else {
                (parent.cost + 1) as u128
            },
        }
    }

    /// The state in which a search begins.
    pub open spec fn init(self) -> SearchState {
        SearchState {
            frontier: seq![self.start_node()],
            visited: set![self.start],
            pred: map![self.start => None::<usize>],
            trace: Seq::empty(),
        }
    }

    /// The state after `adj` was looked at as a neighbour of `parent`: a
    /// wall or a visited cell changes nothing; any other cell is marked
    /// visited, recorded in the trace, pushed onto the frontier and linked
    /// to `parent`.
    pub open spec fn discover(self, s: SearchState, parent: Node, adj: usize) -> SearchState {
        if self.walls.contains(adj) || s.visited.contains(adj) {
            s
        } else {
            SearchState {
                frontier: s.frontier.push(self.child_node(parent, adj)),
                visited: s.visited.insert(adj),
                pred: s.pred.insert(adj, Some(parent.idx)),
                trace: s.trace.push(adj),
            }
        }
    }

    /// The state after the cells of `adjs` were looked at in order as
    /// neighbours of `parent`.
    pub open spec fn expand(self, s: SearchState, parent: Node, adjs: Seq<usize>) -> SearchState
        decreases adjs.len(),
    {
        if adjs.len() == 0 {
            s
        } else {
            self.discover(self.expand(s, parent, adjs.drop_last()), parent, adjs.last())
        }
    }

    /// The state after one round that does not end the search: the next
    /// node is popped and its neighbours are looked at in visiting order.
    pub open spec fn step(self, s: SearchState) -> SearchState {
        self.expand(s.popped(), s.next(), self.neighbors_of(s.next().idx))
    }

    /// The outcome of a search that continues from state `s` and may pop
    /// `fuel` more nodes. Each round pops the next node and records it in
    /// the trace. If it is the target, the search ends with the path back
    /// to the start; otherwise its neighbours are looked at. The search
    /// ends without a path when the frontier is empty.
    pub open spec fn run(self, s: SearchState, fuel: nat) -> Outcome
        decreases fuel,
    {
        if fuel == 0 || s.frontier.len() == 0 {
            Outcome { trace: s.trace, path: Seq::empty() }
        } else if s.next().idx == self.target {
            Outcome {
                trace: s.popped().trace,
                path: walk_back(s.pred, self.target, s.next().cost as nat),
            }
        } else {
            self.run(self.step(s), (fuel - 1) as nat)
        }
    }

    /// The outcome of the search. Every cell is popped at most once, so
    /// one round per cell is enough.
    pub open spec fn search(self) -> Outcome {
        self.run(self.init(), self.cells() as nat)
    }
}

/// The cells met when walking from `cell` along the predecessor links:
/// `cell` first, then at most `steps` predecessors, ending early at a cell
/// without predecessor.
pub open spec fn walk_back(pred: Map<usize, Option<usize>>, cell: usize, steps: nat) -> Seq<usize>
    decreases steps,
{
    if steps > 0 && pred.contains_key(cell) && pred[cell].is_some() {
        seq![cell] + walk_back(pred, pred[cell].unwrap(), (steps - 1) as nat)
    } else {
        seq![cell]
    }
}

/// The problem that the arguments of a search describe.
pub open spec fn problem(
    walls: Seq<usize>,
    start: usize,
    target: usize,
    dim_x: usize,
    dim_y: usize,
    heuristic: bool,
    diagonals: bool,
) -> Problem {
    Problem { walls: walls.to_set(), start, target, dim_x, dim_y, heuristic, diagonals }
}

} // verus!
