//! What holds of every state that a search passes through.

use crate::frontier::{first_min_index, lemma_first_min_exists, Node};
use crate::grid::lemma_neighbors_in_grid;
use crate::model::{Problem, SearchState};
use vstd::prelude::*;
use vstd::set_lib::{lemma_len_subset, range_set_properties};

verus! {

/// Bookkeeping that the search itself does not keep: the number of steps
/// at which every visited cell was discovered, and the cells whose
/// neighbours have all been looked at.
pub struct Witness {
    pub depth: Map<usize, int>,
    pub closed: Set<usize>,
}

/// Some node of `f` stands for the cell `v`.
pub open spec fn in_frontier(f: Seq<Node>, v: usize) -> bool {
    exists|i: int| 0 <= i < f.len() && (#[trigger] f[i]).idx == v
}

/// The number of nodes that may still be popped: the waiting ones and one
/// for every cell that is not visited yet.
pub open spec fn budget(p: Problem, s: SearchState) -> int {
    s.frontier.len() + p.cells() - s.visited.len()
}

/// The visited cells are cells of the grid, the start is one of them, and
/// every visited cell has a depth below the number of visited cells.
pub open spec fn cells_ok(p: Problem, s: SearchState, w: Witness) -> bool {
    &&& p.valid()
    &&& s.visited.finite()
    &&& s.visited.len() <= p.cells()
    &&& s.visited.contains(p.start)
    &&& s.pred.dom() == s.visited
    &&& w.depth.dom() == s.visited
    &&& s.pred[p.start].is_none()
    &&& w.depth[p.start] == 0
    &&& forall|v: usize| #[trigger]
        s.visited.contains(v) ==> v < p.cells() && 0 <= w.depth[v] < s.visited.len()
}

/// The cell `v` is no wall and is linked to a visited cell of which it is a
/// neighbour and which lies one step nearer to the start.
pub open spec fn link_ok(p: Problem, s: SearchState, w: Witness, v: usize) -> bool {
    &&& !p.walls.contains(v)
    &&& s.pred[v].is_some()
    &&& s.visited.contains(s.pred[v].unwrap())
    &&& p.neighbors_of(s.pred[v].unwrap()).contains(v)
    &&& w.depth[v] == w.depth[s.pred[v].unwrap()] + 1
}

/// Every visited cell but the start is linked towards the start.
pub open spec fn links_ok(p: Problem, s: SearchState, w: Witness) -> bool {
    forall|v: usize| s.visited.contains(v) && v != p.start ==> #[trigger] link_ok(p, s, w, v)
}

/// The waiting nodes stand for distinct visited cells that are not closed,
/// and carry the depth of their cell as cost. Without the heuristic the
/// priority of a node is its cost.
pub open spec fn frontier_ok(p: Problem, s: SearchState, w: Witness) -> bool {
    &&& forall|i: int|
        0 <= i < s.frontier.len() ==> {
            let n = #[trigger] s.frontier[i];
            &&& s.visited.contains(n.idx)
            &&& !w.closed.contains(n.idx)
            &&& n.cost == w.depth[n.idx]
            &&& !p.heuristic ==> n.tent_cost == n.cost
        }
    &&& forall|i: int, j: int|
        0 <= i < j < s.frontier.len() ==> (#[trigger] s.frontier[i]).idx != (
        #[trigger] s.frontier[j]).idx
}

/// The closed cells are visited, the target is not closed, and every
/// neighbour of a closed cell that is no wall is visited. Without the
/// heuristic such a neighbour lies at most one step deeper than the cell.
pub open spec fn closed_ok(p: Problem, s: SearchState, w: Witness) -> bool {
    &&& !w.closed.contains(p.target)
    &&& forall|v: usize| #[trigger] w.closed.contains(v) ==> s.visited.contains(v)
    &&& forall|u: usize, v: usize|
        w.closed.contains(u) && #[trigger] p.neighbors_of(u).contains(v) && !p.walls.contains(v)
            ==> s.visited.contains(v) && (!p.heuristic ==> w.depth[v] <= w.depth[u] + 1)
}

/// Only visited cells are in the trace.
pub open spec fn trace_ok(s: SearchState) -> bool {
    forall|k: int| 0 <= k < s.trace.len() ==> s.visited.contains(#[trigger] s.trace[k])
}

/// What holds between two rounds of the search and within a round.
pub open spec fn base(p: Problem, s: SearchState, w: Witness) -> bool {
    &&& cells_ok(p, s, w)
    &&& links_ok(p, s, w)
    &&& frontier_ok(p, s, w)
    &&& closed_ok(p, s, w)
    &&& trace_ok(s)
}

/// What holds between two rounds of the search: every visited cell is
/// closed or waits in the frontier, and without the heuristic no visited
/// cell lies more than one step deeper than a waiting node.
pub open spec fn inv(p: Problem, s: SearchState, w: Witness) -> bool {
    &&& base(p, s, w)
    &&& forall|v: usize| #[trigger]
        s.visited.contains(v) ==> w.closed.contains(v) || in_frontier(s.frontier, v)
    &&& !p.heuristic ==> forall|v: usize, i: int|
        #[trigger] s.visited.contains(v) && 0 <= i < s.frontier.len() ==> w.depth[v] <= (
        #[trigger] s.frontier[i]).cost + 1
}

/// What holds within a round, while the neighbours of the popped node `u`
/// are looked at and those in `done` have been.
pub open spec fn mid(p: Problem, s: SearchState, w: Witness, u: Node, done: Seq<usize>) -> bool {
    &&& base(p, s, w)
    &&& s.visited.contains(u.idx)
    &&& !w.closed.contains(u.idx)
    &&& u.idx != p.target
    &&& u.cost == w.depth[u.idx]
    &&& !in_frontier(s.frontier, u.idx)
    &&& forall|v: usize| #[trigger]
        s.visited.contains(v) ==> w.closed.contains(v) || in_frontier(s.frontier, v) || v
            == u.idx
    &&& forall|v: usize| #[trigger]
        done.contains(v) && !p.walls.contains(v) ==> s.visited.contains(v)
    &&& !p.heuristic ==> {
        &&& forall|v: usize| #[trigger] s.visited.contains(v) ==> w.depth[v] <= u.cost + 1
        &&& forall|i: int|
            0 <= i < s.frontier.len() ==> u.cost <= (#[trigger] s.frontier[i]).cost
    }
}

/// The witness with which a search begins.
pub open spec fn init_witness(p: Problem) -> Witness {
    Witness { depth: map![p.start => 0int], closed: Set::empty() }
}

/// A finite set of cells of the grid has at most as many elements as the
/// grid has cells.
pub proof fn lemma_cells_bounded(p: Problem, cells: Set<usize>)
    requires
        0 <= p.cells() <= usize::MAX,
        forall|v: usize| cells.contains(v) ==> v < p.cells(),
    ensures
        cells.finite(),
        cells.len() <= p.cells(),
{
    let n = p.cells() as usize;
    range_set_properties::<usize>(0, n);
    let all = Set::<usize>::range(0, n);
    assert(cells.subset_of(all));
    lemma_len_subset(cells, all);
}

/// The first state of a search meets the invariant.
pub proof fn lemma_init(p: Problem)
    requires
        p.valid(),
    ensures
        inv(p, p.init(), init_witness(p)),
        budget(p, p.init()) == p.cells(),
{
    let s = p.init();
    let w = init_witness(p);
    assert(s.visited.len() == 1);
    assert(s.pred.dom() =~= s.visited);
    assert(w.depth.dom() =~= s.visited);
    assert(s.frontier[0] == p.start_node());
    assert(in_frontier(s.frontier, p.start));
    assert(cells_ok(p, s, w));
    assert(links_ok(p, s, w));
    assert(frontier_ok(p, s, w));
    assert(closed_ok(p, s, w));
}

/// Popping the next node, which is not the target, opens a round.
pub proof fn lemma_pop(p: Problem, s: SearchState, w: Witness)
    requires
        inv(p, s, w),
        s.frontier.len() > 0,
        s.next().idx != p.target,
    ensures
        mid(p, s.popped(), w, s.next(), Seq::empty()),
        budget(p, s.popped()) == budget(p, s) - 1,
{
    let f = s.frontier;
    let i = first_min_index(f);
    lemma_first_min_exists(f);
    let u = s.next();
    let t = s.popped();
    let g = t.frontier;
    assert(g.len() == f.len() - 1);
    assert forall|k: int| 0 <= k < g.len() implies #[trigger] g[k] == f[if k < i {
        k
    } else {
        k + 1
    }] by {}
    assert(frontier_ok(p, t, w)) by {
        assert forall|k: int| 0 <= k < g.len() implies {
            let n = #[trigger] g[k];
            &&& t.visited.contains(n.idx)
            &&& !w.closed.contains(n.idx)
            &&& n.cost == w.depth[n.idx]
            &&& !p.heuristic ==> n.tent_cost == n.cost
        } by {
            let k0 = if k < i {
                k
            } else {
                k + 1
            };
            assert(g[k] == f[k0]);
        }
        assert forall|a: int, b: int| 0 <= a < b < g.len() implies (#[trigger] g[a]).idx != (
        #[trigger] g[b]).idx by {
            let a0 = if a < i {
                a
            } else {
                a + 1
            };
            let b0 = if b < i {
                b
            } else {
                b + 1
            };
            assert(g[a] == f[a0] && g[b] == f[b0]);
        }
    }
    assert(trace_ok(t)) by {
        assert forall|k: int| 0 <= k < t.trace.len() implies t.visited.contains(
            #[trigger] t.trace[k],
        ) by {
            if k < s.trace.len() {
                assert(t.trace[k] == s.trace[k]);
            }
        }
    }
    assert(cells_ok(p, t, w));
    assert(links_ok(p, t, w)) by {
        assert forall|v: usize| t.visited.contains(v) && v != p.start implies #[trigger] link_ok(
            p,
            t,
            w,
            v,
        ) by {
            assert(link_ok(p, s, w, v));
        }
    }
    assert(closed_ok(p, t, w));
    assert(!in_frontier(g, u.idx)) by {
        if in_frontier(g, u.idx) {
            let k = choose|k: int| 0 <= k < g.len() && (#[trigger] g[k]).idx == u.idx;
            let k0 = if k < i {
                k
            } else {
                k + 1
            };
            assert(g[k] == f[k0]);
            assert(f[k0].idx == f[i].idx);
        }
    }
    assert forall|v: usize| #[trigger] t.visited.contains(v) implies w.closed.contains(v)
        || in_frontier(g, v) || v == u.idx by {
        if !w.closed.contains(v) && v != u.idx {
            assert(in_frontier(f, v));
            let k0 = choose|k: int| 0 <= k < f.len() && (#[trigger] f[k]).idx == v;
            let k = if k0 < i {
                k0
            } else {
                k0 - 1
            };
            assert(g[k] == f[k0]);
        }
    }
    assert(Seq::<usize>::empty().len() == 0);
    if !p.heuristic {
        assert forall|v: usize| #[trigger] t.visited.contains(v) implies w.depth[v] <= u.cost
            + 1 by {
            assert(w.depth[v] <= f[i].cost + 1);
        }
        assert forall|k: int| 0 <= k < g.len() implies u.cost <= (#[trigger] g[k]).cost by {
            let k0 = if k < i {
                k
            } else {
                k + 1
            };
            assert(g[k] == f[k0]);
            assert(f[k0].tent_cost >= f[i].tent_cost);
        }
    }
}

/// The witness after `adj` was looked at as a neighbour of `u`.
pub open spec fn discover_witness(p: Problem, s: SearchState, w: Witness, u: Node, adj: usize)
    -> Witness {
    if p.walls.contains(adj) || s.visited.contains(adj) {
        w
    } else {
        Witness { depth: w.depth.insert(adj, u.cost + 1), closed: w.closed }
    }
}

/// Looking at one more neighbour of the popped node keeps the round going.
pub proof fn lemma_discover(
    p: Problem,
    s: SearchState,
    w: Witness,
    u: Node,
    done: Seq<usize>,
    adj: usize,
)
    requires
        mid(p, s, w, u, done),
        p.neighbors_of(u.idx).contains(adj),
        adj < p.cells(),
    ensures
        mid(p, p.discover(s, u, adj), discover_witness(p, s, w, u, adj), u, done.push(adj)),
        budget(p, p.discover(s, u, adj)) == budget(p, s),
{
    let t = p.discover(s, u, adj);
    let w2 = discover_witness(p, s, w, u, adj);
    let done2 = done.push(adj);
    assert forall|v: usize| #[trigger] done2.contains(v) implies v == adj || done.contains(v) by {
        let k = choose|k: int| 0 <= k < done2.len() && done2[k] == v;
        if k < done.len() {
            assert(done[k] == v);
        }
    }
    if p.walls.contains(adj) || s.visited.contains(adj) {
        assert(t == s);
    } else {
        let f = s.frontier;
        let n = p.child_node(u, adj);
        let g = t.frontier;
        assert(g == f.push(n));
        assert(u.cost + 1 <= usize::MAX);
        assert(n.cost == u.cost + 1);
        assert(!p.heuristic ==> n.tent_cost == u.cost + 1);
        assert(t.visited.len() == s.visited.len() + 1);
        assert(forall|v: usize| #[trigger]
            t.visited.contains(v) ==> v == adj || s.visited.contains(v));
        assert(t.pred.dom() =~= t.visited);
        assert(w2.depth.dom() =~= t.visited);
        assert(cells_ok(p, t, w2)) by {
            lemma_cells_bounded(p, t.visited);
            assert forall|v: usize| #[trigger] t.visited.contains(v) implies v < p.cells() && 0
                <= w2.depth[v] < t.visited.len() by {
                if v != adj {
                    assert(s.visited.contains(v));
                }
            }
        }
        assert(links_ok(p, t, w2)) by {
            assert forall|v: usize| t.visited.contains(v) && v != p.start implies #[trigger] link_ok(
                p,
                t,
                w2,
                v,
            ) by {
                if v != adj {
                    assert(link_ok(p, s, w, v));
                }
            }
        }
        assert(frontier_ok(p, t, w2)) by {
            assert forall|i: int| 0 <= i < g.len() implies {
                let m = #[trigger] g[i];
                &&& t.visited.contains(m.idx)
                &&& !w2.closed.contains(m.idx)
                &&& m.cost == w2.depth[m.idx]
                &&& !p.heuristic ==> m.tent_cost == m.cost
            } by {
                if i < f.len() {
                    assert(g[i] == f[i]);
                    assert(s.visited.contains(f[i].idx));
                }
            }
            assert forall|i: int, j: int| 0 <= i < j < g.len() implies (#[trigger] g[i]).idx != (
            #[trigger] g[j]).idx by {
                assert(g[i] == f[i]);
                assert(s.visited.contains(f[i].idx));
                if j < f.len() {
                    assert(g[j] == f[j]);
                }
            }
        }
        assert(closed_ok(p, t, w2)) by {
            assert forall|a: usize, b: usize|
                w2.closed.contains(a) && #[trigger] p.neighbors_of(a).contains(b)
                    && !p.walls.contains(b) implies t.visited.contains(b) && (!p.heuristic
                ==> w2.depth[b] <= w2.depth[a] + 1) by {
                assert(s.visited.contains(a));
                assert(s.visited.contains(b));
            }
        }
        assert(trace_ok(t)) by {
            assert forall|k: int| 0 <= k < t.trace.len() implies t.visited.contains(
                #[trigger] t.trace[k],
            ) by {
                if k < s.trace.len() {
                    assert(t.trace[k] == s.trace[k]);
                }
            }
        }
        assert(!in_frontier(g, u.idx)) by {
            if in_frontier(g, u.idx) {
                let k = choose|k: int| 0 <= k < g.len() && (#[trigger] g[k]).idx == u.idx;
                if k < f.len() {
                    assert(g[k] == f[k]);
                }
            }
        }
        assert forall|v: usize| #[trigger] t.visited.contains(v) implies w2.closed.contains(v)
            || in_frontier(g, v) || v == u.idx by {
            if v == adj {
                assert(g[f.len() as int].idx == adj);
            } else if !w.closed.contains(v) && v != u.idx {
                let k = choose|k: int| 0 <= k < f.len() && (#[trigger] f[k]).idx == v;
                assert(g[k] == f[k]);
            }
        }
        if !p.heuristic {
            assert forall|i: int| 0 <= i < g.len() implies u.cost <= (#[trigger] g[i]).cost by {
                if i < f.len() {
                    assert(g[i] == f[i]);
                }
            }
        }
    }
}

/// The witness after the cells of `adjs` were looked at as neighbours of `u`.
pub open spec fn expand_witness(p: Problem, s: SearchState, w: Witness, u: Node, adjs: Seq<usize>)
    -> Witness
    decreases adjs.len(),
{
    if adjs.len() == 0 {
        w
    } else {
        discover_witness(
            p,
            p.expand(s, u, adjs.drop_last()),
            expand_witness(p, s, w, u, adjs.drop_last()),
            u,
            adjs.last(),
        )
    }
}

/// Looking at some neighbours of the popped node keeps the round going.
pub proof fn lemma_expand(p: Problem, s: SearchState, w: Witness, u: Node, adjs: Seq<usize>)
    requires
        mid(p, s, w, u, Seq::empty()),
        forall|k: int|
            0 <= k < adjs.len() ==> p.neighbors_of(u.idx).contains(#[trigger] adjs[k])
                && adjs[k] < p.cells(),
    ensures
        mid(p, p.expand(s, u, adjs), expand_witness(p, s, w, u, adjs), u, adjs),
        budget(p, p.expand(s, u, adjs)) == budget(p, s),
    decreases adjs.len(),
{
    if adjs.len() == 0 {
        assert(adjs =~= Seq::empty());
    } else {
        let front = adjs.drop_last();
        assert forall|k: int| 0 <= k < front.len() implies p.neighbors_of(u.idx).contains(
            #[trigger] front[k],
        ) && front[k] < p.cells() by {
            assert(front[k] == adjs[k]);
        }
        lemma_expand(p, s, w, u, front);
        lemma_discover(
            p,
            p.expand(s, u, front),
            expand_witness(p, s, w, u, front),
            u,
            front,
            adjs.last(),
        );
        assert(front.push(adjs.last()) =~= adjs);
    }
}

/// The witness after a round: what was discovered has its depth, and the
/// popped cell is closed.
pub open spec fn step_witness(p: Problem, s: SearchState, w: Witness) -> Witness {
    let mid = expand_witness(p, s.popped(), w, s.next(), p.neighbors_of(s.next().idx));
    Witness { depth: mid.depth, closed: mid.closed.insert(s.next().idx) }
}

/// A round that does not pop the target keeps the invariant and uses up
/// one unit of the budget.
pub proof fn lemma_step(p: Problem, s: SearchState, w: Witness)
    requires
        inv(p, s, w),
        s.frontier.len() > 0,
        s.next().idx != p.target,
    ensures
        inv(p, p.step(s), step_witness(p, s, w)),
        budget(p, p.step(s)) == budget(p, s) - 1,
{
    let u = s.next();
    let adjs = p.neighbors_of(u.idx);
    lemma_pop(p, s, w);
    lemma_neighbors_in_grid(u.idx, p.dim_x, p.dim_y, p.diagonals);
    assert forall|k: int| 0 <= k < adjs.len() implies adjs.contains(#[trigger] adjs[k]) by {}
    lemma_expand(p, s.popped(), w, u, adjs);
    let t = p.step(s);
    let m = expand_witness(p, s.popped(), w, u, adjs);
    let w2 = step_witness(p, s, w);
    assert(cells_ok(p, t, w2));
    assert(links_ok(p, t, w2)) by {
        assert forall|v: usize| t.visited.contains(v) && v != p.start implies #[trigger] link_ok(
            p,
            t,
            w2,
            v,
        ) by {
            assert(link_ok(p, t, m, v));
        }
    }
    assert(frontier_ok(p, t, w2)) by {
        assert forall|i: int| 0 <= i < t.frontier.len() implies {
            let n = #[trigger] t.frontier[i];
            &&& t.visited.contains(n.idx)
            &&& !w2.closed.contains(n.idx)
            &&& n.cost == w2.depth[n.idx]
            &&& !p.heuristic ==> n.tent_cost == n.cost
        } by {
            assert(!in_frontier(t.frontier, u.idx));
        }
    }
    assert(closed_ok(p, t, w2));
    if !p.heuristic {
        assert forall|v: usize, i: int| #[trigger]
            t.visited.contains(v) && 0 <= i < t.frontier.len() implies w2.depth[v] <= (
        #[trigger] t.frontier[i]).cost + 1 by {
            assert(w2.depth[v] <= u.cost + 1);
            assert(u.cost <= t.frontier[i].cost);
        }
    }
}

} // verus!
