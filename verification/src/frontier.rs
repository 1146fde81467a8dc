//! The frontier: the cells that were discovered and not yet expanded,
//! handed out lowest priority first. Among entries of equal priority the
//! one that was pushed first leaves first.

use vstd::prelude::*;

verus! {

/// A discovered cell: its index, the number of steps from the start cell
/// along the route on which it was discovered, and its priority.
#[derive(Clone, Copy, Debug)]
pub struct Node {
    pub idx: usize,
    pub cost: usize,
    pub tent_cost: u128,
}

/// `i` is the position of the entry of `s` that leaves next: no entry has a
/// lower priority, and every entry before it has a strictly higher one.
pub open spec fn is_first_min(s: Seq<Node>, i: int) -> bool {
    &&& 0 <= i < s.len()
    &&& forall|j: int| 0 <= j < i ==> s[j].tent_cost > s[i].tent_cost
    &&& forall|j: int| i <= j < s.len() ==> s[j].tent_cost >= s[i].tent_cost
}

/// The position of the entry that leaves a non-empty frontier next.
pub open spec fn first_min_index(s: Seq<Node>) -> int {
    choose|i: int| is_first_min(s, i)
}

/// At most one position of a sequence is its first minimum.
pub proof fn lemma_first_min_unique(s: Seq<Node>, i: int, j: int)
    requires
        is_first_min(s, i),
        is_first_min(s, j),
    ensures
        i == j,
{
    if i < j {
        assert(s[i].tent_cost > s[j].tent_cost);
    } else if j < i {
        assert(s[j].tent_cost > s[i].tent_cost);
    }
}

/// Every non-empty sequence has a first minimum.
pub proof fn lemma_first_min_exists(s: Seq<Node>)
    requires
        s.len() > 0,
    ensures
        is_first_min(s, first_min_index(s)),
    decreases s.len(),
{
    if s.len() == 1 {
        assert(is_first_min(s, 0));
    } else {
        let front = s.drop_last();
        lemma_first_min_exists(front);
        let i = first_min_index(front);
        assert(forall|j: int| 0 <= j < front.len() ==> front[j] == s[j]);
        if s.last().tent_cost < s[i].tent_cost {
            assert(is_first_min(s, s.len() - 1));
        } else {
            assert(is_first_min(s, i));
        }
    }
}

/// A min-priority queue of nodes. Its view is the sequence of waiting
/// nodes in the order in which they were pushed.
pub struct Frontier {
    nodes: Vec<Node>,
}

impl View for Frontier {
    type V = Seq<Node>;

    closed spec fn view(&self) -> Seq<Node> {
        self.nodes@
    }
}

impl Frontier {
    /// An empty frontier.
    pub fn new() -> (frontier: Frontier)
        ensures
            frontier@ == Seq::<Node>::empty(),
    {
        Frontier { nodes: Vec::new() }
    }

    /// Number of waiting nodes.
    pub fn len(&self) -> (n: usize)
        ensures
            n == self@.len(),
    {
        self.nodes.len()
    }

    /// Whether no node is waiting.
    pub fn is_empty(&self) -> (empty: bool)
        ensures
            empty == (self@.len() == 0),
    {
        self.nodes.len() == 0
    }

    /// Adds `node` behind the nodes that are already waiting.
    pub fn push(&mut self, node: Node)
        ensures
            final(self)@ == old(self)@.push(node),
    {
        self.nodes.push(node);
    }

    /// Takes out the node of lowest priority, the earliest pushed among
    /// equals; `None` if the frontier is empty.
    pub fn pop(&mut self) -> (popped: Option<Node>)
        ensures
            old(self)@.len() == 0 ==> popped.is_none() && final(self)@ == old(self)@,
            old(self)@.len() > 0 ==> {
                &&& is_first_min(old(self)@, first_min_index(old(self)@))
                &&& popped == Some(old(self)@[first_min_index(old(self)@)])
                &&& final(self)@ == old(self)@.remove(first_min_index(old(self)@))
            },
    {
        let n = self.nodes.len();
        if n == 0 {
            return None;
        }
        let mut best: usize = 0;
        let mut i: usize = 1;
        while i < n
            invariant
                n == self.nodes.len(),
                1 <= i <= n,
                is_first_min(self.nodes@.take(i as int), best as int),
            decreases n - i,
        {
            if self.nodes[i].tent_cost < self.nodes[best].tent_cost {
                best = i;
            }
            i += 1;
        }
        proof {
            assert(self.nodes@.take(n as int) == self.nodes@);
            lemma_first_min_exists(self.nodes@);
            lemma_first_min_unique(self.nodes@, best as int, first_min_index(self.nodes@));
        }
        Some(self.nodes.remove(best))
    }
}

} // verus!
