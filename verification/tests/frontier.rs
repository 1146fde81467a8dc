use wasm_pf::frontier::{Frontier, Node};

fn node(idx: usize, tent_cost: u128) -> Node {
    Node { idx, cost: 0, tent_cost }
}

#[test]
fn empty_frontier_pops_nothing() {
    let mut frontier = Frontier::new();
    assert!(frontier.is_empty());
    assert_eq!(frontier.len(), 0);
    assert!(frontier.pop().is_none());
    assert!(frontier.is_empty());
}

#[test]
fn lowest_priority_leaves_first() {
    let mut frontier = Frontier::new();
    frontier.push(node(1, 5));
    frontier.push(node(2, 3));
    frontier.push(node(3, 9));
    frontier.push(node(4, 1));
    assert_eq!(frontier.len(), 4);
    let order: Vec<usize> = (0..4).map(|_| frontier.pop().unwrap().idx).collect();
    assert_eq!(order, vec![4, 2, 1, 3]);
    assert!(frontier.pop().is_none());
}

#[test]
fn equal_priorities_leave_in_order_of_arrival() {
    let mut frontier = Frontier::new();
    frontier.push(node(10, 2));
    frontier.push(node(11, 1));
    frontier.push(node(12, 2));
    frontier.push(node(13, 1));
    frontier.push(node(14, 2));
    let order: Vec<usize> = (0..5).map(|_| frontier.pop().unwrap().idx).collect();
    assert_eq!(order, vec![11, 13, 10, 12, 14]);
}

#[test]
fn pushes_between_pops_keep_the_order() {
    let mut frontier = Frontier::new();
    frontier.push(node(1, 4));
    frontier.push(node(2, 4));
    assert_eq!(frontier.pop().unwrap().idx, 1);
    frontier.push(node(3, 4));
    frontier.push(node(4, 3));
    assert_eq!(frontier.pop().unwrap().idx, 4);
    assert_eq!(frontier.pop().unwrap().idx, 2);
    assert_eq!(frontier.pop().unwrap().idx, 3);
    assert!(frontier.is_empty());
}

#[test]
fn popped_node_keeps_its_fields() {
    let mut frontier = Frontier::new();
    frontier.push(Node { idx: 7, cost: 3, tent_cost: 11 });
    let popped = frontier.pop().unwrap();
    assert_eq!(popped.idx, 7);
    assert_eq!(popped.cost, 3);
    assert_eq!(popped.tent_cost, 11);
}
