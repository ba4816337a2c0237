use blitz_path::frontier::Frontier;
use blitz_path::node::Node;

#[test]
fn frontier_hands_out_the_least_estimate_first() {
    let mut frontier = Frontier::new();
    assert!(frontier.is_empty());
    frontier.push(Node::new(5, 0, (0, 0), (0, 0)));
    frontier.push(Node::new(3, 0, (1, 0), (0, 0)));
    frontier.push(Node::new(4, 0, (2, 0), (0, 0)));
    assert_eq!(frontier.len(), 3);
    assert_eq!(frontier.pop().unwrap().position, (1, 0));
    assert_eq!(frontier.pop().unwrap().position, (2, 0));
    assert_eq!(frontier.pop().unwrap().position, (0, 0));
    assert!(frontier.pop().is_none());
    assert!(frontier.is_empty());
}

#[test]
fn frontier_orders_by_the_sum_alone() {
    let mut frontier = Frontier::new();
    frontier.push(Node::new(1, 9, (0, 0), (0, 0)));
    frontier.push(Node::new(8, 1, (1, 0), (0, 0)));
    assert_eq!(frontier.pop().unwrap().position, (1, 0));
}

#[test]
fn frontier_breaks_ties_by_age() {
    let mut frontier = Frontier::new();
    frontier.push(Node::new(3, 0, (7, 7), (0, 0)));
    frontier.push(Node::new(2, 1, (8, 8), (0, 0)));
    frontier.push(Node::new(1, 2, (9, 9), (0, 0)));
    assert_eq!(frontier.pop().unwrap().position, (7, 7));
    assert_eq!(frontier.pop().unwrap().position, (8, 8));
    assert_eq!(frontier.pop().unwrap().position, (9, 9));
}

#[test]
fn frontier_keeps_several_nodes_of_one_cell() {
    let mut frontier = Frontier::new();
    frontier.push(Node::new(5, 0, (1, 1), (0, 0)));
    frontier.push(Node::new(3, 0, (1, 1), (2, 2)));
    assert_eq!(frontier.len(), 2);
    let found = frontier.find((1, 1)).unwrap();
    assert_eq!(found.g, 5);
    assert!(frontier.find((1, 2)).is_none());
    assert_eq!(frontier.pop().unwrap().g, 3);
    assert_eq!(frontier.find((1, 1)).unwrap().g, 5);
}

#[test]
fn frontier_hands_out_its_nodes_in_order() {
    let mut frontier = Frontier::new();
    frontier.push(Node::new(5, 0, (0, 0), (0, 0)));
    frontier.push(Node::new(3, 0, (1, 0), (0, 0)));
    let nodes = frontier.into_vec();
    assert_eq!(nodes.len(), 2);
    assert_eq!(nodes[0].position, (0, 0));
    assert_eq!(nodes[1].position, (1, 0));
}
