use std::cmp::Ordering;

use blitz_path::cost::COST_MAX;
use blitz_path::cost::DIAGONAL;
use blitz_path::cost::UNIT;
use blitz_path::node::Node;

#[test]
fn new_adds_the_two_costs() {
    let node = Node::new(3, 4, (1, 2), (0, 2));
    assert_eq!(node.f, 7);
    assert_eq!(node.g, 3);
    assert_eq!(node.h, 4);
    assert_eq!(node.position, (1, 2));
    assert_eq!(node.parent, (0, 2));
}

#[test]
fn new_saturates() {
    let node = Node::new(COST_MAX, 1, (0, 0), (0, 0));
    assert_eq!(node.f, COST_MAX);
    let node = Node::new(COST_MAX - 5, 5, (0, 0), (0, 0));
    assert_eq!(node.f, COST_MAX);
    let node = Node::new(COST_MAX - 5, 4, (0, 0), (0, 0));
    assert_eq!(node.f, COST_MAX - 1);
}

#[test]
fn from_parent_measures_both_distances() {
    let parent = Node::new(UNIT, 0, (0, 0), (0, 0));
    let node = Node::from_parent(&parent, (1, 1), (1, 4));
    assert_eq!(node.g, UNIT + DIAGONAL);
    assert_eq!(node.h, 3 * UNIT);
    assert_eq!(node.f, 4 * UNIT + DIAGONAL);
    assert_eq!(node.position, (1, 1));
    assert_eq!(node.parent, (0, 0));
}

#[test]
fn from_parent_spans_a_jump() {
    let parent = Node::new(0, 0, (2, 2), (2, 2));
    let node = Node::from_parent(&parent, (2, 9), (2, 9));
    assert_eq!(node.g, 7 * UNIT);
    assert_eq!(node.h, 0);
    assert_eq!(node.f, 7 * UNIT);
    assert_eq!(node.parent, (2, 2));
}

#[test]
fn from_parent_saturates() {
    let parent = Node::new(COST_MAX - 1, 0, (0, 0), (0, 0));
    let node = Node::from_parent(&parent, (1, 0), (1, 0));
    assert_eq!(node.g, COST_MAX);
    assert_eq!(node.f, COST_MAX);
}

#[test]
fn nodes_are_equal_when_they_stand_on_one_cell() {
    let cheap = Node::new(1, 1, (4, 4), (3, 3));
    let dear = Node::new(9, 9, (4, 4), (5, 5));
    let other = Node::new(1, 1, (4, 5), (3, 3));
    assert!(cheap == dear);
    assert!(cheap != other);
}

#[test]
fn nodes_are_ordered_by_their_estimate_in_reverse() {
    let near = Node::new(1, 1, (0, 0), (0, 0));
    let far = Node::new(5, 5, (9, 9), (0, 0));
    let also_far = Node::new(10, 0, (3, 3), (0, 0));
    assert_eq!(near.partial_cmp(&far), Some(Ordering::Greater));
    assert_eq!(far.partial_cmp(&near), Some(Ordering::Less));
    assert_eq!(far.partial_cmp(&also_far), Some(Ordering::Equal));
    assert!(near > far);
    assert!(far < near);
}
