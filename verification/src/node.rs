//! Search nodes: a cell with the cost of reaching it and a back-pointer.

use core::cmp::Ordering;
use vstd::prelude::*;
use vstd::std_specs::cmp::PartialEqSpecImpl;
use vstd::std_specs::cmp::PartialOrdSpecImpl;
use movingai::Coords2D;
use crate::cost::cost_sum;
use crate::cost::distance;
use crate::cost::distance_spec;

verus! {

/// A cell discovered by a search.
///
/// `g` is the cost of the way by which the cell was reached, `h` the estimate
/// of what is left to the goal, and `f` their sum. `parent` is the cell from
/// which this one was reached; a node that is its own parent has no
/// predecessor. A node is never updated in place: a better way to the same
/// cell is a new node.
#[derive(Debug, Copy, Clone)]
pub struct Node {
    pub f: u64,
    pub g: u64,
    pub h: u64,
    pub position: Coords2D,
    pub parent: Coords2D,
}

impl Node {
    /// The total estimate is the sum of the two costs it is made of.
    pub open spec fn wf(&self) -> bool {
        self.f == cost_sum(self.g, self.h)
    }

    /// The node has no predecessor.
    pub open spec fn is_root(&self) -> bool {
        self.parent == self.position
    }

    /// The node that `new` builds.
    pub open spec fn new_spec(g: u64, h: u64, position: Coords2D, parent: Coords2D) -> Node {
        Node { f: cost_sum(g, h), g, h, position, parent }
    }

    /// The node for `position` when it is reached from `parent` on the way
    /// to `goal`.
    pub open spec fn child_of(parent: Node, position: Coords2D, goal: Coords2D) -> Node {
        Node::new_spec(
            cost_sum(parent.g, distance_spec(parent.position, position)),
            distance_spec(position, goal),
            position,
            parent.position,
        )
    }

    /// Builds a node from its two costs.
    pub fn new(g: u64, h: u64, position: Coords2D, parent: Coords2D) -> (node: Node)
        ensures
            node == Node::new_spec(g, h, position, parent),
            node.wf(),
    {
        Node { f: g.saturating_add(h), g, h, position, parent }
    }

    /// Builds the node for `position` as reached from `parent`: the way
    /// grows by the distance between the two cells, and the estimate is the
    /// distance to `goal`.
    pub fn from_parent(parent: &Node, position: Coords2D, goal: Coords2D) -> (node: Node)
        ensures
            node == Node::child_of(*parent, position, goal),
            node.wf(),
    {
        let distance_to_goal = distance(position, goal);
        let distance_from_parent = distance(parent.position, position);
        let total_distance = parent.g.saturating_add(distance_from_parent);
        Node::new(total_distance, distance_to_goal, position, parent.position)
    }
}

/// Two nodes are equal when they stand on the same cell, whatever their costs.
impl PartialEq for Node {
    fn eq(&self, other: &Node) -> (r: bool) {
        self.position.0 == other.position.0 && self.position.1 == other.position.1
    }
}

impl PartialEqSpecImpl for Node {
    open spec fn obeys_eq_spec() -> bool {
        true
    }

    open spec fn eq_spec(&self, other: &Node) -> bool {
        self.position == other.position
    }
}

impl Eq for Node {

}

/// Nodes are ordered by `f` alone, the smaller estimate being the greater
/// node, so that the greatest node of a collection is the one to explore next.
impl PartialOrd for Node {
    fn partial_cmp(&self, other: &Node) -> (r: Option<Ordering>) {
        if other.f < self.f {
            Some(Ordering::Less)
        } else if other.f > self.f {
            Some(Ordering::Greater)
        } else {
            Some(Ordering::Equal)
        }
    }
}

impl PartialOrdSpecImpl for Node {
    open spec fn obeys_partial_cmp_spec() -> bool {
        true
    }

    open spec fn partial_cmp_spec(&self, other: &Node) -> Option<Ordering> {
        if other.f < self.f {
            Some(Ordering::Less)
        } else if other.f > self.f {
            Some(Ordering::Greater)
        } else {
            Some(Ordering::Equal)
        }
    }
}

} // verus!
