//! The open set of a search: the nodes that wait to be explored.

use vstd::prelude::*;
use movingai::Coords2D;
use crate::node::Node;
use crate::utils::find_at;
use crate::utils::find_position;

verus! {

/// The index of the node to explore next: the one with the least `f`, and
/// among several of those the one that was pushed first.
pub open spec fn next_index(nodes: Seq<Node>) -> int
    decreases nodes.len(),
{
    if nodes.len() <= 1 {
        0
    } else {
        let among_earlier = next_index(nodes.drop_last());
        if nodes.last().f < nodes[among_earlier].f {
            nodes.len() - 1
        } else {
            among_earlier
        }
    }
}

/// The node to explore next has the least `f` of all, and every node before
/// it has a greater one.
pub proof fn lemma_next_index(nodes: Seq<Node>)
    requires
        nodes.len() > 0,
    ensures
        0 <= next_index(nodes) < nodes.len(),
        forall|j: int| 0 <= j < nodes.len() ==> (#[trigger] nodes[j]).f >= nodes[next_index(nodes)].f,
        forall|j: int| 0 <= j < next_index(nodes) ==> (#[trigger] nodes[j]).f > nodes[next_index(nodes)].f,
    decreases nodes.len(),
{
    if nodes.len() > 1 {
        let earlier = nodes.drop_last();
        lemma_next_index(earlier);
        assert forall|j: int| 0 <= j < nodes.len() implies (#[trigger] nodes[j]).f >= nodes[next_index(
            nodes,
        )].f by {
            if j < earlier.len() {
                assert(earlier[j] == nodes[j]);
            }
        }
        assert forall|j: int| 0 <= j < next_index(nodes) implies (#[trigger] nodes[j]).f > nodes[next_index(
            nodes,
        )].f by {
            if j < earlier.len() {
                assert(earlier[j] == nodes[j]);
            }
        }
    }
}

/// The nodes that a search has discovered and not yet explored, in the order
/// in which they were pushed. Several nodes may stand on one cell.
pub struct Frontier {
    nodes: Vec<Node>,
}

impl View for Frontier {
    type V = Seq<Node>;

    closed spec fn view(&self) -> Seq<Node> {
        self.nodes@
    }
}

impl Frontier {
    /// An empty frontier.
    pub fn new() -> (frontier: Frontier)
        ensures
            frontier@ == Seq::<Node>::empty(),
    {
        Frontier { nodes: Vec::new() }
    }

    /// The number of nodes that wait.
    pub fn len(&self) -> (len: usize)
        ensures
            len == self@.len(),
    {
        self.nodes.len()
    }

    /// Whether no node waits.
    pub fn is_empty(&self) -> (empty: bool)
        ensures
            empty == (self@.len() == 0),
    {
        self.nodes.len() == 0
    }

    /// Adds a node behind those that wait already.
    pub fn push(&mut self, node: Node)
        ensures
            final(self)@ == old(self)@.push(node),
    {
        self.nodes.push(node);
    }

    /// Takes out the node to explore next: the one with the least `f`, the
    /// earliest of them where several have it. `None` when no node waits.
    pub fn pop(&mut self) -> (node: Option<Node>)
        ensures
            match node {
                None => old(self)@.len() == 0 && final(self)@ == old(self)@,
                Some(least) => {
                    &&& old(self)@.len() > 0
                    &&& least == old(self)@[next_index(old(self)@)]
                    &&& final(self)@ == old(self)@.remove(next_index(old(self)@))
                },
            },
    {
        if self.nodes.len() == 0 {
            return None;
        }
        let mut best: usize = 0;
        let mut i: usize = 1;
        assert(self.nodes@.take(1).len() == 1);
        while i < self.nodes.len()
            invariant
                1 <= i <= self.nodes@.len(),
                best < i,
                best == next_index(self.nodes@.take(i as int)),
            decreases self.nodes@.len() - i,
        {
            proof {
                let upto = self.nodes@.take(i + 1);
                assert(upto.drop_last() == self.nodes@.take(i as int));
                assert(upto.last() == self.nodes@[i as int]);
                assert(upto[best as int] == self.nodes@[best as int]);
            }
            if self.nodes[i].f < self.nodes[best].f {
                best = i;
            }
            i += 1;
        }
        proof {
            assert(self.nodes@.take(i as int) == self.nodes@);
        }
        Some(self.nodes.remove(best))
    }

    /// The first of the waiting nodes that stands on `position`.
    pub fn find(&self, position: Coords2D) -> (node: Option<Node>)
        ensures
            node == find_at(self@, position),
    {
        match find_position(&self.nodes, position) {
            None => None,
            Some(index) => Some(self.nodes[index]),
        }
    }

    /// Hands out the waiting nodes, in the order in which they were pushed.
    pub fn into_vec(self) -> (nodes: Vec<Node>)
        ensures
            nodes@ == self@,
    {
        self.nodes
    }
}

} // verus!
