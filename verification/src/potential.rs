//! The measure by which the best-first search is seen to end.

use vstd::prelude::*;
use crate::cost::UNIT;
use crate::node::Node;

verus! {

/// Nine to the power of `level`.
pub open spec fn weight_at(level: nat) -> nat
    decreases level,
{
    if level == 0 {
        1
    } else {
        9 * weight_at((level - 1) as nat)
    }
}

/// What a waiting node of cost `g` may still cause to be explored: the
/// further a node is from the start, the less.
pub open spec fn weight(g: u64) -> nat {
    weight_at((UNIT - g / UNIT) as nat)
}

/// The weights of the waiting nodes together. Exploring a node takes its
/// weight out and puts in at most eight ninths of it, so the search ends.
pub open spec fn potential(nodes: Seq<Node>) -> nat
    decreases nodes.len(),
{
    if nodes.len() == 0 {
        0
    } else {
        potential(nodes.drop_last()) + weight(nodes.last().g)
    }
}

/// The weight grows with the level and is never below one.
pub proof fn lemma_weight_at_monotone(a: nat, b: nat)
    requires
        a <= b,
    ensures
        weight_at(a) <= weight_at(b),
        weight_at(a) >= 1,
    decreases b,
{
    if a < b {
        lemma_weight_at_monotone(a, (b - 1) as nat);
    } else if a > 0 {
        lemma_weight_at_monotone((a - 1) as nat, (a - 1) as nat);
    }
}

/// A node that lies a step or more further from the start weighs at most a
/// ninth.
pub proof fn lemma_weight_of_successor(g: u64, further: u64)
    requires
        g + UNIT <= further,
    ensures
        9 * weight(further) <= weight(g),
        weight(further) >= 1,
{
    let level = (UNIT - g / UNIT) as nat;
    let next = (UNIT - further / UNIT) as nat;
    assert(further / UNIT >= g / UNIT + 1);
    assert(further / UNIT < UNIT);
    lemma_weight_at_monotone(next, (level - 1) as nat);
}

/// A node that joins the frontier adds its weight.
pub proof fn lemma_potential_push(nodes: Seq<Node>, node: Node)
    ensures
        potential(nodes.push(node)) == potential(nodes) + weight(node.g),
{
    assert(nodes.push(node).drop_last() == nodes);
}

/// A node that leaves the frontier takes its weight along.
pub proof fn lemma_potential_remove(nodes: Seq<Node>, index: int)
    requires
        0 <= index < nodes.len(),
    ensures
        potential(nodes.remove(index)) + weight(nodes[index].g) == potential(nodes),
    decreases nodes.len(),
{
    if index == nodes.len() - 1 {
        assert(nodes.remove(index) == nodes.drop_last());
    } else {
        lemma_potential_remove(nodes.drop_last(), index);
        assert(nodes.remove(index).drop_last() == nodes.drop_last().remove(index));
    }
}

} // verus!
