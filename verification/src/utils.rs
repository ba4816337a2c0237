//! Directions, single steps, and the walk back along parent links that
//! turns a found goal node into a path.

use vstd::prelude::*;
use movingai::Coords2D;
use crate::cost::axis_gap;
use crate::cost::gap;
use crate::node::Node;

verus! {

/// How `a` lies to `b` on one axis: 1 when it is greater, -1 when it is
/// smaller, 0 when they are equal.
pub open spec fn sign(a: usize, b: usize) -> i32 {
    if a > b {
        1i32
    } else if a < b {
        -1i32
    } else {
        0i32
    }
}

/// The unit direction in which `current` lies as seen from `parent`.
pub open spec fn direction_spec(current: Coords2D, parent: Coords2D) -> (i32, i32) {
    (sign(current.0, parent.0), sign(current.1, parent.1))
}

/// The cell that lies `direction` away from `node`, if its coordinates exist:
/// no cell lies below zero or above the largest coordinate.
pub open spec fn shift_spec(node: Coords2D, direction: (i32, i32)) -> Option<Coords2D> {
    let x = node.0 + direction.0;
    let y = node.1 + direction.1;
    if 0 <= x <= usize::MAX && 0 <= y <= usize::MAX {
        Some((x as usize, y as usize))
    } else {
        None
    }
}

/// The two cells lie on one row, one column or one diagonal.
pub open spec fn aligned(a: Coords2D, b: Coords2D) -> bool {
    a.0 == b.0 || a.1 == b.1 || gap(a.0, b.0) == gap(a.1, b.1)
}

/// The number of steps from one cell to the other.
pub open spec fn span(a: Coords2D, b: Coords2D) -> nat {
    if gap(a.0, b.0) >= gap(a.1, b.1) {
        gap(a.0, b.0)
    } else {
        gap(a.1, b.1)
    }
}

/// The cell one step from `from` in the direction of `to`.
pub open spec fn toward(from: Coords2D, to: Coords2D) -> Coords2D {
    ((from.0 + sign(to.0, from.0)) as usize, (from.1 + sign(to.1, from.1)) as usize)
}

/// The cells passed on the way from `from` to `to`, both ends left out, in
/// the order in which they are passed.
pub open spec fn between(from: Coords2D, to: Coords2D) -> Seq<Coords2D>
    decreases span(from, to),
{
    if span(from, to) <= 1 {
        Seq::<Coords2D>::empty()
    } else {
        seq![toward(from, to)] + between(toward(from, to), to)
    }
}

/// The first of the nodes from index `from` on that stands on `position`.
pub open spec fn find_from(nodes: Seq<Node>, position: Coords2D, from: int) -> Option<Node>
    decreases nodes.len() - from,
{
    if from < 0 || from >= nodes.len() {
        None
    } else if nodes[from].position == position {
        Some(nodes[from])
    } else {
        find_from(nodes, position, from + 1)
    }
}

/// The index of the first of the nodes from index `from` on that stands on
/// `position`.
pub open spec fn index_from(nodes: Seq<Node>, position: Coords2D, from: int) -> Option<int>
    decreases nodes.len() - from,
{
    if from < 0 || from >= nodes.len() {
        None
    } else if nodes[from].position == position {
        Some(from)
    } else {
        index_from(nodes, position, from + 1)
    }
}

/// The index of the first of the nodes that stands on `position`.
pub open spec fn index_at(nodes: Seq<Node>, position: Coords2D) -> Option<int> {
    index_from(nodes, position, 0)
}

/// The first of the nodes that stands on `position`.
pub open spec fn find_at(nodes: Seq<Node>, position: Coords2D) -> Option<Node> {
    find_from(nodes, position, 0)
}

/// The cells that follow `position` on the walk back along parent links.
///
/// Each link leads to the first node of `closed` that stands on the parent
/// cell; the cells between the two are filled in, then that node's cell is
/// added and the walk goes on from it. The walk ends at a node without
/// predecessor. There is no walk when a parent is missing from `closed`, when
/// a parent does not lie on a straight line with its child, or when more
/// links are followed than `fuel` allows.
pub open spec fn trail(position: Coords2D, parent: Coords2D, closed: Seq<Node>, fuel: nat) -> Option<
    Seq<Coords2D>,
>
    decreases fuel,
{
    if parent == position {
        Some(Seq::<Coords2D>::empty())
    } else if fuel == 0 || !aligned(position, parent) {
        None
    } else {
        match find_at(closed, parent) {
            None => None,
            Some(step) => match trail(step.position, step.parent, closed, (fuel - 1) as nat) {
                None => None,
                Some(rest) => Some(between(position, parent).push(step.position) + rest),
            },
        }
    }
}

/// The path that `rewind` builds from `start`: its cell, then the walk back
/// along parent links. A walk through `closed` that does not come back to a
/// cell takes no more links than `closed` has nodes, and is cut off there.
pub open spec fn trace(start: Node, closed: Seq<Node>) -> Option<Seq<Coords2D>> {
    match trail(start.position, start.parent, closed, closed.len()) {
        None => None,
        Some(rest) => Some(seq![start.position] + rest),
    }
}

/// How `a` lies to `b` on one axis.
fn axis_sign(a: usize, b: usize) -> (s: i32)
    ensures
        s == sign(a, b),
{
    if a > b {
        1
    } else if a < b {
        -1
    } else {
        0
    }
}

/// The unit direction in which `current` lies as seen from `parent`: each
/// component is -1, 0 or 1.
pub fn direction(current: Coords2D, parent: Coords2D) -> (d: (i32, i32))
    ensures
        d == direction_spec(current, parent),
{
    (axis_sign(current.0, parent.0), axis_sign(current.1, parent.1))
}

/// The cell that lies `direction` away from `node`, or `None` when that
/// leaves the range of coordinates.
pub fn shift(node: Coords2D, direction: (i32, i32)) -> (cell: Option<Coords2D>)
    ensures
        cell == shift_spec(node, direction),
{
    match node.0.checked_add_signed(direction.0 as isize) {
        None => None,
        Some(x) => match node.1.checked_add_signed(direction.1 as isize) {
            None => None,
            Some(y) => Some((x, y)),
        },
    }
}

/// Whether the two cells lie on one row, one column or one diagonal.
pub fn is_aligned(a: Coords2D, b: Coords2D) -> (r: bool)
    ensures
        r == aligned(a, b),
{
    a.0 == b.0 || a.1 == b.1 || axis_gap(a.0, b.0) == axis_gap(a.1, b.1)
}

/// The index of the first of the nodes that stands on `position`.
pub fn find_position(nodes: &Vec<Node>, position: Coords2D) -> (index: Option<usize>)
    ensures
        match index {
            Some(i) => i < nodes@.len() && find_at(nodes@, position) == Some(nodes@[i as int])
                && nodes@[i as int].position == position && index_at(nodes@, position) == Some(
                i as int,
            ),
            None => find_at(nodes@, position) is None && index_at(nodes@, position) is None,
        },
        forall|j: int|
            0 <= j < nodes@.len() && (index matches Some(i) ==> j < i)
                ==> (#[trigger] nodes@[j]).position != position,
{
    let mut i: usize = 0;
    while i < nodes.len()
        invariant
            i <= nodes@.len(),
            find_at(nodes@, position) == find_from(nodes@, position, i as int),
            index_at(nodes@, position) == index_from(nodes@, position, i as int),
            forall|j: int| 0 <= j < i ==> (#[trigger] nodes@[j]).position != position,
        decreases nodes@.len() - i,
    {
        if nodes[i].position.0 == position.0 && nodes[i].position.1 == position.1 {
            return Some(i);
        }
        i += 1;
    }
    None
}

/// One step toward `to` shortens the way by one.
pub proof fn lemma_toward(from: Coords2D, to: Coords2D)
    requires
        from != to,
    ensures
        span(toward(from, to), to) == span(from, to) - 1,
        shift_spec(from, direction_spec(to, from)) == Some(toward(from, to)),
        aligned(from, to) ==> aligned(toward(from, to), to),
        aligned(from, to) && toward(from, to) != to ==> direction_spec(to, toward(from, to))
            == direction_spec(to, from),
        span(from, to) == 1 <==> toward(from, to) == to,
{
}

/// Rebuilds the path from a found node back to the start of the search.
///
/// The path begins with the cell of `start` and follows the parent links
/// through `closed` until it meets a node without predecessor. Where a link
/// spans more than one cell, the cells between are filled in, so that the
/// path moves one cell at a time. The result is `None` when the links do not
/// lead back to such a node.
pub fn rewind(start: &Node, closed: &Vec<Node>) -> (path: Option<Vec<Coords2D>>)
    ensures
        match path {
            Some(cells) => trace(*start, closed@) == Some(cells@),
            None => trace(*start, closed@) is None,
        },
{
    let mut path: Vec<Coords2D> = Vec::new();
    path.push(start.position);

    let mut parent = start.parent;
    let mut node = start.position;
    let mut fuel: usize = closed.len();

    while parent.0 != node.0 || parent.1 != node.1
        invariant
            fuel <= closed@.len(),
            trace(*start, closed@) == match trail(node, parent, closed@, fuel as nat) {
                None => None::<Seq<Coords2D>>,
                Some(rest) => Some(path@ + rest),
            },
        decreases fuel,
    {
        if fuel == 0 || !is_aligned(node, parent) {
            return None;
        }
        let step = match find_position(closed, parent) {
            None => {
                return None;
            },
            Some(index) => closed[index],
        };
        let ghost before = path@;
        let direction = direction(parent, node);
        let mut current = node;
        proof {
            lemma_toward(current, parent);
        }
        let mut next = shift(current, direction).unwrap();

        //Push intermediate cells if any
        while next.0 != parent.0 || next.1 != parent.1
            invariant
                current != parent,
                aligned(current, parent),
                direction == direction_spec(parent, current),
                next == toward(current, parent),
                before + between(node, parent) == path@ + between(current, parent),
            decreases span(current, parent),
        {
            path.push(next);
            proof {
                assert(between(current, parent) == seq![next] + between(next, parent));
                assert(path@ + between(next, parent) == before + between(node, parent));
                lemma_toward(current, parent);
                lemma_toward(next, parent);
            }
            current = next;
            next = shift(current, direction).unwrap();
        }
        proof {
            lemma_toward(current, parent);
            assert(between(current, parent) == Seq::<Coords2D>::empty());
            assert(path@ == before + between(node, parent));
        }

        //Push the step itself
        path.push(step.position);
        proof {
            let rest = trail(step.position, step.parent, closed@, (fuel - 1) as nat);
            if rest is Some {
                assert(before + (between(node, parent).push(step.position) + rest.unwrap())
                    == path@ + rest.unwrap());
            }
        }
        parent = step.parent;
        node = step.position;
        fuel -= 1;
    }
    proof {
        assert(path@ + Seq::<Coords2D>::empty() == path@);
    }
    Some(path)
}

} // verus!
