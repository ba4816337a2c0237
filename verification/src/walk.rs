//! What holds of the paths that the walk back along parent links builds.

use vstd::prelude::*;
use movingai::Coords2D;
use movingai::MovingAiMap;
use crate::cost::cost_sum;
use crate::cost::distance_spec;
use crate::grid::adjacent;
use crate::grid::map_neighbors;
use crate::grid::traversable;
use crate::node::Node;
use crate::utils::aligned;
use crate::utils::between;
use crate::utils::find_at;
use crate::utils::find_from;
use crate::utils::lemma_toward;
use crate::utils::span;
use crate::utils::toward;
use crate::utils::trace;
use crate::utils::trail;

verus! {

/// Each cell touches the next: the path moves one cell at a time.
pub open spec fn is_path(cells: Seq<Coords2D>) -> bool {
    forall|i: int| 0 <= i < cells.len() - 1 ==> adjacent(#[trigger] cells[i], cells[i + 1])
}

/// Each cell can be entered from the one after it in one move of the map:
/// read from its end, the sequence is a walk over the map.
pub open spec fn is_walk_back(map: MovingAiMap, cells: Seq<Coords2D>) -> bool {
    forall|i: int|
        0 <= i < cells.len() - 1 ==> map_neighbors(map, cells[i + 1]).contains(#[trigger] cells[i])
}

/// Each cell can be entered from the one before it in one move of the map.
pub open spec fn is_walk(map: MovingAiMap, cells: Seq<Coords2D>) -> bool {
    forall|i: int|
        0 <= i < cells.len() - 1 ==> map_neighbors(map, #[trigger] cells[i]).contains(cells[i + 1])
}

/// The cost of moving along the cells: the sum of the distances between each
/// cell and the next.
pub open spec fn walk_cost(cells: Seq<Coords2D>) -> nat
    decreases cells.len(),
{
    if cells.len() <= 1 {
        0
    } else {
        walk_cost(cells.drop_last()) + distance_spec(cells[cells.len() - 2], cells.last()) as nat
    }
}

/// Some walk over the map leads from `start` to `cell` and costs `cost`.
#[verifier::opaque]
pub open spec fn reached_at(map: MovingAiMap, start: Coords2D, cell: Coords2D, cost: nat) -> bool {
    exists|cells: Seq<Coords2D>|
        #![auto]
        cells.len() > 0 && cells.first() == start && cells.last() == cell && is_walk(map, cells)
            && walk_cost(cells) == cost
}

/// Some walk over the map leads from `start` to `goal`.
pub open spec fn connected(map: MovingAiMap, start: Coords2D, goal: Coords2D) -> bool {
    exists|cost: nat| reached_at(map, start, goal, cost)
}

/// All cells but the first and the last are traversable.
pub open spec fn crosses_free_cells(map: MovingAiMap, cells: Seq<Coords2D>) -> bool {
    forall|i: int| 0 < i < cells.len() - 1 ==> traversable(map, #[trigger] cells[i])
}

/// The node was reached from its parent by one move of the map, unless it has
/// no predecessor.
pub open spec fn moved_from_parent(map: MovingAiMap, node: Node) -> bool {
    node.is_root() || (adjacent(node.parent, node.position) && map_neighbors(
        map,
        node.parent,
    ).contains(node.position))
}

/// A node found on a cell stands on it and is one of the nodes searched.
pub proof fn lemma_find_from(nodes: Seq<Node>, position: Coords2D, from: int)
    requires
        0 <= from,
    ensures
        match find_from(nodes, position, from) {
            Some(node) => node.position == position && exists|i: int|
                from <= i < nodes.len() && nodes[i] == node,
            None => forall|i: int| from <= i < nodes.len() ==> (#[trigger] nodes[i]).position != position,
        },
    decreases nodes.len() - from,
{
    if from < nodes.len() && nodes[from].position != position {
        lemma_find_from(nodes, position, from + 1);
    }
}

/// A path stays one when a cell that touches its first cell is put before it.
proof fn lemma_path_prepend(cell: Coords2D, cells: Seq<Coords2D>)
    requires
        is_path(cells),
        cells.len() > 0 ==> adjacent(cell, cells[0]),
    ensures
        is_path(seq![cell] + cells),
{
    let all = seq![cell] + cells;
    assert forall|i: int| 0 <= i < all.len() - 1 implies adjacent(#[trigger] all[i], all[i + 1]) by {
        if i > 0 {
            assert(all[i] == cells[i - 1]);
            assert(all[i + 1] == cells[i]);
        }
    }
}

/// Two paths of which the second begins where the first ends make one path.
proof fn lemma_path_join(head: Seq<Coords2D>, tail: Seq<Coords2D>)
    requires
        is_path(head),
        is_path(tail),
        head.len() > 0,
        tail.len() > 0,
        head.last() == tail[0],
    ensures
        is_path(head + tail.skip(1)),
{
    let all = head + tail.skip(1);
    assert forall|i: int| 0 <= i < all.len() - 1 implies adjacent(#[trigger] all[i], all[i + 1]) by {
        if i < head.len() - 1 {
            assert(adjacent(head[i], head[i + 1]));
        } else if i == head.len() - 1 {
            assert(all[i] == tail[0]);
            assert(all[i + 1] == tail[1]);
        } else {
            let j = i - head.len() + 1;
            assert(all[i] == tail[j]);
            assert(all[i + 1] == tail[j + 1]);
        }
    }
}

/// The cells between two cells lead from the one to the other one cell at a
/// time.
pub proof fn lemma_between_is_path(from: Coords2D, to: Coords2D)
    requires
        from != to,
    ensures
        is_path(seq![from] + between(from, to).push(to)),
    decreases span(from, to),
{
    lemma_toward(from, to);
    if span(from, to) <= 1 {
        assert(between(from, to).push(to) == seq![to]);
        assert(is_path(seq![to]));
        lemma_path_prepend(from, seq![to]);
    } else {
        let next = toward(from, to);
        lemma_between_is_path(next, to);
        let rest = seq![next] + between(next, to).push(to);
        lemma_path_prepend(from, rest);
        assert(between(from, to).push(to) == rest);
    }
}

/// Adjacency: a path rebuilt along parent links moves one cell at a time,
/// whatever nodes it was rebuilt from.
pub proof fn lemma_trail_is_path(position: Coords2D, parent: Coords2D, closed: Seq<Node>, fuel: nat)
    requires
        trail(position, parent, closed, fuel) is Some,
    ensures
        is_path(seq![position] + trail(position, parent, closed, fuel).unwrap()),
    decreases fuel,
{
    if parent == position {
        assert(is_path(seq![position] + Seq::<Coords2D>::empty()));
    } else {
        lemma_find_from(closed, parent, 0);
        let step = find_at(closed, parent).unwrap();
        let rest = trail(step.position, step.parent, closed, (fuel - 1) as nat).unwrap();
        lemma_trail_is_path(step.position, step.parent, closed, (fuel - 1) as nat);
        lemma_between_is_path(position, parent);
        let head = seq![position] + between(position, parent).push(parent);
        let tail = seq![step.position] + rest;
        lemma_path_join(head, tail);
        assert(tail.skip(1) == rest);
        assert(head + rest == seq![position] + (between(position, parent).push(step.position) + rest));
    }
}

/// Adjacency: every path that `rewind` returns moves one cell at a time.
pub proof fn lemma_trace_is_path(start: Node, closed: Seq<Node>)
    requires
        trace(start, closed) is Some,
    ensures
        is_path(trace(start, closed).unwrap()),
{
    lemma_trail_is_path(start.position, start.parent, closed, closed.len());
}

/// A path rebuilt along parent links ends on the cell of a node without
/// predecessor: on `origin`, where all such nodes stand there.
pub proof fn lemma_trail_ends(
    position: Coords2D,
    parent: Coords2D,
    closed: Seq<Node>,
    fuel: nat,
    origin: Coords2D,
)
    requires
        trail(position, parent, closed, fuel) is Some,
        parent == position ==> position == origin,
        forall|i: int| 0 <= i < closed.len() && (#[trigger] closed[i]).is_root() ==> closed[i].position == origin,
    ensures
        (seq![position] + trail(position, parent, closed, fuel).unwrap()).last() == origin,
        parent != position ==> trail(position, parent, closed, fuel).unwrap().len() > 0,
    decreases fuel,
{
    if parent != position {
        lemma_find_from(closed, parent, 0);
        let step = find_at(closed, parent).unwrap();
        let rest = trail(step.position, step.parent, closed, (fuel - 1) as nat).unwrap();
        lemma_trail_ends(step.position, step.parent, closed, (fuel - 1) as nat, origin);
        let all = seq![position] + (between(position, parent).push(step.position) + rest);
        let tail = seq![step.position] + rest;
        assert(all.last() == tail.last());
    }
}

/// A path rebuilt from nodes that were each reached from their parent by one
/// move of the map is a walk over the map, read from its end.
pub proof fn lemma_trail_is_walk_back(
    map: MovingAiMap,
    position: Coords2D,
    parent: Coords2D,
    closed: Seq<Node>,
    fuel: nat,
)
    requires
        trail(position, parent, closed, fuel) is Some,
        parent == position || (adjacent(parent, position) && map_neighbors(map, parent).contains(position)),
        forall|i: int| 0 <= i < closed.len() ==> moved_from_parent(map, #[trigger] closed[i]),
    ensures
        is_walk_back(map, seq![position] + trail(position, parent, closed, fuel).unwrap()),
    decreases fuel,
{
    if parent != position {
        lemma_find_from(closed, parent, 0);
        let step = find_at(closed, parent).unwrap();
        let rest = trail(step.position, step.parent, closed, (fuel - 1) as nat).unwrap();
        lemma_trail_is_walk_back(map, step.position, step.parent, closed, (fuel - 1) as nat);
        assert(between(position, parent) == Seq::<Coords2D>::empty());
        let tail = seq![step.position] + rest;
        let all = seq![position] + trail(position, parent, closed, fuel).unwrap();
        assert(all == seq![position] + tail);
        assert forall|i: int| 0 <= i < all.len() - 1 implies map_neighbors(map, all[i + 1]).contains(
            #[trigger] all[i],
        ) by {
            if i > 0 {
                assert(all[i] == tail[i - 1]);
                assert(all[i + 1] == tail[i]);
            }
        }
    }
}

/// A straight line leads from `from` to another cell `to`, and every cell
/// that it crosses between the two is traversable.
pub open spec fn clear_line(map: MovingAiMap, from: Coords2D, to: Coords2D) -> bool {
    &&& from != to
    &&& aligned(to, from)
    &&& forall|k: int| 0 <= k < between(to, from).len() ==> traversable(map, #[trigger] between(to, from)[k])
}

/// Each cell is joined to the next by a clear line, and all cells but the
/// first and the last are traversable.
pub open spec fn is_jump_walk(map: MovingAiMap, cells: Seq<Coords2D>) -> bool {
    &&& forall|i: int| 0 <= i < cells.len() - 1 ==> clear_line(map, #[trigger] cells[i], cells[i + 1])
    &&& forall|i: int| 0 < i < cells.len() - 1 ==> traversable(map, #[trigger] cells[i])
}

/// The cost of jumping from each cell to the next: the distances between
/// them, added up with saturation.
pub open spec fn jump_cost(cells: Seq<Coords2D>) -> u64
    decreases cells.len(),
{
    if cells.len() <= 1 {
        0
    } else {
        cost_sum(jump_cost(cells.drop_last()), distance_spec(cells[cells.len() - 2], cells.last()))
    }
}

/// Some sequence of clear lines leads from `start` to `cell` and costs
/// `cost`.
pub open spec fn reached_by_jumps(map: MovingAiMap, start: Coords2D, cell: Coords2D, cost: u64) -> bool {
    exists|cells: Seq<Coords2D>|
        #![auto]
        cells.len() > 0 && cells.first() == start && cells.last() == cell && is_jump_walk(map, cells)
            && jump_cost(cells) == cost
}

/// What the jump point search keeps true of each node: only the start has
/// no predecessor; any other node was reached from its parent by a clear
/// line, the parent being traversable or the start; and its cost is that of
/// a sequence of clear lines from the start.
pub open spec fn jump_sound(map: MovingAiMap, start: Coords2D, node: Node) -> bool {
    &&& if node.is_root() {
        node.position == start
    } else {
        clear_line(map, node.parent, node.position) && (traversable(map, node.parent) || node.parent
            == start)
    }
    &&& reached_by_jumps(map, start, node.position, node.g)
}

/// All the nodes are sound.
pub open spec fn jump_sound_nodes(map: MovingAiMap, start: Coords2D, nodes: Seq<Node>) -> bool {
    forall|i: int| 0 <= i < nodes.len() ==> jump_sound(map, start, #[trigger] nodes[i])
}

/// A sequence of clear lines to a traversable cell, continued by one more
/// clear line, reaches the end of that line at the cost of both together.
pub proof fn lemma_jump_further(map: MovingAiMap, start: Coords2D, node: Node, cell: Coords2D)
    requires
        reached_by_jumps(map, start, node.position, node.g),
        clear_line(map, node.position, cell),
        traversable(map, node.position) || (node.position == start && node.g == 0),
    ensures
        reached_by_jumps(map, start, cell, cost_sum(node.g, distance_spec(node.position, cell))),
{
    let found = choose|cells: Seq<Coords2D>|
        #![auto]
        cells.len() > 0 && cells.first() == start && cells.last() == node.position && is_jump_walk(
            map,
            cells,
        ) && jump_cost(cells) == node.g;
    let cells = if traversable(map, node.position) {
        found
    } else {
        seq![start]
    };
    assert(jump_cost(seq![start]) == 0);
    let longer = cells.push(cell);
    assert(longer.drop_last() == cells);
    assert forall|i: int| 0 <= i < longer.len() - 1 implies clear_line(
        map,
        #[trigger] longer[i],
        longer[i + 1],
    ) by {
        if i < cells.len() - 1 {
            assert(longer[i] == cells[i]);
            assert(longer[i + 1] == cells[i + 1]);
        }
    }
    assert forall|i: int| 0 < i < longer.len() - 1 implies traversable(map, #[trigger] longer[i]) by {
        assert(longer[i] == cells[i]);
    }
    assert(longer.len() > 0 && longer.first() == start && longer.last() == cell && is_jump_walk(
        map,
        longer,
    ) && jump_cost(longer) == cost_sum(node.g, distance_spec(node.position, cell)));
}

/// The first node on a cell stays the first when more nodes are added
/// behind.
pub proof fn lemma_find_in_longer(nodes: Seq<Node>, more: Seq<Node>, position: Coords2D, from: int)
    requires
        0 <= from,
        find_from(nodes, position, from) is Some,
    ensures
        find_from(nodes + more, position, from) == find_from(nodes, position, from),
    decreases nodes.len() - from,
{
    if from < nodes.len() {
        assert((nodes + more)[from] == nodes[from]);
        if nodes[from].position != position {
            lemma_find_in_longer(nodes, more, position, from + 1);
        }
    }
}

/// A path rebuilt from sound nodes crosses traversable cells only, and ends
/// on the start.
pub proof fn lemma_trail_crosses_free_cells(
    map: MovingAiMap,
    start: Coords2D,
    position: Coords2D,
    parent: Coords2D,
    closed: Seq<Node>,
    fuel: nat,
)
    requires
        trail(position, parent, closed, fuel) is Some,
        parent != position,
        clear_line(map, parent, position),
        traversable(map, parent) || parent == start,
        jump_sound_nodes(map, start, closed),
        find_at(closed, start) matches Some(root) && root.is_root(),
    ensures
        crosses_free_cells(map, seq![position] + trail(position, parent, closed, fuel).unwrap()),
        (seq![position] + trail(position, parent, closed, fuel).unwrap()).last() == start,
        trail(position, parent, closed, fuel).unwrap().len() > 0,
    decreases fuel,
{
    lemma_find_from(closed, parent, 0);
    let step = find_at(closed, parent).unwrap();
    let rest = trail(step.position, step.parent, closed, (fuel - 1) as nat).unwrap();
    let line = between(position, parent);
    let all = seq![position] + (line.push(step.position) + rest);
    assert(all == seq![position] + trail(position, parent, closed, fuel).unwrap());
    let tail = seq![step.position] + rest;
    if step.is_root() {
        assert(rest == Seq::<Coords2D>::empty());
        assert forall|i: int| 0 < i < all.len() - 1 implies traversable(map, #[trigger] all[i]) by {
            assert(all[i] == line[i - 1]);
        }
    } else {
        assert(parent != start);
        lemma_trail_crosses_free_cells(
            map,
            start,
            step.position,
            step.parent,
            closed,
            (fuel - 1) as nat,
        );
        assert(all.last() == tail.last());
        assert forall|i: int| 0 < i < all.len() - 1 implies traversable(map, #[trigger] all[i]) by {
            if i <= line.len() {
                assert(all[i] == line[i - 1]);
            } else if i == line.len() + 1 {
                assert(all[i] == step.position);
            } else {
                assert(all[i] == tail[i - line.len() - 1]);
            }
        }
    }
}

/// One of the nodes stands on the cell.
pub open spec fn on(nodes: Seq<Node>, cell: Coords2D) -> bool {
    exists|i: int| 0 <= i < nodes.len() && (#[trigger] nodes[i]).position == cell
}

} // verus!
