//! What the jump point search keeps true while it runs: why its scans find
//! sound nodes only, and why it ends.

use vstd::prelude::*;
use movingai::Coords2D;
use movingai::MovingAiMap;
use crate::cost::lemma_distance_to_self;
use crate::grid::traversable;
use crate::jps::Direction;
use crate::jps::forced_horizontal_spec;
use crate::jps::forced_node;
use crate::jps::forced_vertical_spec;
use crate::jps::found_by;
use crate::jps::is_unit;
use crate::jps::ray_left;
use crate::jps::scan;
use crate::node::Node;
use crate::utils::between;
use crate::utils::direction_spec;
use crate::utils::lemma_toward;
use crate::utils::shift_spec;
use crate::utils::toward;
use crate::walk::clear_line;
use crate::walk::is_jump_walk;
use crate::walk::jump_cost;
use crate::walk::jump_sound;
use crate::walk::jump_sound_nodes;
use crate::walk::lemma_jump_further;
use crate::walk::reached_by_jumps;

verus! {

/// A scan that has crossed traversable cells only, from `origin` up to
/// `cell`, has a clear line to the next cell as well.
pub proof fn lemma_ray_step(map: MovingAiMap, origin: Coords2D, cell: Coords2D, step: (i32, i32))
    requires
        -1 <= step.0 <= 1,
        -1 <= step.1 <= 1,
        step != (0i32, 0i32),
        shift_spec(cell, step) is Some,
        cell == origin || (traversable(map, cell) && clear_line(map, origin, cell) && direction_spec(
            cell,
            origin,
        ) == step),
    ensures
        clear_line(map, origin, shift_spec(cell, step).unwrap()),
        direction_spec(shift_spec(cell, step).unwrap(), origin) == step,
{
    let next = shift_spec(cell, step).unwrap();
    lemma_toward(next, origin);
    if cell == origin {
        assert(between(next, origin) == Seq::<Coords2D>::empty());
    } else {
        assert(toward(next, origin) == cell);
        assert(between(next, origin) == seq![cell] + between(cell, origin));
        assert forall|k: int| 0 <= k < between(next, origin).len() implies traversable(
            map,
            #[trigger] between(next, origin)[k],
        ) by {
            if k > 0 {
                assert(between(next, origin)[k] == between(cell, origin)[k - 1]);
            }
        }
    }
}

/// A node reached by one step from a sound node on a traversable cell is
/// sound.
pub proof fn lemma_step_sound(map: MovingAiMap, start: Coords2D, node: Node, step: (i32, i32), goal: Coords2D)
    requires
        -1 <= step.0 <= 1,
        -1 <= step.1 <= 1,
        step != (0i32, 0i32),
        shift_spec(node.position, step) is Some,
        traversable(map, node.position),
        jump_sound(map, start, node),
    ensures
        jump_sound(map, start, Node::child_of(node, shift_spec(node.position, step).unwrap(), goal)),
{
    lemma_ray_step(map, node.position, node.position, step);
    lemma_jump_further(map, start, node, shift_spec(node.position, step).unwrap());
}

/// The forced neighbors of a sound node on a traversable cell are sound.
pub proof fn lemma_forced_sound(
    map: MovingAiMap,
    start: Coords2D,
    check: Node,
    beside: (i32, i32),
    ahead: (i32, i32),
    goal: Coords2D,
)
    requires
        is_unit(ahead.0),
        is_unit(ahead.1),
        traversable(map, check.position),
        jump_sound(map, start, check),
    ensures
        jump_sound_nodes(map, start, forced_node(map, check, beside, ahead, goal)),
{
    if forced_node(map, check, beside, ahead, goal).len() > 0 {
        lemma_step_sound(map, start, check, ahead, goal);
    }
}

/// Two sequences of sound nodes, one after the other, are sound.
pub proof fn lemma_sound_concat(map: MovingAiMap, start: Coords2D, first: Seq<Node>, second: Seq<Node>)
    requires
        jump_sound_nodes(map, start, first),
        jump_sound_nodes(map, start, second),
    ensures
        jump_sound_nodes(map, start, first + second),
{
    let all = first + second;
    assert forall|i: int| 0 <= i < all.len() implies jump_sound(map, start, #[trigger] all[i]) by {
        if i < first.len() {
            assert(all[i] == first[i]);
        } else {
            assert(all[i] == second[i - first.len()]);
        }
    }
}

/// A sequence of sound nodes with one more sound node behind is sound.
pub proof fn lemma_sound_push(map: MovingAiMap, start: Coords2D, nodes: Seq<Node>, node: Node)
    requires
        jump_sound_nodes(map, start, nodes),
        jump_sound(map, start, node),
    ensures
        jump_sound_nodes(map, start, nodes.push(node)),
{
    let all = nodes.push(node);
    assert forall|i: int| 0 <= i < all.len() implies jump_sound(map, start, #[trigger] all[i]) by {
        if i < nodes.len() {
            assert(all[i] == nodes[i]);
        }
    }
}

/// The forced neighbors that straight travel finds on a traversable cell of
/// a sound node are sound.
pub proof fn lemma_forced_straight_sound(
    map: MovingAiMap,
    start: Coords2D,
    check: Node,
    component: i32,
    goal: Coords2D,
)
    requires
        is_unit(component),
        traversable(map, check.position),
        jump_sound(map, start, check),
    ensures
        jump_sound_nodes(map, start, forced_vertical_spec(map, check, component, goal)),
        jump_sound_nodes(map, start, forced_horizontal_spec(map, check, component, goal)),
{
    lemma_forced_sound(map, start, check, (-1i32, 0i32), (-1i32, component), goal);
    lemma_forced_sound(map, start, check, (1i32, 0i32), (1i32, component), goal);
    lemma_sound_concat(
        map,
        start,
        forced_node(map, check, (-1i32, 0i32), (-1i32, component), goal),
        forced_node(map, check, (1i32, 0i32), (1i32, component), goal),
    );
    lemma_forced_sound(map, start, check, (0i32, -1i32), (component, -1i32), goal);
    lemma_forced_sound(map, start, check, (0i32, 1i32), (component, 1i32), goal);
    lemma_sound_concat(
        map,
        start,
        forced_node(map, check, (0i32, -1i32), (component, -1i32), goal),
        forced_node(map, check, (0i32, 1i32), (component, 1i32), goal),
    );
}

/// What a scan has found, followed by the cell it stands on and by the next
/// cell, is sound.
pub proof fn lemma_stop_sound(
    map: MovingAiMap,
    start: Coords2D,
    current: Node,
    direction: Direction,
    goal: Coords2D,
    found: Seq<Node>,
)
    requires
        direction.is_unit(),
        traversable(map, current.position),
        jump_sound(map, start, current),
        jump_sound_nodes(map, start, found),
    ensures
        jump_sound_nodes(map, start, found.push(current)),
        shift_spec(current.position, direction.step()) matches Some(cell) ==> jump_sound_nodes(
            map,
            start,
            found.push(current).push(Node::child_of(current, cell, goal)),
        ),
{
    lemma_sound_push(map, start, found, current);
    let next = shift_spec(current.position, direction.step());
    if next is Some {
        lemma_step_sound(map, start, current, direction.step(), goal);
        lemma_sound_push(map, start, found.push(current), Node::child_of(current, next.unwrap(), goal));
    }
}

/// Where a scan stands on its ray: on the cell of its origin, or on a cell
/// to which a clear line leads from that cell, which is traversable, in the
/// direction of travel.
pub open spec fn on_ray(map: MovingAiMap, origin: Coords2D, cell: Coords2D, step: (i32, i32)) -> bool {
    cell == origin || {
        &&& traversable(map, origin)
        &&& clear_line(map, origin, cell)
        &&& direction_spec(cell, origin) == step
    }
}

/// A scan that goes on from a traversable cell stands on its ray again, and
/// the node for the next cell is sound.
pub proof fn lemma_walker_sound(
    map: MovingAiMap,
    start: Coords2D,
    origin: Node,
    current: Node,
    direction: Direction,
    goal: Coords2D,
)
    requires
        direction.is_unit(),
        traversable(map, current.position),
        shift_spec(current.position, direction.step()) is Some,
        jump_sound(map, start, origin),
        on_ray(map, origin.position, current.position, direction.step()),
    ensures
        on_ray(
            map,
            origin.position,
            shift_spec(current.position, direction.step()).unwrap(),
            direction.step(),
        ),
        jump_sound(
            map,
            start,
            Node::child_of(origin, shift_spec(current.position, direction.step()).unwrap(), goal),
        ),
        shift_spec(current.position, direction.step()).unwrap() != origin.position,
{
    let step = direction.step();
    let cell = shift_spec(current.position, step).unwrap();
    lemma_ray_step(map, origin.position, current.position, step);
    lemma_jump_further(map, start, origin, cell);
}

/// Soundness of the scan: every jump point that a scan from a sound node
/// finds is sound.
pub proof fn lemma_scan_sound(
    map: MovingAiMap,
    start: Coords2D,
    origin: Node,
    current: Node,
    direction: Direction,
    goal: Coords2D,
)
    requires
        scan(map, origin, current, direction, goal) is Some,
        jump_sound(map, start, origin),
        jump_sound(map, start, current),
        on_ray(map, origin.position, current.position, direction.step()),
    ensures
        jump_sound_nodes(map, start, scan(map, origin, current, direction, goal).unwrap()),
    decreases direction.rank(), ray_left(map, current.position, direction.step()),
{
    let step = direction.step();
    let next = shift_spec(current.position, step);
    if current.position == goal {
        assert(scan(map, origin, current, direction, goal).unwrap() == seq![current]);
    } else {
        let found = match direction {
            Direction::Vertical(vertical) => forced_vertical_spec(map, current, vertical, goal),
            Direction::Horizontal(horizontal) => forced_horizontal_spec(
                map,
                current,
                horizontal,
                goal,
            ),
            Direction::Diagonal(horizontal, vertical) => found_by(
                scan(map, current, current, Direction::Horizontal(horizontal), goal),
            ) + found_by(scan(map, current, current, Direction::Vertical(vertical), goal)),
        };
        if found.len() > 0 {
            match direction {
                Direction::Vertical(vertical) => {
                    lemma_forced_straight_sound(map, start, current, vertical, goal);
                },
                Direction::Horizontal(horizontal) => {
                    lemma_forced_straight_sound(map, start, current, horizontal, goal);
                },
                Direction::Diagonal(horizontal, vertical) => {
                    let across = scan(map, current, current, Direction::Horizontal(horizontal), goal);
                    let along = scan(map, current, current, Direction::Vertical(vertical), goal);
                    if across is Some {
                        lemma_scan_sound(
                            map,
                            start,
                            current,
                            current,
                            Direction::Horizontal(horizontal),
                            goal,
                        );
                    }
                    if along is Some {
                        lemma_scan_sound(
                            map,
                            start,
                            current,
                            current,
                            Direction::Vertical(vertical),
                            goal,
                        );
                    }
                    lemma_sound_concat(map, start, found_by(across), found_by(along));
                },
            }
            lemma_stop_sound(map, start, current, direction, goal, found);
        } else {
            let cell = next.unwrap();
            let walker = Node::child_of(origin, cell, goal);
            lemma_walker_sound(map, start, origin, current, direction, goal);
            lemma_scan_sound(map, start, origin, walker, direction, goal);
        }
    }
}

/// A cell as one number: no two cells have the same.
pub open spec fn cell_code(cell: Coords2D) -> int {
    cell.0 * 18446744073709551616 + cell.1
}

/// The numbers of the cells on which no closed node stands.
pub open spec fn unclosed(closed: Seq<Node>) -> Set<int> {
    Set::new(
        |code: int|
            0 <= code < 340282366920938463463374607431768211456 && forall|i: int|
                0 <= i < closed.len() ==> cell_code((#[trigger] closed[i]).position) != code,
    )
}

/// Closing a node on a cell on which none was closed leaves fewer cells
/// unclosed: there are only so many cells.
pub proof fn lemma_close_one(closed: Seq<Node>, node: Node)
    requires
        forall|i: int| 0 <= i < closed.len() ==> (#[trigger] closed[i]).position != node.position,
    ensures
        unclosed(closed.push(node)).len() < unclosed(closed).len(),
{
    let limit = 340282366920938463463374607431768211456int;
    let all = Set::new(|code: int| 0 <= code < limit);
    vstd::set_lib::range_set_properties::<int>(0, limit);
    assert(all == <int as vstd::set_lib::FiniteRange>::range_set(0, limit));
    let before = unclosed(closed);
    let after = unclosed(closed.push(node));
    let code = cell_code(node.position);
    assert(before.subset_of(all));
    vstd::set_lib::lemma_len_subset(before, all);
    assert(node.position.0 <= 18446744073709551615 && node.position.1 <= 18446744073709551615);
    assert(0 <= code < limit) by (nonlinear_arith)
        requires
            code == node.position.0 * 18446744073709551616 + node.position.1,
            0 <= node.position.0 <= 18446744073709551615,
            0 <= node.position.1 <= 18446744073709551615,
            limit == 340282366920938463463374607431768211456int,
    ;
    assert forall|i: int| 0 <= i < closed.len() implies cell_code((#[trigger] closed[i]).position)
        != code by {
        let other = closed[i].position;
        assert(other != node.position);
        if other.0 != node.position.0 {
            assert(cell_code(other) != code) by (nonlinear_arith)
                requires
                    cell_code(other) == other.0 * 18446744073709551616 + other.1,
                    code == node.position.0 * 18446744073709551616 + node.position.1,
                    other.0 != node.position.0,
                    0 <= other.1 <= 18446744073709551615,
                    0 <= node.position.1 <= 18446744073709551615,
            ;
        }
    }
    assert(before.contains(code));
    assert(after =~= before.remove(code)) by {
        assert forall|c: int| after.contains(c) <==> before.remove(code).contains(c) by {
            if after.contains(c) {
                assert(closed.push(node)[closed.len() as int] == node);
                assert forall|i: int| 0 <= i < closed.len() implies cell_code(
                    (#[trigger] closed[i]).position,
                ) != c by {
                    assert(closed.push(node)[i] == closed[i]);
                }
            }
            if before.remove(code).contains(c) {
                assert forall|i: int| 0 <= i < closed.push(node).len() implies cell_code(
                    (#[trigger] closed.push(node)[i]).position,
                ) != c by {
                    if i < closed.len() {
                        assert(closed.push(node)[i] == closed[i]);
                    }
                }
            }
        }
    }
    vstd::set::axiom_set_remove_len(before, code);
}

/// The node for a cell next to the start, as reached from the start, is
/// sound.
pub proof fn lemma_seed_sound(
    map: MovingAiMap,
    start_node: Node,
    offset: (i32, i32),
    goal: Coords2D,
)
    requires
        start_node.is_root(),
        start_node.g == 0,
        -1 <= offset.0 <= 1,
        -1 <= offset.1 <= 1,
        shift_spec(start_node.position, offset) is Some,
    ensures
        jump_sound(
            map,
            start_node.position,
            Node::child_of(start_node, shift_spec(start_node.position, offset).unwrap(), goal),
        ),
{
    let start = start_node.position;
    let cells = seq![start];
    assert(cells.len() > 0 && cells.first() == start && cells.last() == start && is_jump_walk(map, cells)
        && jump_cost(cells) == 0);
    assert(reached_by_jumps(map, start, start, 0));
    if offset == (0i32, 0i32) {
        lemma_distance_to_self(start);
    } else {
        lemma_ray_step(map, start, start, offset);
        lemma_jump_further(map, start, start_node, shift_spec(start, offset).unwrap());
    }
}

} // verus!
