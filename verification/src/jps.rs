//! Jump point search: best-first search over the cells where the direction
//! of travel may have to change.

use vstd::prelude::*;
use movingai::Coords2D;
use movingai::MovingAiMap;
use crate::cost::distance;
use crate::cost::distance_spec;
use crate::astar::a_star_route;
use crate::frontier::Frontier;
use crate::frontier::lemma_next_index;
use crate::frontier::next_index;
use crate::grid::free_at;
use crate::grid::is_free;
use crate::grid::is_traversable;
use crate::grid::map_rows;
use crate::grid::traversable;
use crate::jps_state::lemma_close_one;
use crate::jps_state::lemma_scan_sound;
use crate::jps_state::lemma_seed_sound;
use crate::jps_state::lemma_sound_concat;
use crate::jps_state::unclosed;
use crate::node::Node;
use crate::route::Route;
use crate::route::RouteView;
use crate::utils::direction;
use crate::utils::direction_spec;
use crate::utils::find_at;
use crate::utils::find_position;
use crate::utils::rewind;
use crate::utils::shift;
use crate::utils::shift_spec;
use crate::utils::trace;
use crate::walk::crosses_free_cells;
use crate::walk::is_jump_walk;
use crate::walk::is_path;
use crate::walk::jump_cost;
use crate::walk::jump_sound;
use crate::walk::jump_sound_nodes;
use crate::walk::lemma_find_in_longer;
use crate::walk::lemma_trail_crosses_free_cells;
use crate::walk::lemma_trail_is_path;
use crate::walk::on;
use crate::walk::reached_by_jumps;

verus! {

/// A direction of travel, each component being -1 or 1.
#[derive(Copy, Clone)]
pub enum Direction {
    Vertical(i32),
    Horizontal(i32),
    Diagonal(i32, i32),
}

/// Whether a component of a direction is a single step.
pub open spec fn is_unit(component: i32) -> bool {
    component == 1 || component == -1
}

impl Direction {
    /// The step that one move in this direction makes.
    pub open spec fn step(self) -> (i32, i32) {
        match self {
            Direction::Vertical(vertical) => (0i32, vertical),
            Direction::Horizontal(horizontal) => (horizontal, 0i32),
            Direction::Diagonal(horizontal, vertical) => (horizontal, vertical),
        }
    }

    /// Each component of the direction is a single step.
    pub open spec fn is_unit(self) -> bool {
        match self {
            Direction::Vertical(vertical) => is_unit(vertical),
            Direction::Horizontal(horizontal) => is_unit(horizontal),
            Direction::Diagonal(horizontal, vertical) => is_unit(horizontal) && is_unit(vertical),
        }
    }

    /// Whether the direction is a diagonal, as a number.
    pub open spec fn rank(self) -> nat {
        match self {
            Direction::Diagonal(_, _) => 1,
            _ => 0,
        }
    }
}

/// The direction of travel for a unit direction vector, if it moves at all.
pub open spec fn jump_direction(direction: (i32, i32)) -> Option<Direction> {
    if direction.0 != 0 {
        if direction.1 != 0 {
            Some(Direction::Diagonal(direction.0, direction.1))
        } else {
            Some(Direction::Horizontal(direction.0))
        }
    } else if direction.1 != 0 {
        Some(Direction::Vertical(direction.1))
    } else {
        None
    }
}

/// The forced neighbor on one side of a cell, as a node reached from it.
///
/// `beside` leads to the cell next to `check` on that side, `ahead` to the
/// cell diagonally ahead on the same side. A neighbor is forced when the
/// cell beside is blocked while the cell ahead is open: the way to the cell
/// ahead then leads through `check`.
pub open spec fn forced_node(
    map: MovingAiMap,
    check: Node,
    beside: (i32, i32),
    ahead: (i32, i32),
    goal: Coords2D,
) -> Seq<Node> {
    if !free_at(map, shift_spec(check.position, beside)) && free_at(
        map,
        shift_spec(check.position, ahead),
    ) {
        seq![Node::child_of(check, shift_spec(check.position, ahead).unwrap(), goal)]
    } else {
        Seq::<Node>::empty()
    }
}

/// The forced neighbors of a cell crossed in horizontal travel: the one
/// above, then the one below.
pub open spec fn forced_horizontal_spec(
    map: MovingAiMap,
    check: Node,
    direction: i32,
    goal: Coords2D,
) -> Seq<Node> {
    forced_node(map, check, (0i32, -1i32), (direction, -1i32), goal) + forced_node(
        map,
        check,
        (0i32, 1i32),
        (direction, 1i32),
        goal,
    )
}

/// The forced neighbors of a cell crossed in vertical travel: the one to
/// the left, then the one to the right.
pub open spec fn forced_vertical_spec(
    map: MovingAiMap,
    check: Node,
    direction: i32,
    goal: Coords2D,
) -> Seq<Node> {
    forced_node(map, check, (-1i32, 0i32), (-1i32, direction), goal) + forced_node(
        map,
        check,
        (1i32, 0i32),
        (1i32, direction),
        goal,
    )
}

/// How many cells a scan may still cross before it leaves the map.
pub open spec fn ray_left(map: MovingAiMap, cell: Coords2D, step: (i32, i32)) -> int {
    if step.1 > 0 {
        map_rows(map).len() - cell.1
    } else if step.1 < 0 {
        cell.1 + 1
    } else if step.0 > 0 {
        map_rows(map)[cell.1 as int].len() - cell.0
    } else {
        cell.0 + 1
    }
}

/// The nodes that a scan found, none where it was abandoned.
pub open spec fn found_by(scan: Option<Seq<Node>>) -> Seq<Node> {
    match scan {
        Some(nodes) => nodes,
        None => Seq::<Node>::empty(),
    }
}

/// The jump points that a scan from `origin` finds once it stands on
/// `current`.
///
/// A scan that stands on the goal returns it. A scan that stands on a cell
/// that is not traversable is abandoned. Otherwise it looks for what forces
/// a stop: in straight travel the forced neighbors of the cell, in diagonal
/// travel whatever a horizontal and a vertical scan from the cell find, in
/// that order. If there is any, the scan returns it, followed by the cell
/// itself and by the next cell in the direction of travel, and ends. If
/// there is none, it goes on from the next cell, as reached from `origin`.
pub open spec fn scan(
    map: MovingAiMap,
    origin: Node,
    current: Node,
    direction: Direction,
    goal: Coords2D,
) -> Option<Seq<Node>>
    decreases direction.rank(), ray_left(map, current.position, direction.step()),
{
    if !direction.is_unit() {
        None
    } else if current.position == goal {
        Some(seq![current])
    } else if !traversable(map, current.position) {
        None
    } else {
        let found = match direction {
            Direction::Vertical(vertical) => forced_vertical_spec(map, current, vertical, goal),
            Direction::Horizontal(horizontal) => forced_horizontal_spec(
                map,
                current,
                horizontal,
                goal,
            ),
            Direction::Diagonal(horizontal, vertical) => found_by(
                scan(map, current, current, Direction::Horizontal(horizontal), goal),
            ) + found_by(scan(map, current, current, Direction::Vertical(vertical), goal)),
        };
        let next = shift_spec(current.position, direction.step());
        if found.len() > 0 {
            match next {
                Some(cell) => Some(found.push(current).push(Node::child_of(current, cell, goal))),
                None => Some(found.push(current)),
            }
        } else {
            match next {
                Some(cell) => scan(map, origin, Node::child_of(origin, cell, goal), direction, goal),
                None => None,
            }
        }
    }
}

/// The jump points found from `parent` when it was entered in `direction`:
/// none when the direction does not move.
pub open spec fn jump(map: MovingAiMap, parent: Node, direction: (i32, i32), goal: Coords2D) -> Option<
    Seq<Node>,
> {
    match jump_direction(direction) {
        Some(direction) => scan(map, parent, parent, direction, goal),
        None => None,
    }
}

/// Scans from `parent` in the direction in which it was entered.
pub fn check_jump(parent: &Node, map: &MovingAiMap, direction: (i32, i32), goal: Coords2D) -> (nodes:
    Option<Vec<Node>>)
    requires
        -1 <= direction.0 <= 1,
        -1 <= direction.1 <= 1,
    ensures
        match nodes {
            Some(found) => jump(*map, *parent, direction, goal) == Some(found@),
            None => jump(*map, *parent, direction, goal) is None,
        },
{
    let (dx, dy) = direction;
    if dx != 0 {
        if dy != 0 {
            expand(map, parent, Direction::Diagonal(dx, dy), goal)
        } else {
            expand(map, parent, Direction::Horizontal(dx), goal)
        }
    } else if dy != 0 {
        expand(map, parent, Direction::Vertical(dy), goal)
    } else {
        None
    }
}

/// Adds the forced neighbor on one side of `check_node`, if there is one.
fn push_forced(
    nodes: &mut Vec<Node>,
    map: &MovingAiMap,
    check_node: &Node,
    beside: (i32, i32),
    ahead: (i32, i32),
    goal: Coords2D,
)
    ensures
        final(nodes)@ == old(nodes)@ + forced_node(*map, *check_node, beside, ahead, goal),
{
    let cell_ahead = shift(check_node.position, ahead);
    if !is_free(map, shift(check_node.position, beside)) && is_free(map, cell_ahead) {
        nodes.push(Node::from_parent(check_node, cell_ahead.unwrap(), goal));
        assert(nodes@ == old(nodes)@ + forced_node(*map, *check_node, beside, ahead, goal));
    } else {
        assert(nodes@ == old(nodes)@ + forced_node(*map, *check_node, beside, ahead, goal));
    }
}

/// Adds the forced neighbors of a cell crossed in horizontal travel.
pub fn forced_horizontal(
    nodes: &mut Vec<Node>,
    map: &MovingAiMap,
    check_node: &Node,
    direction: i32,
    goal: Coords2D,
)
    ensures
        final(nodes)@ == old(nodes)@ + forced_horizontal_spec(*map, *check_node, direction, goal),
{
    //Check if blocked up
    push_forced(nodes, map, check_node, (0, -1), (direction, -1), goal);
    //Check if blocked down
    push_forced(nodes, map, check_node, (0, 1), (direction, 1), goal);
    assert(nodes@ == old(nodes)@ + forced_horizontal_spec(*map, *check_node, direction, goal));
}

/// Adds the forced neighbors of a cell crossed in vertical travel.
pub fn forced_vertical(
    nodes: &mut Vec<Node>,
    map: &MovingAiMap,
    check_node: &Node,
    direction: i32,
    goal: Coords2D,
)
    ensures
        final(nodes)@ == old(nodes)@ + forced_vertical_spec(*map, *check_node, direction, goal),
{
    //Check if blocked left
    push_forced(nodes, map, check_node, (-1, 0), (-1, direction), goal);
    //Check if blocked right
    push_forced(nodes, map, check_node, (1, 0), (1, direction), goal);
    assert(nodes@ == old(nodes)@ + forced_vertical_spec(*map, *check_node, direction, goal));
}

/// Scans from `start_node` in `direction` for the next jump points.
pub fn expand(map: &MovingAiMap, start_node: &Node, direction: Direction, goal: Coords2D) -> (nodes:
    Option<Vec<Node>>)
    requires
        direction.is_unit(),
    ensures
        match nodes {
            Some(found) => scan(*map, *start_node, *start_node, direction, goal) == Some(found@),
            None => scan(*map, *start_node, *start_node, direction, goal) is None,
        },
    decreases direction.rank(),
{
    let mut current = *start_node;
    let mut nodes: Vec<Node> = Vec::new();
    loop
        invariant
            direction.is_unit(),
            nodes@.len() == 0,
            scan(*map, *start_node, *start_node, direction, goal) == scan(
                *map,
                *start_node,
                current,
                direction,
                goal,
            ),
        decreases ray_left(*map, current.position, direction.step()),
    {
        //Check if goal
        if current.position.0 == goal.0 && current.position.1 == goal.1 {
            nodes.push(current);
            return Some(nodes);
        }
        //Check blocked

        if !is_traversable(map, current.position) {
            return None;
        }
        //Otherwise Expand depending on direction

        let dir = match direction {
            Direction::Vertical(vert) => {
                //Check for forced neighbours
                forced_vertical(&mut nodes, map, &current, vert, goal);
                (0, vert)
            },
            Direction::Horizontal(hor) => {
                //Check for forced neighbours
                forced_horizontal(&mut nodes, map, &current, hor, goal);
                (hor, 0)
            },
            Direction::Diagonal(hor, vert) => {
                //Expand horizontally
                match expand(map, &current, Direction::Horizontal(hor), goal) {
                    Some(mut hor_nodes) => {
                        nodes.append(&mut hor_nodes);
                    },
                    None => {},
                }
                //Expand vertically
                match expand(map, &current, Direction::Vertical(vert), goal) {
                    Some(mut vert_nodes) => {
                        nodes.append(&mut vert_nodes);
                    },
                    None => {},
                }
                (hor, vert)
            },
        };
        let next_position = shift(current.position, dir);

        //If forced neighbours found return them along with this node and next on to continue checking in this direction
        if !nodes.is_empty() {
            nodes.push(current);
            match next_position {
                Some(cell) => {
                    nodes.push(Node::from_parent(&current, cell, goal));
                },
                None => {},
            }
            return Some(nodes);
        }
        //Else move onto next tile

        match next_position {
            Some(cell) => {
                current = Node::from_parent(start_node, cell, goal);
            },
            None => {
                return None;
            },
        }
    }
}

/// The offsets of the cells around a cell and of the cell itself, column by
/// column.
pub open spec fn seed_offset(index: int) -> (i32, i32) {
    ((index / 3 - 1) as i32, (index % 3 - 1) as i32)
}

/// The nodes with which the frontier starts: the first `count` of the cells
/// around the start and the start itself that exist, each as reached from
/// the start.
pub open spec fn seeds(start_node: Node, goal: Coords2D, count: int) -> Seq<Node>
    decreases count,
{
    if count <= 0 {
        Seq::<Node>::empty()
    } else {
        let earlier = seeds(start_node, goal, count - 1);
        match shift_spec(start_node.position, seed_offset(count - 1)) {
            Some(cell) => earlier.push(Node::child_of(start_node, cell, goal)),
            None => earlier,
        }
    }
}

/// What the search returns once it has the waiting nodes `open` and the
/// closed nodes `closed`.
///
/// With no node waiting there is no route. Otherwise the node to explore
/// next is taken out. If it stands on the goal, what still waits is closed
/// and the route is rebuilt from it. If a node on its cell is closed
/// already, it is dropped. Otherwise the jump points found from it join the
/// frontier and the node is closed.
pub open spec fn explore(map: MovingAiMap, goal: Coords2D, open: Seq<Node>, closed: Seq<Node>) -> Option<
    RouteView,
>
    decreases unclosed(closed).len(), open.len(),
{
    if open.len() == 0 {
        None
    } else {
        let index = next_index(open);
        let current = open[index];
        let rest = open.remove(index);
        if current.position == goal {
            match trace(current, closed + rest) {
                Some(cells) => Some(RouteView { distance: current.g, steps: cells }),
                None => None,
            }
        } else if on(closed, current.position) {
            proof {
                lemma_next_index(open);
            }
            explore(map, goal, rest, closed)
        } else {
            proof {
                lemma_close_one(closed, current);
            }
            explore(
                map,
                goal,
                rest + found_by(
                    jump(map, current, direction_spec(current.position, current.parent), goal),
                ),
                closed.push(current),
            )
        }
    }
}

/// The route of the jump point search from `start` to `goal`: the empty
/// route between a cell and itself, else what the search returns when the
/// cells around the start wait and the start is closed.
pub open spec fn jps_route(map: MovingAiMap, start: Coords2D, goal: Coords2D) -> Option<RouteView> {
    if start == goal {
        Some(RouteView { distance: 0, steps: Seq::<Coords2D>::empty() })
    } else {
        let start_node = Node::new_spec(0, distance_spec(start, goal), start, start);
        explore(map, goal, seeds(start_node, goal, 9), seq![start_node])
    }
}

/// Some path leads from `goal` back to `start` one cell at a time, over
/// traversable cells between the two.
pub open spec fn free_path_exists(map: MovingAiMap, start: Coords2D, goal: Coords2D) -> bool {
    exists|cells: Seq<Coords2D>|
        #![auto]
        cells.len() > 0 && cells.first() == goal && cells.last() == start && is_path(cells)
            && crosses_free_cells(map, cells)
}

/// What holds of a route that the search returns for two different cells: it
/// begins on the goal and ends on the start, moves one cell at a time over
/// traversable cells, and its distance is the cost of a sequence of clear
/// lines from the start to the goal.
pub open spec fn is_jumped_route(
    map: MovingAiMap,
    start: Coords2D,
    goal: Coords2D,
    route: RouteView,
) -> bool {
    &&& route.steps.len() >= 2
    &&& route.steps.first() == goal
    &&& route.steps.last() == start
    &&& is_path(route.steps)
    &&& crosses_free_cells(map, route.steps)
    &&& reached_by_jumps(map, start, goal, route.distance)
}

/// Creates a new route using the JPS algorithm.
///
/// The frontier starts with the cells around the start, each as reached
/// from it, which gives every one of them a direction of travel. The node
/// with the least total estimate is explored next, unless a node on its
/// cell is closed already: a scan in the direction in which it was entered
/// finds the next jump points, which are all taken up, and the node is
/// closed. The search ends when the goal is taken from the frontier: what
/// still waits is closed too, and the route is rebuilt along the parent
/// links, the cells between two jump points being filled in. It also ends
/// when the frontier is empty.
pub fn jps_path(map: &MovingAiMap, start: Coords2D, goal: Coords2D) -> (route: Option<Route>)
    ensures
        match route {
            Some(r) => jps_route(*map, start, goal) == Some(r@),
            None => jps_route(*map, start, goal) is None,
        },
        start == goal ==> (route matches Some(r) && r@.distance == 0 && r@.steps.len() == 0),
        start != goal ==> (route matches Some(r) ==> is_jumped_route(*map, start, goal, r@)),
        !free_path_exists(*map, start, goal) ==> route is None,
{
    if start.0 == goal.0 && start.1 == goal.1 {
        proof {
            let cells = seq![start];
            assert(cells.len() > 0 && cells.first() == goal && cells.last() == start && is_path(cells)
                && crosses_free_cells(*map, cells));
        }
        return Some(Route::from((0, Vec::new())));
    }
    let start_node = Node::new(0, distance(start, goal), start, start);

    //Initialize open and closed lists
    let mut open = Frontier::new();
    let mut closed: Vec<Node> = Vec::new();

    //Add start's neighbours to open list
    let mut index: i32 = 0;
    while index < 9
        invariant
            0 <= index <= 9,
            start_node.is_root(),
            start_node.g == 0,
            start_node.position == start,
            jump_sound_nodes(*map, start, open@),
            open@ == seeds(start_node, goal, index as int),
        decreases 9 - index,
    {
        let offset = (index / 3 - 1, index % 3 - 1);
        assert(offset == seed_offset(index as int));
        match shift(start, offset) {
            Some(cell) => {
                proof {
                    lemma_seed_sound(*map, start_node, offset, goal);
                }
                open.push(Node::from_parent(&start_node, cell, goal));
            },
            None => {},
        }
        index += 1;
    }

    proof {
        let cells = seq![start];
        assert(cells.len() > 0 && cells.first() == start && cells.last() == start && is_jump_walk(
            *map,
            cells,
        ) && jump_cost(cells) == 0);
        assert(jump_sound(*map, start, start_node));
    }
    closed.push(start_node);
    assert(find_at(closed@, start) == Some(start_node));
    assert(closed@ == seq![start_node]);

    //Examine the nodes
    loop
        invariant
            start != goal,
            jump_sound_nodes(*map, start, open@),
            jump_sound_nodes(*map, start, closed@),
            find_at(closed@, start) matches Some(root) && root.is_root(),
            jps_route(*map, start, goal) == explore(*map, goal, open@, closed@),
        decreases unclosed(closed@).len(), open@.len(),
    {
        let ghost waiting = open@;
        let node_current = match open.pop() {
            None => {
                return None;
            },
            Some(node) => node,
        };
        proof {
            lemma_next_index(waiting);
            assert(jump_sound(*map, start, node_current));
        }

        //If this is the target node return the distance to get there
        if node_current.position.0 == goal.0 && node_current.position.1 == goal.1 {
            //Push all remaining to closed
            let ghost explored = closed@;
            let mut rest = open.into_vec();
            proof {
                lemma_find_in_longer(explored, rest@, start, 0);
                lemma_sound_concat(*map, start, explored, rest@);
            }
            closed.append(&mut rest);

            //Unwind
            match rewind(&node_current, &closed) {
                None => {
                    return None;
                },
                Some(path) => {
                    proof {
                        let fuel = closed@.len();
                        lemma_trail_is_path(node_current.position, node_current.parent, closed@, fuel);
                        lemma_trail_crosses_free_cells(
                            *map,
                            start,
                            node_current.position,
                            node_current.parent,
                            closed@,
                            fuel,
                        );
                    }
                    return Some(Route::from((node_current.g, path)));
                },
            }
        }
        //Check if node is on closed list and continue if is

        if find_position(&closed, node_current.position).is_some() {
            continue ;
        }
        //Calculate direction

        let direction = direction(node_current.position, node_current.parent);

        match check_jump(&node_current, map, direction, goal) {
            Some(nodes) => {
                proof {
                    lemma_scan_sound(
                        *map,
                        start,
                        node_current,
                        node_current,
                        jump_direction(direction).unwrap(),
                        goal,
                    );
                }
                let ghost rest = open@;
                let mut i: usize = 0;
                while i < nodes.len()
                    invariant
                        i <= nodes@.len(),
                        jump_sound_nodes(*map, start, nodes@),
                        jump_sound_nodes(*map, start, open@),
                        open@ == rest + nodes@.take(i as int),
                    decreases nodes@.len() - i,
                {
                    open.push(nodes[i]);
                    i += 1;
                    assert(nodes@.take(i as int) == nodes@.take(i - 1).push(nodes@[i - 1]));
                }
                assert(nodes@.take(i as int) == nodes@);
            },
            None => {
                assert(open@ + Seq::<Node>::empty() == open@);
            },
        }

        //Push current node to closed list
        proof {
            lemma_close_one(closed@, node_current);
            lemma_find_in_longer(closed@, seq![node_current], start, 0);
            assert(closed@.push(node_current) == closed@ + seq![node_current]);
        }
        closed.push(node_current);
    }
}

/// Determinism: what the search returns is given by the map, the start and
/// the goal, so that two searches with the same three return the same.
pub proof fn lemma_jps_repeats(
    map: MovingAiMap,
    start: Coords2D,
    goal: Coords2D,
    first: Option<RouteView>,
    second: Option<RouteView>,
)
    requires
        first == jps_route(map, start, goal),
        second == jps_route(map, start, goal),
    ensures
        first == second,
{
}

/// Identity: between a cell and itself both searches return the empty route
/// of distance zero.
pub proof fn lemma_route_to_self(map: MovingAiMap, cell: Coords2D)
    ensures
        jps_route(map, cell, cell) == Some(RouteView { distance: 0, steps: Seq::<Coords2D>::empty() }),
        a_star_route(map, cell, cell) == Some(
            RouteView { distance: 0, steps: Seq::<Coords2D>::empty() },
        ),
{
}

} // verus!
