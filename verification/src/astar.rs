//! Best-first search over every cell.

use vstd::prelude::*;
use movingai::Coords2D;
use movingai::MovingAiMap;
use crate::astar_state::accounted;
use crate::astar_state::best_with;
use crate::astar_state::exploring;
use crate::astar_state::first_costs;
use crate::astar_state::holds_cells;
use crate::astar_state::lemma_begin;
use crate::astar_state::lemma_close;
use crate::astar_state::lemma_exhausted;
use crate::astar_state::lemma_goal_is_shortest;
use crate::astar_state::lemma_holds;
use crate::astar_state::lemma_looked_at;
use crate::astar_state::lemma_successor;
use crate::astar_state::lemma_successor_estimate;
use crate::astar_state::lemma_trail_exists;
use crate::astar_state::looked_at;
use crate::astar_state::rank_with;
use crate::astar_state::ranked;
use crate::astar_state::settled;
use crate::cost::COST_MAX;
use crate::cost::UNIT;
use crate::cost::distance;
use crate::cost::distance_spec;
use crate::cost::lemma_distance_between_cells;
use crate::frontier::Frontier;
use crate::frontier::lemma_next_index;
use crate::frontier::next_index;
use crate::grid::adjacent;
use crate::grid::map_neighbors;
use crate::grid::neighbors;
use crate::node::Node;
use crate::potential::lemma_potential_push;
use crate::potential::lemma_potential_remove;
use crate::potential::lemma_weight_at_monotone;
use crate::potential::lemma_weight_of_successor;
use crate::potential::potential;
use crate::potential::weight;
use crate::route::Route;
use crate::route::RouteView;
use crate::shortest::lemma_optimal_at_start;
use crate::utils::find_at;
use crate::utils::find_position;
use crate::utils::index_at;
use crate::utils::rewind;
use crate::utils::trace;
use crate::walk::connected;
use crate::walk::is_path;
use crate::walk::is_walk;
use crate::walk::is_walk_back;
use crate::walk::lemma_find_from;
use crate::walk::lemma_trail_ends;
use crate::walk::lemma_trail_is_path;
use crate::walk::lemma_trail_is_walk_back;
use crate::walk::moved_from_parent;
use crate::walk::on;
use crate::walk::reached_at;
use crate::walk::walk_cost;

verus! {

/// What holds of a route that the search returns for two different cells: it
/// begins on the goal and ends on the start, moves one cell at a time, each
/// cell can be entered from the one after it in one move of the map, and its
/// distance is the cost of a walk over the map from the start to the goal.
pub open spec fn is_walked_route(
    map: MovingAiMap,
    start: Coords2D,
    goal: Coords2D,
    route: RouteView,
) -> bool {
    &&& route.steps.len() >= 2
    &&& route.steps.first() == goal
    &&& route.steps.last() == start
    &&& is_path(route.steps)
    &&& is_walk_back(map, route.steps)
    &&& reached_at(map, start, goal, route.distance as nat)
    &&& route.distance < COST_MAX
}

/// Whether the search passes over a successor: a closed node on its cell
/// has a total estimate that is as good or better, its cost does not fit,
/// or a waiting node on its cell has a strictly better cost.
pub open spec fn passed_over(open: Seq<Node>, closed: Seq<Node>, successor: Node) -> bool {
    ||| (find_at(closed, successor.position) matches Some(old) && old.f <= successor.f)
    ||| successor.g == COST_MAX
    ||| (find_at(open, successor.position) matches Some(old) && old.g < successor.g)
}

/// The frontier once the neighbors `cells` of the explored node have been
/// looked at from number `from` on, each in its turn: the successors that
/// are not passed over wait behind the others.
pub open spec fn take_up(
    goal: Coords2D,
    open: Seq<Node>,
    closed: Seq<Node>,
    current: Node,
    cells: Seq<Coords2D>,
    from: int,
) -> Seq<Node>
    decreases cells.len() - from,
{
    if from < 0 || from >= cells.len() {
        open
    } else {
        let successor = Node::child_of(current, cells[from], goal);
        let more = if passed_over(open, closed, successor) {
            open
        } else {
            open.push(successor)
        };
        take_up(goal, more, closed, current, cells, from + 1)
    }
}

/// What the search returns once it has the waiting nodes `open` and the
/// closed nodes `closed`.
///
/// With no node waiting there is no route. Otherwise the node to explore
/// next is taken out. If it stands on the goal, the route is rebuilt from
/// it. Otherwise its neighbors are looked at and it is closed, in place of
/// the node that was closed on its cell if there was one. (Each step takes
/// weight from the frontier, which is why the search ends; were there a
/// step that did not, there would be no route.)
pub open spec fn search(map: MovingAiMap, goal: Coords2D, open: Seq<Node>, closed: Seq<Node>) -> Option<
    RouteView,
>
    decreases potential(open),
{
    if open.len() == 0 {
        None
    } else {
        let index = next_index(open);
        let current = open[index];
        let rest = open.remove(index);
        if current.position == goal {
            match trace(current, closed) {
                Some(cells) => Some(RouteView { distance: current.g, steps: cells }),
                None => None,
            }
        } else {
            let more = take_up(goal, rest, closed, current, map_neighbors(map, current.position), 0);
            if potential(more) < potential(open) {
                search(
                    map,
                    goal,
                    more,
                    closed_with(closed, index_at(closed, current.position), current),
                )
            } else {
                None
            }
        }
    }
}

/// The route of the A* search from `start` to `goal`: the empty route
/// between a cell and itself, else what the search returns when the start
/// waits and nothing is closed.
pub open spec fn a_star_route(map: MovingAiMap, start: Coords2D, goal: Coords2D) -> Option<RouteView> {
    if start == goal {
        Some(RouteView { distance: 0, steps: Seq::<Coords2D>::empty() })
    } else {
        search(
            map,
            goal,
            seq![Node::new_spec(0, distance_spec(start, goal), start, start)],
            Seq::<Node>::empty(),
        )
    }
}

/// Some walk over the map whose cost fits leads from `start` to `goal`.
pub open spec fn reachable(map: MovingAiMap, start: Coords2D, goal: Coords2D) -> bool {
    exists|cost: nat| reached_at(map, start, goal, cost) && cost < COST_MAX
}

/// No walk over the map from `start` to `goal` costs less than `distance`.
pub open spec fn is_shortest(map: MovingAiMap, start: Coords2D, goal: Coords2D, distance: u64) -> bool {
    forall|cost: nat| #[trigger] reached_at(map, start, goal, cost) ==> distance <= cost
}

/// The closed nodes once `current` is closed: it replaces the node that
/// stood on its cell, if there was one.
pub open spec fn closed_with(closed: Seq<Node>, index: Option<int>, current: Node) -> Seq<Node> {
    match index {
        Some(index) => closed.remove(index).push(current),
        None => closed.push(current),
    }
}

/// A walk to a cell, continued by one move of the map, reaches the cell
/// moved to at the cost of the walk and the move together.
pub proof fn lemma_reach_further(map: MovingAiMap, start: Coords2D, from: Coords2D, cost: nat, to: Coords2D)
    requires
        reached_at(map, start, from, cost),
        map_neighbors(map, from).contains(to),
    ensures
        reached_at(map, start, to, cost + distance_spec(from, to) as nat),
{
    reveal(reached_at);
    let cells = choose|cells: Seq<Coords2D>|
        #![auto]
        cells.len() > 0 && cells.first() == start && cells.last() == from && is_walk(map, cells)
            && walk_cost(cells) == cost;
    let longer = cells.push(to);
    assert(longer.drop_last() == cells);
    assert(is_walk(map, longer)) by {
        assert forall|i: int| 0 <= i < longer.len() - 1 implies map_neighbors(map, #[trigger] longer[i]).contains(
            longer[i + 1],
        ) by {
            if i < cells.len() - 1 {
                assert(longer[i] == cells[i]);
                assert(longer[i + 1] == cells[i + 1]);
            }
        }
    }
    assert(longer.len() > 0 && longer.first() == start && longer.last() == to && is_walk(map, longer)
        && walk_cost(longer) == cost + distance_spec(from, to) as nat);
}

/// Creates a new route using the A* algorithm.
///
/// The frontier starts with the start cell. The node with the least total
/// estimate is explored next: each cell that the map lists as its neighbor
/// is taken up as a new node, unless a closed node on that cell has a total
/// estimate that is as good or better, the cost no longer fits, or a
/// waiting node on that cell has a strictly better cost. The explored node
/// then replaces whatever was closed on its cell. The search ends when the
/// goal is taken from the frontier, and the route is rebuilt along the
/// parent links, or when the frontier is empty.
///
/// A route is returned exactly when a walk whose cost fits leads from the
/// start to the goal. The route is a walk over the map, and no walk from
/// the start to the goal costs less than its distance.
pub fn a_star_path(map: &MovingAiMap, start: Coords2D, goal: Coords2D) -> (route: Option<Route>)
    ensures
        match route {
            Some(r) => a_star_route(*map, start, goal) == Some(r@),
            None => a_star_route(*map, start, goal) is None,
        },
        start == goal ==> (route matches Some(r) && r@.distance == 0 && r@.steps.len() == 0),
        start != goal ==> match route {
            Some(r) => is_walked_route(*map, start, goal, r@) && is_shortest(
                *map,
                start,
                goal,
                r@.distance,
            ),
            None => is_shortest(*map, start, goal, COST_MAX),
        },
        route is Some <==> reachable(*map, start, goal),
        !connected(*map, start, goal) ==> route is None,
{
    if start.0 == goal.0 && start.1 == goal.1 {
        proof {
            lemma_connected_to_self(*map, start);
        }
        return Some(Route::from((0, Vec::new())));
    }
    //Initialize open and closed lists

    let mut open = Frontier::new();
    let mut closed: Vec<Node> = Vec::new();
    let ghost mut rank: Map<Coords2D, nat> = Map::empty();
    let ghost mut best: Map<Coords2D, u64> = Map::empty();
    let ghost mut floor: u64 = 0;

    //Push start node to open list
    let start_node = Node::new(0, distance(start, goal), start, start);
    proof {
        lemma_connected_to_self(*map, start);
        assert(accounted(*map, start, goal, start_node));
        assert(COST_MAX == u64::MAX);
    }
    open.push(start_node);
    proof {
        reveal(holds_cells);
        reveal(first_costs);
        assert(open@ == seq![start_node]);
        lemma_optimal_at_start(*map, start, goal, start_node);
    }

    //Examine the nodes
    loop
        invariant
            start != goal,
            settled(*map, start, goal, open@, closed@, rank, best, floor),
            a_star_route(*map, start, goal) == search(*map, goal, open@, closed@),
        decreases potential(open@),
    {
        let ghost waiting = open@;
        let node_current = match open.pop() {
            None => {
                proof {
                    lemma_exhausted(*map, start, goal, waiting, best);
                }
                return None;
            },
            Some(node) => node,
        };
        proof {
            lemma_next_index(waiting);
            lemma_potential_remove(waiting, next_index(waiting));
            assert(accounted(*map, start, goal, node_current));
            assert(ranked(rank, node_current));
        }

        //If this is the target node return the distance to get there
        if node_current.position.0 == goal.0 && node_current.position.1 == goal.1 {
            proof {
                lemma_goal_is_shortest(*map, start, goal, waiting, best);
                assert forall|i: int| 0 <= i < closed@.len() implies moved_from_parent(
                    *map,
                    #[trigger] closed@[i],
                ) by {
                    assert(accounted(*map, start, goal, closed@[i]));
                }
                lemma_trail_exists(
                    *map,
                    closed@,
                    rank,
                    node_current.position,
                    node_current.parent,
                    closed@.len(),
                );
            }
            match rewind(&node_current, &closed) {
                None => {
                    return None;
                },
                Some(path) => {
                    proof {
                        let fuel = closed@.len();
                        assert forall|i: int|
                            0 <= i < closed@.len() && (#[trigger] closed@[i]).is_root() implies closed@[i].position
                            == start by {
                            assert(accounted(*map, start, goal, closed@[i]));
                        }
                        lemma_trail_is_path(node_current.position, node_current.parent, closed@, fuel);
                        lemma_trail_ends(
                            node_current.position,
                            node_current.parent,
                            closed@,
                            fuel,
                            start,
                        );
                        lemma_trail_is_walk_back(
                            *map,
                            node_current.position,
                            node_current.parent,
                            closed@,
                            fuel,
                        );
                    }
                    return Some(Route::from((node_current.g, path)));
                },
            }
        }
        proof {
            lemma_begin(*map, start, goal, waiting, closed@, rank, best, floor);
            rank = rank_with(rank, closed@, node_current.position);
        }
        //Setup successor nodes

        let successors = neighbors(map, node_current.position);
        let ghost rest = open@;
        let mut i: usize = 0;
        while i < successors.len()
            invariant
                i <= successors@.len() <= 8,
                take_up(goal, rest, closed@, node_current, successors@, 0) == take_up(
                    goal,
                    open@,
                    closed@,
                    node_current,
                    successors@,
                    i as int,
                ),
                successors@ == map_neighbors(*map, node_current.position),
                forall|k: int|
                    0 <= k < successors@.len() ==> adjacent(
                        node_current.position,
                        #[trigger] successors@[k],
                    ),
                exploring(*map, start, goal, open@, closed@, rank, best, node_current, i as int),
                9 * potential(open@) + 9 * weight(node_current.g) <= 9 * potential(waiting) + i * weight(
                    node_current.g,
                ),
            decreases successors@.len() - i,
        {
            let successor = successors[i];
            let ghost handled = i as int;
            let ghost before = open@;
            i += 1;
            proof {
                let w = weight(node_current.g);
                assert(i * w == (i - 1) * w + w) by (nonlinear_arith);
            }
            let node_successor = Node::from_parent(&node_current, successor, goal);
            assert(take_up(goal, before, closed@, node_current, successors@, handled) == take_up(
                goal,
                if passed_over(before, closed@, node_successor) {
                    before
                } else {
                    before.push(node_successor)
                },
                closed@,
                node_current,
                successors@,
                handled + 1,
            ));

            //Check if node is on closed list and skip if the existing estimate is as good
            match find_position(&closed, successor) {
                Some(index) => {
                    proof {
                        lemma_successor_estimate(node_current, successor, goal);
                        assert(closed@[index as int].f <= node_successor.f);
                        assert(looked_at(*map, goal, before, closed@, node_current, handled));
                        lemma_looked_at(
                            *map,
                            start,
                            goal,
                            before,
                            before,
                            closed@,
                            rank,
                            best,
                            node_current,
                            handled,
                        );
                    }
                    if closed[index].f <= node_successor.f {
                        continue ;
                    }
                },
                None => {},
            }

            //A cost that no longer fits is not taken up
            if node_successor.g == COST_MAX {
                proof {
                    assert(looked_at(*map, goal, before, closed@, node_current, handled));
                    lemma_looked_at(
                        *map,
                        start,
                        goal,
                        before,
                        before,
                        closed@,
                        rank,
                        best,
                        node_current,
                        handled,
                    );
                }
                continue ;
            }
            //See if node is on open list and skip if it has a better cost

            match open.find(successor) {
                Some(old_open) => {
                    if old_open.g < node_successor.g {
                        proof {
                            lemma_find_from(before, successor, 0);
                            let found = choose|k: int| 0 <= k < before.len() && before[k] == old_open;
                            assert(before[found].position == successor && before[found].g
                                <= node_successor.g);
                            assert(looked_at(*map, goal, before, closed@, node_current, handled));
                            lemma_looked_at(
                                *map,
                                start,
                                goal,
                                before,
                                before,
                                closed@,
                                rank,
                                best,
                                node_current,
                                handled,
                            );
                        }
                        continue ;
                    }
                },
                None => {},
            }

            proof {
                assert(successors@.contains(successor));
                assert(successors@[handled] == successor);
                assert(adjacent(node_current.position, successor));
                assert(!on(closed@, successor));
                lemma_holds(rank.dom(), closed@, Some(node_current.position), successor);
                lemma_holds(rank.dom(), closed@, Some(node_current.position), node_current.position);
                lemma_distance_between_cells(node_current.position, successor);
                lemma_successor(*map, start, goal, rank, node_current, successor);
                lemma_weight_of_successor(node_current.g, node_successor.g);
                lemma_potential_push(before, node_successor);
            }
            open.push(node_successor);
            proof {
                let more = open@;
                assert(more.drop_last() == before);
                assert(more[more.len() - 1].position == successor);
                assert(looked_at(*map, goal, more, closed@, node_current, handled));
                lemma_looked_at(
                    *map,
                    start,
                    goal,
                    before,
                    more,
                    closed@,
                    rank,
                    best,
                    node_current,
                    handled,
                );
            }
        }

        //Push current node to closed list and remove existing entry if duplicate
        let ghost explored = closed@;
        let found = find_position(&closed, node_current.position);
        let ghost index: Option<int> = match found {
            Some(index) => Some(index as int),
            None => None,
        };
        proof {
            lemma_close(*map, start, goal, open@, explored, rank, best, node_current, index);
            best = best_with(best, node_current);
            floor = node_current.f;
        }
        match found {
            Some(index) => {
                closed.remove(index);
            },
            None => {},
        }
        closed.push(node_current);
        proof {
            assert(closed@ == closed_with(explored, index, node_current));
            let w = weight(node_current.g);
            lemma_weight_at_monotone(0, (UNIT - node_current.g / UNIT) as nat);
            assert(i * w <= 8 * w) by (nonlinear_arith)
                requires
                    i <= 8,
                    w >= 0,
            ;
        }
    }
}

/// Determinism: what the search returns is given by the map, the start and
/// the goal, so that two searches with the same three return the same.
pub proof fn lemma_a_star_repeats(
    map: MovingAiMap,
    start: Coords2D,
    goal: Coords2D,
    first: Option<RouteView>,
    second: Option<RouteView>,
)
    requires
        first == a_star_route(map, start, goal),
        second == a_star_route(map, start, goal),
    ensures
        first == second,
{
}

/// Determinism of the distance: two routes between the same cells of which
/// each is a walk and none is longer than any walk have the same distance.
pub proof fn lemma_shortest_is_unique(
    map: MovingAiMap,
    start: Coords2D,
    goal: Coords2D,
    first: RouteView,
    second: RouteView,
)
    requires
        reached_at(map, start, goal, first.distance as nat),
        is_shortest(map, start, goal, first.distance),
        reached_at(map, start, goal, second.distance as nat),
        is_shortest(map, start, goal, second.distance),
    ensures
        first.distance == second.distance,
{
}

/// Disconnection: where no walk leads from the start to the goal, none whose
/// cost fits does, and every route between them would be a shortest one.
pub proof fn lemma_unreached(map: MovingAiMap, start: Coords2D, goal: Coords2D)
    requires
        !connected(map, start, goal),
    ensures
        !reachable(map, start, goal),
        forall|distance: u64| is_shortest(map, start, goal, distance),
{
}

/// A cell is reached from itself at no cost.
pub proof fn lemma_connected_to_self(map: MovingAiMap, start: Coords2D)
    ensures
        reached_at(map, start, start, 0),
        connected(map, start, start),
{
    reveal(reached_at);
    let cells = seq![start];
    assert(cells.len() > 0 && cells.first() == start && cells.last() == start && is_walk(map, cells)
        && walk_cost(cells) == 0);
    assert(reached_at(map, start, start, 0));
}

} // verus!
