//! What the best-first search keeps true while it runs, and why each of its
//! steps keeps it.

use vstd::prelude::*;
use movingai::Coords2D;
use movingai::MovingAiMap;
use crate::astar::closed_with;
use crate::astar::is_shortest;
use crate::astar::lemma_reach_further;
use crate::cost::COST_MAX;
use crate::cost::cost_sum;
use crate::cost::distance_spec;
use crate::cost::lemma_distance_to_self;
use crate::cost::lemma_distance_triangle;
use crate::frontier::lemma_next_index;
use crate::frontier::next_index;
use crate::grid::adjacent;
use crate::grid::map_neighbors;
use crate::node::Node;
use crate::shortest::closed_good;
use crate::shortest::cost_to;
use crate::shortest::good;
use crate::shortest::is_cheap_walk;
use crate::shortest::lemma_cost_to;
use crate::shortest::lemma_estimate_along;
use crate::shortest::lemma_open_witness;
use crate::shortest::lemma_optimal_first;
use crate::shortest::lemma_optimal_grows;
use crate::shortest::open_good;
use crate::shortest::optimal;
use crate::utils::find_at;
use crate::utils::trail;
use crate::walk::is_walk;
use crate::walk::lemma_find_from;
use crate::walk::moved_from_parent;
use crate::walk::on;
use crate::walk::reached_at;
use crate::walk::walk_cost;

verus! {

/// What the search keeps true of each node: it was reached from its parent
/// by one move of the map, only the start has no predecessor, its estimate
/// is the distance to the goal, its total the sum of cost and estimate, and
/// its cost is that of a walk from the start.
pub open spec fn accounted(map: MovingAiMap, start: Coords2D, goal: Coords2D, node: Node) -> bool {
    &&& moved_from_parent(map, node)
    &&& node.is_root() ==> node.position == start
    &&& node.h == distance_spec(node.position, goal)
    &&& node.f == cost_sum(node.g, node.h)
    &&& reached_at(map, start, node.position, node.g as nat)
}

/// All the nodes are accounted for.
pub open spec fn all_accounted(map: MovingAiMap, start: Coords2D, goal: Coords2D, nodes: Seq<Node>) -> bool {
    forall|i: int| 0 <= i < nodes.len() ==> accounted(map, start, goal, #[trigger] nodes[i])
}

/// The parent of the node was explored, and before the node's own cell if
/// that was explored too. `rank` numbers the cells in the order in which
/// they were first explored.
pub open spec fn ranked(rank: Map<Coords2D, nat>, node: Node) -> bool {
    node.is_root() || (rank.dom().contains(node.parent) && (rank.dom().contains(node.position)
        ==> rank[node.parent] < rank[node.position]))
}

/// All the nodes are ranked.
pub open spec fn all_ranked(rank: Map<Coords2D, nat>, nodes: Seq<Node>) -> bool {
    forall|i: int| 0 <= i < nodes.len() ==> ranked(rank, #[trigger] nodes[i])
}

/// No two of the nodes stand on one cell.
pub open spec fn distinct(nodes: Seq<Node>) -> bool {
    forall|i: int, j: int| 0 <= i < j < nodes.len() ==> nodes[i].position != nodes[j].position
}

/// The cells of the set are the cells of the closed nodes, and `extra` if
/// there is one.
#[verifier::opaque]
pub open spec fn holds_cells(cells: Set<Coords2D>, closed: Seq<Node>, extra: Option<Coords2D>) -> bool {
    &&& forall|cell: Coords2D| #[trigger] cells.contains(cell) ==> on(closed, cell) || extra == Some(cell)
    &&& forall|i: int| 0 <= i < closed.len() ==> cells.contains((#[trigger] closed[i]).position)
    &&& extra matches Some(cell) ==> cells.contains(cell)
}

/// Each closed cell has a first cost, and a closed node whose total fits
/// was reached at no less than the first cost of its cell.
#[verifier::opaque]
pub open spec fn first_costs(closed: Seq<Node>, best: Map<Coords2D, u64>) -> bool {
    forall|i: int|
        0 <= i < closed.len() ==> best.dom().contains((#[trigger] closed[i]).position) && (closed[i].f
            < COST_MAX ==> best[closed[i].position] <= closed[i].g)
}

/// The search has looked at neighbor number `k` of the node it explores: the
/// cost of the successor does not fit, or a waiting node on that cell is at
/// least as good, or a closed node on it has a total that is.
pub open spec fn looked_at(
    map: MovingAiMap,
    goal: Coords2D,
    open: Seq<Node>,
    closed: Seq<Node>,
    current: Node,
    k: int,
) -> bool {
    let cell = map_neighbors(map, current.position)[k];
    let successor = Node::child_of(current, cell, goal);
    ||| successor.g == COST_MAX
    ||| exists|i: int|
        0 <= i < open.len() && (#[trigger] open[i]).position == cell && open[i].g <= successor.g
    ||| exists|i: int|
        0 <= i < closed.len() && (#[trigger] closed[i]).position == cell && closed[i].f <= successor.f
}

/// The rank of the cells once `cell` is explored: a cell that was not
/// explored before comes last.
pub open spec fn rank_with(rank: Map<Coords2D, nat>, closed: Seq<Node>, cell: Coords2D) -> Map<
    Coords2D,
    nat,
> {
    if rank.dom().contains(cell) {
        rank
    } else {
        rank.insert(cell, closed.len())
    }
}

/// The first costs once `current` is closed: a cell that was not explored
/// before has the cost of `current`.
pub open spec fn best_with(best: Map<Coords2D, u64>, current: Node) -> Map<Coords2D, u64> {
    if best.dom().contains(current.position) {
        best
    } else {
        best.insert(current.position, current.g)
    }
}

/// What holds whenever the search is about to take a node from the
/// frontier.
pub open spec fn settled(
    map: MovingAiMap,
    start: Coords2D,
    goal: Coords2D,
    open: Seq<Node>,
    closed: Seq<Node>,
    rank: Map<Coords2D, nat>,
    best: Map<Coords2D, u64>,
    floor: u64,
) -> bool {
    &&& all_accounted(map, start, goal, open)
    &&& all_accounted(map, start, goal, closed)
    &&& all_ranked(rank, open)
    &&& all_ranked(rank, closed)
    &&& forall|i: int| 0 <= i < open.len() ==> (#[trigger] open[i]).g < COST_MAX && floor <= open[i].f
    &&& forall|i: int| 0 <= i < closed.len() ==> (#[trigger] closed[i]).f <= floor
    &&& distinct(closed)
    &&& holds_cells(rank.dom(), closed, None)
    &&& holds_cells(best.dom(), closed, None)
    &&& forall|cell: Coords2D| #[trigger] rank.dom().contains(cell) ==> rank[cell] < closed.len()
    &&& first_costs(closed, best)
    &&& optimal(map, start, goal, open, best)
    &&& !on(closed, goal)
}

/// What holds while the successors of `current` are taken up: `handled` of
/// them have been looked at.
pub open spec fn exploring(
    map: MovingAiMap,
    start: Coords2D,
    goal: Coords2D,
    open: Seq<Node>,
    closed: Seq<Node>,
    rank: Map<Coords2D, nat>,
    best: Map<Coords2D, u64>,
    current: Node,
    handled: int,
) -> bool {
    &&& all_accounted(map, start, goal, open)
    &&& all_accounted(map, start, goal, closed)
    &&& accounted(map, start, goal, current)
    &&& all_ranked(rank, open)
    &&& all_ranked(rank, closed)
    &&& ranked(rank, current)
    &&& current.g < COST_MAX
    &&& current.position != goal
    &&& forall|i: int| 0 <= i < open.len() ==> (#[trigger] open[i]).g < COST_MAX && current.f <= open[i].f
    &&& forall|i: int| 0 <= i < closed.len() ==> (#[trigger] closed[i]).f <= current.f
    &&& distinct(closed)
    &&& holds_cells(rank.dom(), closed, Some(current.position))
    &&& holds_cells(best.dom(), closed, None)
    &&& forall|cell: Coords2D| #[trigger]
        rank.dom().contains(cell) ==> rank[cell] < closed.len() + (if on(closed, current.position) {
            0int
        } else {
            1int
        })
    &&& first_costs(closed, best)
    &&& optimal(map, start, goal, open.push(current), best)
    &&& forall|k: int| 0 <= k < handled ==> #[trigger] looked_at(map, goal, open, closed, current, k)
    &&& !on(closed, goal)
}

/// The parent links lead back to the start: each leads to a cell that was
/// explored earlier, so the walk back ends before it has taken as many
/// links as there are closed nodes.
pub proof fn lemma_trail_exists(
    map: MovingAiMap,
    closed: Seq<Node>,
    rank: Map<Coords2D, nat>,
    position: Coords2D,
    parent: Coords2D,
    fuel: nat,
)
    requires
        adjacent(parent, position),
        rank.dom().contains(parent),
        fuel > rank[parent],
        holds_cells(rank.dom(), closed, None),
        forall|i: int| 0 <= i < closed.len() ==> moved_from_parent(map, #[trigger] closed[i]),
        all_ranked(rank, closed),
    ensures
        trail(position, parent, closed, fuel) is Some,
    decreases rank[parent],
{
    lemma_holds(rank.dom(), closed, None, parent);
    assert(on(closed, parent));
    lemma_find_from(closed, parent, 0);
    let step = find_at(closed, parent).unwrap();
    let index = choose|i: int| 0 <= i < closed.len() && closed[i] == step;
    assert(moved_from_parent(map, closed[index]));
    assert(ranked(rank, closed[index]));
    if !step.is_root() {
        lemma_trail_exists(map, closed, rank, step.position, step.parent, (fuel - 1) as nat);
    }
}

/// A node stands on a cell after one was taken out if one stood there
/// before, unless that was the one taken out.
pub proof fn lemma_on_remove(nodes: Seq<Node>, index: int, cell: Coords2D)
    requires
        0 <= index < nodes.len(),
    ensures
        on(nodes, cell) ==> on(nodes.remove(index), cell) || nodes[index].position == cell,
        on(nodes.remove(index), cell) ==> on(nodes, cell),
{
    let fewer = nodes.remove(index);
    if on(nodes, cell) && nodes[index].position != cell {
        let i = choose|i: int| 0 <= i < nodes.len() && (#[trigger] nodes[i]).position == cell;
        if i < index {
            assert(fewer[i] == nodes[i]);
        } else {
            assert(fewer[i - 1] == nodes[i]);
        }
    }
    if on(fewer, cell) {
        let i = choose|i: int| 0 <= i < fewer.len() && (#[trigger] fewer[i]).position == cell;
        if i < index {
            assert(fewer[i] == nodes[i]);
        } else {
            assert(fewer[i] == nodes[i + 1]);
        }
    }
}

/// A node stands on a cell after one was added if one stood there before or
/// the new one does.
pub proof fn lemma_on_push(nodes: Seq<Node>, node: Node, cell: Coords2D)
    ensures
        on(nodes.push(node), cell) <==> on(nodes, cell) || node.position == cell,
{
    let more = nodes.push(node);
    if on(nodes, cell) {
        let i = choose|i: int| 0 <= i < nodes.len() && (#[trigger] nodes[i]).position == cell;
        assert(more[i] == nodes[i]);
    }
    if node.position == cell {
        assert(more[nodes.len() as int] == node);
    }
    if on(more, cell) {
        let i = choose|i: int| 0 <= i < more.len() && (#[trigger] more[i]).position == cell;
        if i < nodes.len() {
            assert(more[i] == nodes[i]);
        }
    }
}

/// Closing a node adds its cell to the closed cells and takes none away.
pub proof fn lemma_on_closed_with(closed: Seq<Node>, index: Option<int>, current: Node, cell: Coords2D)
    requires
        index matches Some(i) ==> 0 <= i < closed.len() && closed[i].position == current.position,
    ensures
        on(closed_with(closed, index, current), cell) <==> on(closed, cell) || current.position == cell,
{
    match index {
        Some(i) => {
            lemma_on_remove(closed, i, cell);
            lemma_on_push(closed.remove(i), current, cell);
            if current.position == cell {
                assert(closed[i].position == cell);
            }
        },
        None => {
            lemma_on_push(closed, current, cell);
        },
    }
}

/// A set that holds the closed cells and the cell of the explored node holds
/// the closed cells once that node is closed.
pub proof fn lemma_holds_cells_closed(cells: Set<Coords2D>, closed: Seq<Node>, index: Option<int>, current: Node)
    requires
        index matches Some(i) ==> 0 <= i < closed.len() && closed[i].position == current.position,
        holds_cells(cells, closed, Some(current.position)),
    ensures
        holds_cells(cells, closed_with(closed, index, current), None),
{
    reveal(holds_cells);
    let after = closed_with(closed, index, current);
    assert forall|cell: Coords2D| #[trigger] cells.contains(cell) implies on(after, cell) by {
        lemma_on_closed_with(closed, index, current, cell);
    }
    assert forall|i: int| 0 <= i < after.len() implies cells.contains((#[trigger] after[i]).position) by {
        lemma_on_closed_with(closed, index, current, after[i].position);
        assert(on(after, after[i].position));
        if on(closed, after[i].position) {
            let k = choose|k: int|
                0 <= k < closed.len() && (#[trigger] closed[k]).position == after[i].position;
        }
    }
}

/// A successor never has a better total than the node it is reached from:
/// the estimate falls by no more than the step costs.
pub proof fn lemma_successor_estimate(current: Node, successor: Coords2D, goal: Coords2D)
    requires
        current.h == distance_spec(current.position, goal),
        current.f == cost_sum(current.g, current.h),
    ensures
        current.f <= Node::child_of(current, successor, goal).f,
{
    lemma_distance_triangle(current.position, successor, goal);
}

/// Which cells a set holds that holds the cells of the closed nodes.
pub proof fn lemma_holds(cells: Set<Coords2D>, closed: Seq<Node>, extra: Option<Coords2D>, cell: Coords2D)
    requires
        holds_cells(cells, closed, extra),
    ensures
        cells.contains(cell) <==> on(closed, cell) || extra == Some(cell),
{
    reveal(holds_cells);
    if on(closed, cell) {
        let i = choose|i: int| 0 <= i < closed.len() && (#[trigger] closed[i]).position == cell;
        assert(cells.contains(closed[i].position));
    }
}

/// Exploring a cell gives it a rank behind all cells explored before, and
/// leaves the nodes ranked.
pub proof fn lemma_rank_with(rank: Map<Coords2D, nat>, closed: Seq<Node>, cell: Coords2D, nodes: Seq<Node>)
    requires
        holds_cells(rank.dom(), closed, None),
        forall|other: Coords2D| #[trigger] rank.dom().contains(other) ==> rank[other] < closed.len(),
        all_ranked(rank, nodes),
    ensures
        holds_cells(rank_with(rank, closed, cell).dom(), closed, Some(cell)),
        forall|other: Coords2D| #[trigger]
            rank_with(rank, closed, cell).dom().contains(other) ==> rank_with(rank, closed, cell)[other]
                < closed.len() + (if on(closed, cell) {
                0int
            } else {
                1int
            }),
        all_ranked(rank_with(rank, closed, cell), nodes),
{
    reveal(holds_cells);
    let later = rank_with(rank, closed, cell);
    if rank.dom().contains(cell) {
        assert(later == rank);
        assert(on(closed, cell));
    } else {
        assert(later.dom() == rank.dom().insert(cell));
        if on(closed, cell) {
            let i = choose|i: int| 0 <= i < closed.len() && (#[trigger] closed[i]).position == cell;
            assert(rank.dom().contains(closed[i].position));
        }
        assert forall|i: int| 0 <= i < nodes.len() implies ranked(later, #[trigger] nodes[i]) by {
            assert(ranked(rank, nodes[i]));
        }
    }
}

/// Taking the next node from the frontier begins its exploration.
pub proof fn lemma_begin(
    map: MovingAiMap,
    start: Coords2D,
    goal: Coords2D,
    waiting: Seq<Node>,
    closed: Seq<Node>,
    rank: Map<Coords2D, nat>,
    best: Map<Coords2D, u64>,
    floor: u64,
)
    requires
        settled(map, start, goal, waiting, closed, rank, best, floor),
        waiting.len() > 0,
        waiting[next_index(waiting)].position != goal,
    ensures
        exploring(
            map,
            start,
            goal,
            waiting.remove(next_index(waiting)),
            closed,
            rank_with(rank, closed, waiting[next_index(waiting)].position),
            best,
            waiting[next_index(waiting)],
            0,
        ),
{
    lemma_next_index(waiting);
    let index = next_index(waiting);
    let current = waiting[index];
    let open = waiting.remove(index);
    let later = rank_with(rank, closed, current.position);
    assert(accounted(map, start, goal, current));
    assert(holds_cells(later.dom(), closed, Some(current.position)) && all_ranked(later, open) && all_ranked(
        later,
        closed,
    ) && ranked(later, current) && (forall|other: Coords2D| #[trigger]
        later.dom().contains(other) ==> later[other] < closed.len() + (if on(closed, current.position) {
            0int
        } else {
            1int
        }))) by {
        lemma_rank_with(rank, closed, current.position, waiting);
        lemma_rank_with(rank, closed, current.position, closed);
        assert(ranked(later, waiting[index]));
        assert forall|i: int| 0 <= i < open.len() implies ranked(later, #[trigger] open[i]) by {
            if i < index {
                assert(open[i] == waiting[i]);
            } else {
                assert(open[i] == waiting[i + 1]);
            }
        }
    }
    assert(all_accounted(map, start, goal, open)) by {
        assert forall|i: int| 0 <= i < open.len() implies accounted(map, start, goal, #[trigger] open[i])
            by {
            if i < index {
                assert(open[i] == waiting[i]);
            } else {
                assert(open[i] == waiting[i + 1]);
            }
        }
    }
    assert(forall|i: int| 0 <= i < open.len() ==> (#[trigger] open[i]).g < COST_MAX && current.f <= open[i].f)
        by {
        assert forall|i: int| 0 <= i < open.len() implies (#[trigger] open[i]).g < COST_MAX && current.f
            <= open[i].f by {
            if i < index {
                assert(open[i] == waiting[i]);
            } else {
                assert(open[i] == waiting[i + 1]);
            }
        }
    }
    assert(forall|i: int| 0 <= i < closed.len() ==> (#[trigger] closed[i]).f <= current.f);
    assert(optimal(map, start, goal, open.push(current), best)) by {
        assert forall|k: int| 0 <= k < waiting.len() implies open.push(current).contains(
            #[trigger] waiting[k],
        ) by {
            let more = open.push(current);
            if k < index {
                assert(more[k] == waiting[k]);
            } else if k == index {
                assert(more[open.len() as int] == waiting[k]);
            } else {
                assert(more[k - 1] == waiting[k]);
            }
        }
        lemma_optimal_grows(map, start, goal, waiting, open.push(current), best);
    }
    assert(forall|k: int| 0 <= k < 0 ==> #[trigger] looked_at(map, goal, open, closed, current, k));
}

/// The search has looked at a neighbor when it passes it over or takes it
/// up, and what it has looked at stays so when more nodes wait.
pub proof fn lemma_looked_at(
    map: MovingAiMap,
    start: Coords2D,
    goal: Coords2D,
    open: Seq<Node>,
    more: Seq<Node>,
    closed: Seq<Node>,
    rank: Map<Coords2D, nat>,
    best: Map<Coords2D, u64>,
    current: Node,
    handled: int,
)
    requires
        exploring(map, start, goal, open, closed, rank, best, current, handled),
        looked_at(map, goal, more, closed, current, handled),
        more == open || (more.len() == open.len() + 1 && more.drop_last() == open && {
            let node = more.last();
            &&& accounted(map, start, goal, node)
            &&& ranked(rank, node)
            &&& node.g < COST_MAX
            &&& current.f <= node.f
        }),
    ensures
        exploring(map, start, goal, more, closed, rank, best, current, handled + 1),
{
    if more != open {
        let node = more.last();
        assert(more == open.push(node));
        assert forall|i: int| 0 <= i < more.len() implies accounted(map, start, goal, #[trigger] more[i])
            by {
            if i < open.len() {
                assert(more[i] == open[i]);
            }
        }
        assert forall|i: int| 0 <= i < more.len() implies ranked(rank, #[trigger] more[i]) by {
            if i < open.len() {
                assert(more[i] == open[i]);
            }
        }
        assert forall|i: int| 0 <= i < more.len() implies (#[trigger] more[i]).g < COST_MAX && current.f
            <= more[i].f by {
            if i < open.len() {
                assert(more[i] == open[i]);
            }
        }
        assert forall|k: int| 0 <= k < open.push(current).len() implies more.push(current).contains(
            #[trigger] open.push(current)[k],
        ) by {
            let wider = more.push(current);
            if k < open.len() {
                assert(wider[k] == open[k]);
            } else {
                assert(wider[more.len() as int] == current);
            }
        }
        lemma_optimal_grows(map, start, goal, open.push(current), more.push(current), best);
        assert forall|k: int| 0 <= k < handled implies #[trigger] looked_at(
            map,
            goal,
            more,
            closed,
            current,
            k,
        ) by {
            assert(looked_at(map, goal, open, closed, current, k));
            let cell = map_neighbors(map, current.position)[k];
            let successor = Node::child_of(current, cell, goal);
            if exists|i: int|
                0 <= i < open.len() && (#[trigger] open[i]).position == cell && open[i].g <= successor.g {
                let i = choose|i: int|
                    0 <= i < open.len() && (#[trigger] open[i]).position == cell && open[i].g
                        <= successor.g;
                assert(more[i] == open[i]);
            }
        }
    }
}

/// The node for a neighbor on a cell that is not closed, as reached from
/// the node that is explored, is accounted for.
pub proof fn lemma_successor(
    map: MovingAiMap,
    start: Coords2D,
    goal: Coords2D,
    rank: Map<Coords2D, nat>,
    current: Node,
    cell: Coords2D,
)
    requires
        accounted(map, start, goal, current),
        rank.dom().contains(current.position),
        !rank.dom().contains(cell),
        adjacent(current.position, cell),
        map_neighbors(map, current.position).contains(cell),
        current.g + distance_spec(current.position, cell) < COST_MAX,
    ensures
        accounted(map, start, goal, Node::child_of(current, cell, goal)),
        ranked(rank, Node::child_of(current, cell, goal)),
        Node::child_of(current, cell, goal).g < COST_MAX,
        current.f <= Node::child_of(current, cell, goal).f,
{
    lemma_reach_further(map, start, current.position, current.g as nat, cell);
    lemma_successor_estimate(current, cell, goal);
}

/// The explored node, once closed, is as good on a walk as it was while it
/// waited: its cell was first explored at no more than its cost.
pub proof fn lemma_current_good(
    map: MovingAiMap,
    start: Coords2D,
    goal: Coords2D,
    closed: Seq<Node>,
    best: Map<Coords2D, u64>,
    current: Node,
    cells: Seq<Coords2D>,
    index: int,
)
    requires
        is_cheap_walk(map, start, goal, cells),
        0 <= index < cells.len(),
        current.position == cells[index],
        current.g <= cost_to(cells, index),
        current.h == distance_spec(current.position, goal),
        current.f == cost_sum(current.g, current.h),
        first_costs(closed, best),
        holds_cells(best.dom(), closed, None),
        forall|i: int|
            0 <= i < closed.len() ==> (#[trigger] closed[i]).f <= current.f && closed[i].h
                == distance_spec(closed[i].position, goal) && closed[i].f == cost_sum(
                closed[i].g,
                closed[i].h,
            ),
    ensures
        closed_good(best_with(best, current), cells, index),
{
    reveal(first_costs);
    lemma_holds(best.dom(), closed, None, current.position);
    lemma_estimate_along(cells, index);
    if best.dom().contains(current.position) {
        assert(on(closed, current.position));
        let i = choose|i: int| 0 <= i < closed.len() && (#[trigger] closed[i]).position == current.position;
        assert(closed[i].f <= current.f);
    }
}

/// Closing the explored node keeps the search as good as every walk.
pub proof fn lemma_close_optimal(
    map: MovingAiMap,
    start: Coords2D,
    goal: Coords2D,
    open: Seq<Node>,
    closed: Seq<Node>,
    best: Map<Coords2D, u64>,
    current: Node,
)
    requires
        optimal(map, start, goal, open.push(current), best),
        forall|k: int|
            0 <= k < map_neighbors(map, current.position).len() ==> #[trigger] looked_at(
                map,
                goal,
                open,
                closed,
                current,
                k,
            ),
        first_costs(closed, best),
        holds_cells(best.dom(), closed, None),
        forall|i: int|
            0 <= i < closed.len() ==> (#[trigger] closed[i]).f <= current.f && closed[i].h
                == distance_spec(closed[i].position, goal) && closed[i].f == cost_sum(
                closed[i].g,
                closed[i].h,
            ),
        current.h == distance_spec(current.position, goal),
        current.f == cost_sum(current.g, current.h),
        current.position != goal,
    ensures
        optimal(map, start, goal, open, best_with(best, current)),
{
    reveal(optimal);
    let wider = open.push(current);
    let later = best_with(best, current);
    assert forall|cells: Seq<Coords2D>, i: int|
        is_cheap_walk(map, start, goal, cells) && 0 <= i < cells.len() && #[trigger] good(
            wider,
            best,
            cells,
            i,
        ) implies good(open, later, cells, i) by {
        if open_good(wider, cells, i) {
            let k = choose|k: int|
                0 <= k < wider.len() && (#[trigger] wider[k]).position == cells[i] && wider[k].g
                    <= cost_to(cells, i);
            if k < open.len() {
                assert(wider[k] == open[k]);
            } else {
                lemma_current_good(map, start, goal, closed, best, current, cells, i);
            }
        }
    }
    assert forall|cells: Seq<Coords2D>| #[trigger]
        is_cheap_walk(map, start, goal, cells) implies good(open, later, cells, 0) by {
        assert(good(wider, best, cells, 0));
    }
    assert forall|cells: Seq<Coords2D>, j: int|
        is_cheap_walk(map, start, goal, cells) && 0 <= j < cells.len() && #[trigger] closed_good(
            later,
            cells,
            j,
        ) implies exists|i: int| j < i < cells.len() && #[trigger] good(open, later, cells, i) by {
        if closed_good(best, cells, j) {
            let i = choose|i: int| j < i < cells.len() && #[trigger] good(wider, best, cells, i);
            assert(good(open, later, cells, i));
        } else {
            lemma_next_is_good(map, start, goal, open, closed, best, current, cells, j);
            assert(good(open, later, cells, j + 1));
        }
    }
}

/// Where the explored node is as good as a walk, the search is as good as
/// the walk on the next cell: it has looked at that cell.
pub proof fn lemma_next_is_good(
    map: MovingAiMap,
    start: Coords2D,
    goal: Coords2D,
    open: Seq<Node>,
    closed: Seq<Node>,
    best: Map<Coords2D, u64>,
    current: Node,
    cells: Seq<Coords2D>,
    j: int,
)
    requires
        is_cheap_walk(map, start, goal, cells),
        0 <= j < cells.len(),
        cells[j] == current.position,
        current.g <= cost_to(cells, j),
        current.position != goal,
        forall|k: int|
            0 <= k < map_neighbors(map, current.position).len() ==> #[trigger] looked_at(
                map,
                goal,
                open,
                closed,
                current,
                k,
            ),
        first_costs(closed, best),
        forall|i: int|
            0 <= i < closed.len() ==> (#[trigger] closed[i]).h == distance_spec(
                closed[i].position,
                goal,
            ) && closed[i].f == cost_sum(closed[i].g, closed[i].h),
    ensures
        j + 1 < cells.len(),
        good(open, best_with(best, current), cells, j + 1),
{
    reveal(first_costs);
    let next = cells[j + 1];
    assert(map_neighbors(map, cells[j]).contains(cells[j + 1]));
    let k = choose|k: int|
        0 <= k < map_neighbors(map, current.position).len() && map_neighbors(map, current.position)[k]
            == next;
    assert(looked_at(map, goal, open, closed, current, k));
    lemma_cost_to(cells, j);
    lemma_estimate_along(cells, j + 1);
    let successor = Node::child_of(current, next, goal);
    assert(successor.g <= cost_to(cells, j + 1));
    assert(successor.f == successor.g + distance_spec(next, goal));
    if exists|i: int|
        0 <= i < open.len() && (#[trigger] open[i]).position == next && open[i].g <= successor.g {
        assert(open_good(open, cells, j + 1));
    } else {
        let i = choose|i: int|
            0 <= i < closed.len() && (#[trigger] closed[i]).position == next && closed[i].f
                <= successor.f;
        assert(best.dom().contains(closed[i].position));
        assert(closed_good(best_with(best, current), cells, j + 1));
    }
}

/// Closing the explored node keeps the first costs.
pub proof fn lemma_close_first_costs(
    goal: Coords2D,
    closed: Seq<Node>,
    best: Map<Coords2D, u64>,
    current: Node,
    index: Option<int>,
)
    requires
        first_costs(closed, best),
        holds_cells(best.dom(), closed, None),
        forall|i: int|
            0 <= i < closed.len() ==> (#[trigger] closed[i]).f <= current.f && closed[i].h
                == distance_spec(closed[i].position, goal) && closed[i].f == cost_sum(
                closed[i].g,
                closed[i].h,
            ),
        current.h == distance_spec(current.position, goal),
        current.f == cost_sum(current.g, current.h),
        index matches Some(i) ==> 0 <= i < closed.len() && closed[i].position == current.position,
        index is None ==> !on(closed, current.position),
    ensures
        first_costs(closed_with(closed, index, current), best_with(best, current)),
        holds_cells(best_with(best, current).dom(), closed_with(closed, index, current), None),
{
    reveal(first_costs);
    reveal(holds_cells);
    let after = closed_with(closed, index, current);
    let later = best_with(best, current);
    let kept = match index {
        Some(i) => closed.remove(i),
        None => closed,
    };
    assert(after == kept.push(current));
    assert forall|j: int| 0 <= j < after.len() implies later.dom().contains(
        (#[trigger] after[j]).position,
    ) && (after[j].f < COST_MAX ==> later[after[j].position] <= after[j].g) by {
        if j < kept.len() {
            assert(after[j] == kept[j]);
            match index {
                Some(gone) => {
                    if j < gone {
                        assert(kept[j] == closed[j]);
                    } else {
                        assert(kept[j] == closed[j + 1]);
                    }
                },
                None => {},
            }
        } else {
            match index {
                Some(gone) => {
                    assert(closed[gone].f <= current.f);
                    assert(on(closed, current.position));
                },
                None => {},
            }
        }
    }
    assert(holds_cells(later.dom(), closed, Some(current.position)));
    lemma_holds_cells_closed(later.dom(), closed, index, current);
}

/// Closing the explored node once all its successors have been looked at.
pub proof fn lemma_close(
    map: MovingAiMap,
    start: Coords2D,
    goal: Coords2D,
    open: Seq<Node>,
    closed: Seq<Node>,
    rank: Map<Coords2D, nat>,
    best: Map<Coords2D, u64>,
    current: Node,
    index: Option<int>,
)
    requires
        exploring(
            map,
            start,
            goal,
            open,
            closed,
            rank,
            best,
            current,
            map_neighbors(map, current.position).len() as int,
        ),
        index matches Some(i) ==> 0 <= i < closed.len() && closed[i].position == current.position,
        index is None ==> !on(closed, current.position),
    ensures
        settled(
            map,
            start,
            goal,
            open,
            closed_with(closed, index, current),
            rank,
            best_with(best, current),
            current.f,
        ),
{
    let after = closed_with(closed, index, current);
    let kept = match index {
        Some(i) => closed.remove(i),
        None => closed,
    };
    assert(after == kept.push(current));
    assert forall|i: int|
        0 <= i < closed.len() implies (#[trigger] closed[i]).f <= current.f && closed[i].h
        == distance_spec(closed[i].position, goal) && closed[i].f == cost_sum(
        closed[i].g,
        closed[i].h,
    ) by {
        assert(accounted(map, start, goal, closed[i]));
    }
    lemma_close_optimal(map, start, goal, open, closed, best, current);
    lemma_close_first_costs(goal, closed, best, current, index);
    assert forall|j: int| 0 <= j < kept.len() implies exists|i: int|
        0 <= i < closed.len() && closed[i] == #[trigger] kept[j] && (index matches Some(gone) ==> i
            != gone) by {
        match index {
            Some(gone) => {
                if j < gone {
                    assert(kept[j] == closed[j]);
                } else {
                    assert(kept[j] == closed[j + 1]);
                }
            },
            None => {
                assert(kept[j] == closed[j]);
            },
        }
    }
    assert forall|j: int| 0 <= j < after.len() implies accounted(map, start, goal, #[trigger] after[j])
        && ranked(rank, after[j]) && after[j].f <= current.f by {
        if j < kept.len() {
            assert(after[j] == kept[j]);
            let i = choose|i: int| 0 <= i < closed.len() && closed[i] == kept[j];
            assert(accounted(map, start, goal, closed[i]));
            assert(ranked(rank, closed[i]));
        }
    }
    assert(distinct(after)) by {
        assert forall|a: int, b: int| 0 <= a < b < after.len() implies after[a].position
            != after[b].position by {
            assert(after[a] == kept[a]);
            let i = choose|i: int|
                0 <= i < closed.len() && closed[i] == kept[a] && (index matches Some(gone) ==> i
                    != gone);
            if b < kept.len() {
                assert(after[b] == kept[b]);
                match index {
                    Some(gone) => {
                        let ia = if a < gone {
                            a
                        } else {
                            a + 1
                        };
                        let ib = if b < gone {
                            b
                        } else {
                            b + 1
                        };
                        assert(kept[a] == closed[ia]);
                        assert(kept[b] == closed[ib]);
                    },
                    None => {},
                }
            } else {
                match index {
                    Some(gone) => {
                        if i < gone {
                            assert(closed[i].position != closed[gone].position);
                        } else {
                            assert(closed[gone].position != closed[i].position);
                        }
                    },
                    None => {
                        assert(on(closed, closed[i].position));
                    },
                }
            }
        }
    }
    lemma_holds_cells_closed(rank.dom(), closed, index, current);
    assert forall|cell: Coords2D| #[trigger] rank.dom().contains(cell) implies rank[cell] < after.len() by {
        match index {
            Some(i) => {
                assert(on(closed, current.position));
            },
            None => {},
        }
    }
    lemma_on_closed_with(closed, index, current, goal);
}

/// When no node waits, no walk whose cost fits leads to the goal.
pub proof fn lemma_exhausted(
    map: MovingAiMap,
    start: Coords2D,
    goal: Coords2D,
    open: Seq<Node>,
    best: Map<Coords2D, u64>,
)
    requires
        optimal(map, start, goal, open, best),
        open.len() == 0,
    ensures
        is_shortest(map, start, goal, COST_MAX),
{
    reveal(reached_at);
    assert forall|cost: nat| #[trigger] reached_at(map, start, goal, cost) implies COST_MAX <= cost by {
        if cost < COST_MAX {
            let cells = choose|cells: Seq<Coords2D>|
                #![auto]
                cells.len() > 0 && cells.first() == start && cells.last() == goal && is_walk(map, cells)
                    && walk_cost(cells) == cost;
            assert(is_cheap_walk(map, start, goal, cells));
            lemma_optimal_first(map, start, goal, open, best, cells);
            lemma_open_witness(map, start, goal, open, best, cells, 0);
        }
    }
}

/// The goal, when it is taken from the frontier, was reached by a shortest
/// walk: on every other walk a node waited that was at least as good, and
/// none of them had a lesser total.
pub proof fn lemma_goal_is_shortest(
    map: MovingAiMap,
    start: Coords2D,
    goal: Coords2D,
    waiting: Seq<Node>,
    best: Map<Coords2D, u64>,
)
    requires
        optimal(map, start, goal, waiting, best),
        all_accounted(map, start, goal, waiting),
        waiting.len() > 0,
        waiting[next_index(waiting)].position == goal,
    ensures
        is_shortest(map, start, goal, waiting[next_index(waiting)].g),
{
    lemma_next_index(waiting);
    let found = waiting[next_index(waiting)];
    assert(accounted(map, start, goal, found));
    lemma_distance_to_self(goal);
    reveal(reached_at);
    assert forall|cost: nat| #[trigger] reached_at(map, start, goal, cost) implies found.g <= cost by {
        if cost < COST_MAX {
            let cells = choose|cells: Seq<Coords2D>|
                #![auto]
                cells.len() > 0 && cells.first() == start && cells.last() == goal && is_walk(map, cells)
                    && walk_cost(cells) == cost;
            assert(is_cheap_walk(map, start, goal, cells));
            lemma_optimal_first(map, start, goal, waiting, best, cells);
            lemma_open_witness(map, start, goal, waiting, best, cells, 0);
            let i = choose|i: int| 0 <= i < cells.len() && open_good(waiting, cells, i);
            let k = choose|k: int|
                0 <= k < waiting.len() && (#[trigger] waiting[k]).position == cells[i] && waiting[k].g
                    <= cost_to(cells, i);
            assert(accounted(map, start, goal, waiting[k]));
            lemma_estimate_along(cells, i);
            assert(found.f <= waiting[k].f);
        }
    }
}

} // verus!
