//! Why the best-first search finds a shortest walk: on every walk to the goal
//! whose cost fits, some node waits in the frontier that was reached at no
//! more than the walk costs up to its cell.

use vstd::prelude::*;
use movingai::Coords2D;
use movingai::MovingAiMap;
use crate::cost::distance_spec;
use crate::cost::lemma_distance_to_self;
use crate::cost::lemma_distance_triangle;
use crate::cost::COST_MAX;
use crate::node::Node;
use crate::walk::is_walk;
use crate::walk::walk_cost;

verus! {

/// The cost of a walk up to its cell number `index`.
pub open spec fn cost_to(cells: Seq<Coords2D>, index: int) -> nat {
    walk_cost(cells.take(index + 1))
}

/// A walk over the map from `start` to `goal` whose cost fits.
pub open spec fn is_cheap_walk(
    map: MovingAiMap,
    start: Coords2D,
    goal: Coords2D,
    cells: Seq<Coords2D>,
) -> bool {
    &&& cells.len() > 0
    &&& cells.first() == start
    &&& cells.last() == goal
    &&& is_walk(map, cells)
    &&& walk_cost(cells) < COST_MAX
}

/// A node waits on cell number `index` of the walk that was reached at no
/// more than the walk costs up to there.
pub open spec fn open_good(open: Seq<Node>, cells: Seq<Coords2D>, index: int) -> bool {
    exists|k: int|
        0 <= k < open.len() && (#[trigger] open[k]).position == cells[index] && open[k].g <= cost_to(
            cells,
            index,
        )
}

/// Cell number `index` of the walk was explored, and reached then at no
/// more than the walk costs up to there. `best` holds the cost at which
/// each explored cell was first explored.
pub open spec fn closed_good(best: Map<Coords2D, u64>, cells: Seq<Coords2D>, index: int) -> bool {
    best.dom().contains(cells[index]) && best[cells[index]] <= cost_to(cells, index)
}

/// The search has reached cell number `index` of the walk at no more than
/// the walk costs up to there.
pub open spec fn good(open: Seq<Node>, best: Map<Coords2D, u64>, cells: Seq<Coords2D>, index: int) -> bool {
    open_good(open, cells, index) || closed_good(best, cells, index)
}

/// On every walk to the goal whose cost fits, the search is as good as the
/// walk on its first cell, and wherever it has explored a cell as well as
/// the walk, it is as good as the walk on a later cell too.
#[verifier::opaque]
pub open spec fn optimal(
    map: MovingAiMap,
    start: Coords2D,
    goal: Coords2D,
    open: Seq<Node>,
    best: Map<Coords2D, u64>,
) -> bool {
    &&& forall|cells: Seq<Coords2D>| #[trigger]
        is_cheap_walk(map, start, goal, cells) ==> good(open, best, cells, 0)
    &&& forall|cells: Seq<Coords2D>, j: int|
        is_cheap_walk(map, start, goal, cells) && 0 <= j < cells.len() && #[trigger] closed_good(
            best,
            cells,
            j,
        ) ==> exists|i: int| j < i < cells.len() && #[trigger] good(open, best, cells, i)
}

/// The cost of a walk up to a cell grows by the distance to the next cell.
pub proof fn lemma_cost_to(cells: Seq<Coords2D>, index: int)
    requires
        0 <= index < cells.len(),
    ensures
        cost_to(cells, 0) == 0,
        cost_to(cells, cells.len() - 1) == walk_cost(cells),
        index + 1 < cells.len() ==> cost_to(cells, index + 1) == cost_to(cells, index) + distance_spec(
            cells[index],
            cells[index + 1],
        ),
{
    assert(cells.take(1).len() == 1);
    assert(cells.take(cells.len() as int) == cells);
    if index + 1 < cells.len() {
        let longer = cells.take(index + 2);
        assert(longer.drop_last() == cells.take(index + 1));
        assert(longer[longer.len() - 2] == cells[index]);
        assert(longer.last() == cells[index + 1]);
    }
}

/// Consistency of the estimate: the cost of a walk up to a cell and the
/// distance from there to the end of the walk are together no more than the
/// whole walk costs.
pub proof fn lemma_estimate_along(cells: Seq<Coords2D>, index: int)
    requires
        0 <= index < cells.len(),
    ensures
        cost_to(cells, index) + distance_spec(cells[index], cells.last()) <= walk_cost(cells),
    decreases cells.len() - index,
{
    lemma_cost_to(cells, index);
    if index + 1 < cells.len() {
        lemma_estimate_along(cells, index + 1);
        lemma_distance_triangle(cells[index], cells[index + 1], cells.last());
    } else {
        lemma_distance_to_self(cells.last());
    }
}

/// Where the search is as good as a walk on one cell, a node waits on that
/// cell or a later one that is as good as the walk.
pub proof fn lemma_open_witness(
    map: MovingAiMap,
    start: Coords2D,
    goal: Coords2D,
    open: Seq<Node>,
    best: Map<Coords2D, u64>,
    cells: Seq<Coords2D>,
    index: int,
)
    requires
        optimal(map, start, goal, open, best),
        is_cheap_walk(map, start, goal, cells),
        0 <= index < cells.len(),
        good(open, best, cells, index),
    ensures
        exists|i: int| index <= i < cells.len() && open_good(open, cells, i),
    decreases cells.len() - index,
{
    reveal(optimal);
    if !open_good(open, cells, index) {
        assert(closed_good(best, cells, index));
        let later = choose|i: int| index < i < cells.len() && #[trigger] good(open, best, cells, i);
        lemma_open_witness(map, start, goal, open, best, cells, later);
    }
}

/// A search that has explored nothing and in which the start waits at no
/// cost is as good as every walk.
pub proof fn lemma_optimal_at_start(map: MovingAiMap, start: Coords2D, goal: Coords2D, node: Node)
    requires
        node.position == start,
        node.g == 0,
    ensures
        optimal(map, start, goal, seq![node], Map::empty()),
{
    reveal(optimal);
    let open = seq![node];
    assert forall|cells: Seq<Coords2D>| #[trigger]
        is_cheap_walk(map, start, goal, cells) implies good(open, Map::empty(), cells, 0) by {
        lemma_cost_to(cells, 0);
        assert(open[0].position == cells[0]);
        assert(open_good(open, cells, 0));
    }
}

/// A search that is as good as every walk is as good as each on its first
/// cell.
pub proof fn lemma_optimal_first(
    map: MovingAiMap,
    start: Coords2D,
    goal: Coords2D,
    open: Seq<Node>,
    best: Map<Coords2D, u64>,
    cells: Seq<Coords2D>,
)
    requires
        optimal(map, start, goal, open, best),
        is_cheap_walk(map, start, goal, cells),
    ensures
        good(open, best, cells, 0),
{
    reveal(optimal);
}

/// The search stays as good as every walk when more nodes wait.
pub proof fn lemma_optimal_grows(
    map: MovingAiMap,
    start: Coords2D,
    goal: Coords2D,
    open: Seq<Node>,
    more: Seq<Node>,
    best: Map<Coords2D, u64>,
)
    requires
        optimal(map, start, goal, open, best),
        forall|k: int| 0 <= k < open.len() ==> more.contains(#[trigger] open[k]),
    ensures
        optimal(map, start, goal, more, best),
{
    reveal(optimal);
    assert forall|cells: Seq<Coords2D>, i: int| #[trigger]
        good(open, best, cells, i) implies good(more, best, cells, i) by {
        if open_good(open, cells, i) {
            let k = choose|k: int|
                0 <= k < open.len() && (#[trigger] open[k]).position == cells[i] && open[k].g <= cost_to(
                    cells,
                    i,
                );
            assert(more.contains(open[k]));
            let m = choose|m: int| 0 <= m < more.len() && more[m] == open[k];
            assert(more[m].position == cells[i]);
        }
    }
    assert forall|cells: Seq<Coords2D>, j: int|
        is_cheap_walk(map, start, goal, cells) && 0 <= j < cells.len() && #[trigger] closed_good(
            best,
            cells,
            j,
        ) implies exists|i: int| j < i < cells.len() && #[trigger] good(more, best, cells, i) by {
        let i = choose|i: int| j < i < cells.len() && #[trigger] good(open, best, cells, i);
        assert(good(more, best, cells, i));
    }
}

} // verus!
