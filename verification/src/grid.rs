//! The grid that the engines search: a map of the `movingai` crate.
//!
//! The map is an opaque value here. What its two queries return is taken on
//! trust from the crate's source; everything else in this library is proved
//! from that.

use vstd::prelude::*;
use movingai::Coords2D;
use movingai::Map2D;
use movingai::MovingAiMap;
use crate::cost::gap;

verus! {

/// `MovingAiMap` of `movingai`, carried through without a look inside.
#[verifier::external_type_specification]
#[verifier::external_body]
pub struct ExMovingAiMap(MovingAiMap);

/// What a map holds: its tiles, row by row from the top, each row from the
/// left.
pub uninterp spec fn map_rows(map: MovingAiMap) -> Seq<Seq<char>>;

/// What `Map2D::neighbors` of `movingai` returns for a cell: the cells that
/// can be entered from it in one move, in the order in which the map lists
/// them. The rules of movement are those of the map and are not restated
/// here.
pub uninterp spec fn map_neighbors(map: MovingAiMap, tile: Coords2D) -> Seq<Coords2D>;

/// The tile is ground, swamp or water: terrain that can be walked on.
pub open spec fn free_tile(tile: char) -> bool {
    tile == '.' || tile == 'G' || tile == 'S' || tile == 'W'
}

/// The cell lies on the map and its tile can be walked on.
pub open spec fn traversable(map: MovingAiMap, cell: Coords2D) -> bool {
    &&& cell.1 < map_rows(map).len()
    &&& cell.0 < map_rows(map)[cell.1 as int].len()
    &&& free_tile(map_rows(map)[cell.1 as int][cell.0 as int])
}

/// The cell exists, lies on the map and its tile can be walked on.
pub open spec fn free_at(map: MovingAiMap, cell: Option<Coords2D>) -> bool {
    match cell {
        Some(cell) => traversable(map, cell),
        None => false,
    }
}

/// Two different cells that touch, by a side or by a corner.
pub open spec fn adjacent(a: Coords2D, b: Coords2D) -> bool {
    a != b && gap(a.0, b.0) <= 1 && gap(a.1, b.1) <= 1
}

/// Calls `Map2D::is_traversable` of `movingai` for `MovingAiMap`.
///
/// Trusted: the call is true exactly for a cell within the map's width and
/// height whose tile is one of `.`, `G`, `S` and `W`; for a cell off the
/// map it is false.
#[verifier::external_body]
pub(crate) fn is_traversable(map: &MovingAiMap, cell: Coords2D) -> (free: bool)
    ensures
        free == {
            &&& cell.1 < map_rows(*map).len()
            &&& cell.0 < map_rows(*map)[cell.1 as int].len()
            &&& free_tile(map_rows(*map)[cell.1 as int][cell.0 as int])
        },
{
    map.is_traversable(cell)
}

/// Whether the cell exists and is traversable.
pub fn is_free(map: &MovingAiMap, cell: Option<Coords2D>) -> (free: bool)
    ensures
        free == free_at(*map, cell),
{
    match cell {
        Some(cell) => is_traversable(map, cell),
        None => false,
    }
}

/// Calls `Map2D::neighbors` of `movingai` for `MovingAiMap`.
///
/// Trusted: the call depends on the map and the cell alone; it lists at most
/// eight cells, each of them touching `cell` by a side or a corner and none
/// of them `cell` itself.
#[verifier::external_body]
pub(crate) fn neighbors(map: &MovingAiMap, cell: Coords2D) -> (cells: Vec<Coords2D>)
    ensures
        cells@ == map_neighbors(*map, cell),
        cells@.len() <= 8,
        forall|i: int| 0 <= i < cells@.len() ==> adjacent(cell, #[trigger] cells@[i]),
{
    map.neighbors(cell).into_iter().collect()
}

} // verus!
