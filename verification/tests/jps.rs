use blitz_path::cost::DIAGONAL;
use blitz_path::cost::UNIT;
use blitz_path::grid::is_free;
use blitz_path::jps::check_jump;
use blitz_path::jps::expand;
use blitz_path::jps::forced_horizontal;
use blitz_path::jps::forced_vertical;
use blitz_path::jps::Direction;
use blitz_path::node::Node;
use movingai::MapType;
use movingai::MovingAiMap;

fn grid(rows: &[&str]) -> MovingAiMap {
    let height = rows.len();
    let width = rows[0].len();
    let mut tiles = Vec::new();
    for row in rows {
        assert_eq!(row.len(), width);
        for tile in row.chars() {
            tiles.push(tile);
        }
    }
    MovingAiMap::new(MapType::Octile, height, width, tiles).unwrap()
}

fn pillar() -> MovingAiMap {
    grid(&[".....", ".@...", "....."])
}

fn places(nodes: &Vec<Node>) -> Vec<((usize, usize), (usize, usize))> {
    nodes.iter().map(|node| (node.position, node.parent)).collect()
}

#[test]
fn free_cells_lie_on_the_map_and_can_be_walked_on() {
    let map = grid(&[".G@", "SWT", "O.x"]);
    assert!(is_free(&map, Some((0, 0))));
    assert!(is_free(&map, Some((1, 0))));
    assert!(!is_free(&map, Some((2, 0))));
    assert!(is_free(&map, Some((0, 1))));
    assert!(is_free(&map, Some((1, 1))));
    assert!(!is_free(&map, Some((2, 1))));
    assert!(!is_free(&map, Some((0, 2))));
    assert!(is_free(&map, Some((1, 2))));
    assert!(!is_free(&map, Some((2, 2))));
    assert!(!is_free(&map, Some((3, 0))));
    assert!(!is_free(&map, Some((0, 3))));
    assert!(!is_free(&map, Some((usize::MAX, usize::MAX))));
    assert!(!is_free(&map, None));
}

#[test]
fn forced_horizontal_finds_the_cell_behind_a_block() {
    let map = pillar();
    let check = Node::new(UNIT, 0, (1, 2), (0, 2));
    let mut nodes = Vec::new();
    forced_horizontal(&mut nodes, &map, &check, 1, (4, 0));
    assert_eq!(places(&nodes), vec![((2, 1), (1, 2))]);
    assert_eq!(nodes[0].g, UNIT + DIAGONAL);
    assert_eq!(nodes[0].h, 9603838835);
    assert_eq!(nodes[0].f, UNIT + DIAGONAL + 9603838835);
}

#[test]
fn forced_horizontal_looks_at_both_sides() {
    let map = grid(&[".@...", ".....", ".@..."]);
    let check = Node::new(0, 0, (1, 1), (0, 1));
    let mut nodes = vec![check];
    forced_horizontal(&mut nodes, &map, &check, 1, (4, 1));
    assert_eq!(
        places(&nodes),
        vec![((1, 1), (0, 1)), ((2, 0), (1, 1)), ((2, 2), (1, 1))]
    );
    let mut nodes = Vec::new();
    forced_horizontal(&mut nodes, &map, &check, -1, (4, 1));
    assert_eq!(places(&nodes), vec![((0, 0), (1, 1)), ((0, 2), (1, 1))]);
}

#[test]
fn forced_horizontal_finds_nothing_in_the_open_or_at_the_edge() {
    let map = pillar();
    let mut nodes = Vec::new();
    forced_horizontal(&mut nodes, &map, &Node::new(0, 0, (3, 1), (2, 1)), 1, (4, 0));
    assert!(nodes.is_empty());
    forced_horizontal(&mut nodes, &map, &Node::new(0, 0, (2, 0), (1, 0)), 1, (4, 0));
    assert!(nodes.is_empty());
    forced_horizontal(&mut nodes, &map, &Node::new(0, 0, (0, 2), (1, 2)), -1, (4, 0));
    assert!(nodes.is_empty());
    forced_horizontal(&mut nodes, &map, &Node::new(0, 0, (1, 2), (2, 2)), -1, (4, 0));
    assert_eq!(places(&nodes), vec![((0, 1), (1, 2))]);
}

#[test]
fn forced_vertical_finds_the_cell_behind_a_block() {
    let map = pillar();
    let check = Node::new(0, 0, (0, 1), (0, 0));
    let mut nodes = Vec::new();
    forced_vertical(&mut nodes, &map, &check, 1, (4, 2));
    assert_eq!(places(&nodes), vec![((1, 2), (0, 1))]);
    assert_eq!(nodes[0].g, DIAGONAL);
    assert_eq!(nodes[0].h, 3 * UNIT);
    let mut nodes = Vec::new();
    forced_vertical(&mut nodes, &map, &check, -1, (4, 2));
    assert_eq!(places(&nodes), vec![((1, 0), (0, 1))]);
    let mut nodes = Vec::new();
    forced_vertical(&mut nodes, &map, &Node::new(0, 0, (2, 1), (2, 0)), 1, (4, 2));
    assert_eq!(places(&nodes), vec![((1, 2), (2, 1))]);
    let mut nodes = Vec::new();
    forced_vertical(&mut nodes, &map, &Node::new(0, 0, (3, 1), (3, 0)), 1, (4, 2));
    assert!(nodes.is_empty());
}

#[test]
fn expand_stops_at_a_forced_neighbor() {
    let map = pillar();
    let start = Node::new(0, 0, (0, 2), (0, 2));
    let nodes = expand(&map, &start, Direction::Horizontal(1), (4, 0)).unwrap();
    assert_eq!(
        places(&nodes),
        vec![((2, 1), (1, 2)), ((1, 2), (0, 2)), ((2, 2), (1, 2))]
    );
    assert_eq!(nodes[0].g, UNIT + DIAGONAL);
    assert_eq!(nodes[1].g, UNIT);
    assert_eq!(nodes[2].g, 2 * UNIT);
}

#[test]
fn expand_returns_the_start_itself_when_it_has_a_forced_neighbor() {
    let map = pillar();
    let start = Node::new(5, 0, (1, 2), (0, 2));
    let nodes = expand(&map, &start, Direction::Horizontal(1), (4, 0)).unwrap();
    assert_eq!(
        places(&nodes),
        vec![((2, 1), (1, 2)), ((1, 2), (0, 2)), ((2, 2), (1, 2))]
    );
    assert_eq!(nodes[1].g, 5);
}

#[test]
fn expand_is_abandoned_at_an_obstacle() {
    let map = pillar();
    let start = Node::new(0, 0, (3, 1), (3, 1));
    assert!(expand(&map, &start, Direction::Horizontal(-1), (0, 0)).is_none());
    let blocked = Node::new(0, 0, (1, 1), (1, 1));
    assert!(expand(&map, &blocked, Direction::Horizontal(1), (0, 0)).is_none());
}

#[test]
fn expand_is_abandoned_at_the_edge() {
    let map = grid(&["...", "...", "..."]);
    let start = Node::new(0, 0, (1, 1), (1, 1));
    assert!(expand(&map, &start, Direction::Horizontal(1), (0, 0)).is_none());
    assert!(expand(&map, &start, Direction::Horizontal(-1), (2, 2)).is_none());
    assert!(expand(&map, &start, Direction::Vertical(1), (0, 0)).is_none());
    assert!(expand(&map, &start, Direction::Vertical(-1), (2, 2)).is_none());
    assert!(expand(&map, &start, Direction::Diagonal(-1, -1), (2, 2)).is_none());
    assert!(expand(&map, &start, Direction::Diagonal(1, 1), (0, 0)).is_none());
    let corner = Node::new(0, 0, (0, 0), (0, 0));
    assert!(expand(&map, &corner, Direction::Diagonal(-1, 1), (2, 2)).is_none());
}

#[test]
fn expand_returns_the_goal() {
    let map = pillar();
    let start = Node::new(0, 0, (4, 0), (4, 0));
    let nodes = expand(&map, &start, Direction::Vertical(1), (4, 2)).unwrap();
    assert_eq!(places(&nodes), vec![((4, 2), (4, 0))]);
    assert_eq!(nodes[0].g, 2 * UNIT);
    assert_eq!(nodes[0].h, 0);
    let nodes = expand(&map, &start, Direction::Vertical(1), (4, 0)).unwrap();
    assert_eq!(places(&nodes), vec![((4, 0), (4, 0))]);
}

#[test]
fn expand_returns_a_goal_that_cannot_be_walked_on() {
    let map = pillar();
    let start = Node::new(0, 0, (3, 1), (3, 1));
    let nodes = expand(&map, &start, Direction::Horizontal(-1), (1, 1)).unwrap();
    assert_eq!(places(&nodes), vec![((1, 1), (3, 1))]);
    let nodes = expand(&map, &start, Direction::Horizontal(1), (5, 1)).unwrap();
    assert_eq!(places(&nodes), vec![((5, 1), (3, 1))]);
}

#[test]
fn expand_crosses_a_field_diagonally() {
    let map = grid(&[".....", ".....", ".....", ".....", "....."]);
    let start = Node::new(0, 0, (0, 0), (0, 0));
    let nodes = expand(&map, &start, Direction::Diagonal(1, 1), (4, 4)).unwrap();
    assert_eq!(places(&nodes), vec![((4, 4), (0, 0))]);
    assert_eq!(nodes[0].g, 4 * DIAGONAL);
}

#[test]
fn expand_scans_both_ways_from_a_diagonal() {
    let map = grid(&[".....", ".....", ".....", ".....", "....."]);
    let start = Node::new(0, 0, (0, 0), (0, 0));
    let nodes = expand(&map, &start, Direction::Diagonal(1, 1), (3, 1)).unwrap();
    assert_eq!(
        places(&nodes),
        vec![((3, 1), (1, 1)), ((1, 1), (0, 0)), ((2, 2), (1, 1))]
    );
    assert_eq!(nodes[0].g, DIAGONAL + 2 * UNIT);
    let nodes = expand(&map, &start, Direction::Diagonal(1, 1), (2, 4)).unwrap();
    assert_eq!(
        places(&nodes),
        vec![((2, 4), (2, 2)), ((2, 2), (0, 0)), ((3, 3), (2, 2))]
    );
    assert_eq!(nodes[0].g, 2 * DIAGONAL + 2 * UNIT);
}

#[test]
fn expand_merges_the_horizontal_scan_before_the_vertical() {
    let map = grid(&["....", ".@..", "....", "...."]);
    let start = Node::new(0, 0, (0, 0), (0, 0));
    let nodes = expand(&map, &start, Direction::Diagonal(1, 1), (3, 3)).unwrap();
    assert_eq!(
        places(&nodes),
        vec![
            ((2, 1), (1, 0)),
            ((1, 0), (0, 0)),
            ((2, 0), (1, 0)),
            ((1, 2), (0, 1)),
            ((0, 1), (0, 0)),
            ((0, 2), (0, 1)),
            ((0, 0), (0, 0)),
            ((1, 1), (0, 0)),
        ]
    );
}

#[test]
fn expand_keeps_what_only_the_vertical_scan_finds() {
    let map = grid(&["....", "....", ".@..", "...."]);
    let start = Node::new(0, 0, (0, 0), (0, 0));
    let nodes = expand(&map, &start, Direction::Diagonal(1, 1), (3, 3)).unwrap();
    assert_eq!(
        places(&nodes),
        vec![
            ((1, 3), (0, 2)),
            ((0, 2), (0, 0)),
            ((0, 3), (0, 2)),
            ((0, 0), (0, 0)),
            ((1, 1), (0, 0)),
        ]
    );
    assert_eq!(nodes[0].g, 2 * UNIT + DIAGONAL);
    assert_eq!(nodes[4].g, DIAGONAL);
}

#[test]
fn check_jump_picks_the_kind_of_travel() {
    let map = pillar();
    let start = Node::new(0, 0, (0, 2), (0, 2));
    assert!(check_jump(&start, &map, (0, 0), (4, 0)).is_none());
    let nodes = check_jump(&start, &map, (1, 0), (4, 0)).unwrap();
    assert_eq!(
        places(&nodes),
        vec![((2, 1), (1, 2)), ((1, 2), (0, 2)), ((2, 2), (1, 2))]
    );
    let top = Node::new(0, 0, (4, 0), (4, 0));
    let nodes = check_jump(&top, &map, (0, 1), (4, 2)).unwrap();
    assert_eq!(places(&nodes), vec![((4, 2), (4, 0))]);
    let nodes = check_jump(&top, &map, (-1, 1), (2, 2)).unwrap();
    assert_eq!(
        places(&nodes),
        vec![
            ((0, 1), (1, 0)),
            ((1, 0), (4, 0)),
            ((0, 0), (1, 0)),
            ((4, 0), (4, 0)),
            ((3, 1), (4, 0)),
        ]
    );
}
