use blitz_path::a_star_path;
use blitz_path::jps_path;
use blitz_path::Route;
use movingai::Map2D;
use blitz_path::cost::DIAGONAL;
use blitz_path::cost::UNIT;
use movingai::MapType;
use movingai::MovingAiMap;

fn grid(rows: &[&str]) -> MovingAiMap {
    let height = rows.len();
    let width = rows[0].len();
    let mut tiles = Vec::new();
    for row in rows {
        assert_eq!(row.len(), width);
        for tile in row.chars() {
            tiles.push(tile);
        }
    }
    MovingAiMap::new(MapType::Octile, height, width, tiles).unwrap()
}

#[test]
fn a_star_crosses_an_open_field() {
    let map = grid(&[".....", ".....", ".....", ".....", "....."]);
    let route = a_star_path(&map, (0, 0), (4, 4)).unwrap();
    assert_eq!(route.distance(), 4 * DIAGONAL);
    assert_eq!(route.steps(), vec![(4, 4), (3, 3), (2, 2), (1, 1), (0, 0)]);
    let route = a_star_path(&map, (0, 2), (4, 2)).unwrap();
    assert_eq!(route.distance(), 4 * UNIT);
}

fn field() -> MovingAiMap {
    grid(&[".....", ".....", ".....", ".....", "....."])
}

fn wall() -> MovingAiMap {
    grid(&["..@..", "..@..", "..@..", "..@..", "..@.."])
}

fn gate() -> MovingAiMap {
    grid(&[".......", "...@...", "...@...", "...@...", "...@..."])
}

fn moves_one_cell_at_a_time(route: &Route) -> bool {
    let steps = route.steps();
    for pair in steps.windows(2) {
        if pair[0].0.abs_diff(pair[1].0) > 1 || pair[0].1.abs_diff(pair[1].1) > 1 {
            return false;
        }
        if pair[0] == pair[1] {
            return false;
        }
    }
    true
}

#[test]
fn a_star_returns_an_empty_route_from_a_cell_to_itself() {
    let route = a_star_path(&field(), (2, 3), (2, 3)).unwrap();
    assert_eq!(route.distance(), 0);
    assert!(route.steps().is_empty());
    let route = a_star_path(&wall(), (2, 0), (2, 0)).unwrap();
    assert_eq!(route.distance(), 0);
    assert!(route.steps().is_empty());
    let route = a_star_path(&field(), (90, 90), (90, 90)).unwrap();
    assert_eq!(route.distance(), 0);
    assert!(route.steps().is_empty());
}

#[test]
fn jps_returns_an_empty_route_from_a_cell_to_itself() {
    let route = jps_path(&field(), (2, 3), (2, 3)).unwrap();
    assert_eq!(route.distance(), 0);
    assert!(route.steps().is_empty());
    let route = jps_path(&wall(), (2, 0), (2, 0)).unwrap();
    assert_eq!(route.distance(), 0);
    assert!(route.steps().is_empty());
    let route = jps_path(&field(), (0, 0), (0, 0)).unwrap();
    assert_eq!(route.distance(), 0);
    assert!(route.steps().is_empty());
}

#[test]
fn a_star_finds_no_path_across_a_wall() {
    assert!(a_star_path(&wall(), (0, 0), (4, 4)).is_none());
    assert!(a_star_path(&wall(), (1, 2), (3, 2)).is_none());
}

#[test]
fn jps_finds_no_path_across_a_wall() {
    assert!(jps_path(&wall(), (0, 0), (4, 4)).is_none());
    assert!(jps_path(&wall(), (1, 2), (3, 2)).is_none());
}

#[test]
fn both_find_no_path_to_an_enclosed_goal() {
    let map = grid(&[".....", ".@@@.", ".@.@.", ".@@@.", "....."]);
    assert!(a_star_path(&map, (0, 0), (2, 2)).is_none());
    assert!(jps_path(&map, (0, 0), (2, 2)).is_none());
    assert!(a_star_path(&map, (2, 2), (0, 0)).is_none());
    assert!(jps_path(&map, (2, 2), (0, 0)).is_none());
    assert!(a_star_path(&map, (0, 0), (4, 4)).is_some());
    assert!(jps_path(&map, (0, 0), (4, 4)).is_some());
}

#[test]
fn a_star_finds_no_path_from_outside_the_map() {
    assert!(a_star_path(&field(), (7, 7), (1, 1)).is_none());
    assert!(a_star_path(&field(), (1, 1), (7, 7)).is_none());
}

#[test]
fn jps_crosses_an_open_field() {
    let map = field();
    let route = jps_path(&map, (0, 0), (4, 4)).unwrap();
    assert_eq!(route.distance(), 4 * DIAGONAL);
    assert_eq!(route.steps(), vec![(4, 4), (3, 3), (2, 2), (1, 1), (0, 0)]);
    let route = jps_path(&map, (0, 2), (4, 2)).unwrap();
    assert_eq!(route.distance(), 4 * UNIT);
    assert_eq!(route.steps(), vec![(4, 2), (3, 2), (2, 2), (1, 2), (0, 2)]);
    let route = jps_path(&map, (4, 4), (3, 0)).unwrap();
    assert_eq!(route.distance(), DIAGONAL + 3 * UNIT);
    assert_eq!(route.steps().len(), 5);
}

#[test]
fn jps_starts_in_a_corner_of_the_map() {
    let map = field();
    let route = jps_path(&map, (0, 0), (0, 4)).unwrap();
    assert_eq!(route.distance(), 4 * UNIT);
    let route = jps_path(&map, (4, 4), (0, 0)).unwrap();
    assert_eq!(route.distance(), 4 * DIAGONAL);
    let route = jps_path(&map, (4, 0), (0, 4)).unwrap();
    assert_eq!(route.distance(), 4 * DIAGONAL);
}

#[test]
fn both_pass_through_a_gate() {
    let map = gate();
    let walked = a_star_path(&map, (0, 4), (6, 4)).unwrap();
    let jumped = jps_path(&map, (0, 4), (6, 4)).unwrap();
    assert!(moves_one_cell_at_a_time(&walked));
    assert!(moves_one_cell_at_a_time(&jumped));
    assert_eq!(walked.steps()[0], (6, 4));
    assert_eq!(jumped.steps()[0], (6, 4));
    assert_eq!(walked.steps()[walked.steps().len() - 1], (0, 4));
    assert_eq!(jumped.steps()[jumped.steps().len() - 1], (0, 4));
    for step in walked.steps() {
        assert!(map.is_traversable(step));
    }
    for step in jumped.steps() {
        assert!(map.is_traversable(step));
    }
    assert_eq!(walked.distance(), 4 * DIAGONAL + 6 * UNIT);
    assert_eq!(walked.steps().len(), 11);
    assert_eq!(jumped.distance(), 6 * DIAGONAL + 2 * UNIT);
    assert_eq!(jumped.steps().len(), 9);
}

#[test]
fn both_report_the_same_distance_and_steps_in_the_open() {
    let map = field();
    for (start, goal) in [((0, 0), (4, 4)), ((0, 2), (4, 2)), ((4, 4), (3, 0)), ((1, 0), (3, 4))] {
        let walked = a_star_path(&map, start, goal).unwrap();
        let jumped = jps_path(&map, start, goal).unwrap();
        assert_eq!(walked.distance() as f32, jumped.distance() as f32);
        assert_eq!(walked.distance(), jumped.distance());
        assert_eq!(walked.steps().len(), jumped.steps().len());
        assert!(moves_one_cell_at_a_time(&walked));
        assert!(moves_one_cell_at_a_time(&jumped));
    }
}

#[test]
fn a_star_walks_around_a_corner_that_jps_passes() {
    let map = grid(&[".@", ".."]);
    let walked = a_star_path(&map, (0, 0), (1, 1)).unwrap();
    assert_eq!(walked.distance(), 2 * UNIT);
    assert_eq!(walked.steps(), vec![(1, 1), (0, 1), (0, 0)]);
    let jumped = jps_path(&map, (0, 0), (1, 1)).unwrap();
    assert_eq!(jumped.distance(), DIAGONAL);
    assert_eq!(jumped.steps(), vec![(1, 1), (0, 0)]);
}

#[test]
fn a_star_moves_as_the_map_allows() {
    let map = MovingAiMap::new(MapType::FourConnected, 2, 2, vec!['.', '.', '.', '.']).unwrap();
    let route = a_star_path(&map, (0, 0), (1, 1)).unwrap();
    assert_eq!(route.distance(), 2 * UNIT);
    assert_eq!(route.steps().len(), 3);
    let map = grid(&["..W", "...", "..."]);
    assert!(a_star_path(&map, (0, 0), (2, 0)).is_none());
    let map = grid(&["WWW", "...", "..."]);
    let route = a_star_path(&map, (0, 0), (2, 0)).unwrap();
    assert_eq!(route.distance(), 2 * UNIT);
}

#[test]
fn jps_reaches_a_goal_next_to_the_start() {
    let map = field();
    let route = jps_path(&map, (2, 2), (3, 2)).unwrap();
    assert_eq!(route.distance(), UNIT);
    assert_eq!(route.steps(), vec![(3, 2), (2, 2)]);
    let route = jps_path(&map, (2, 2), (1, 1)).unwrap();
    assert_eq!(route.distance(), DIAGONAL);
    assert_eq!(route.steps(), vec![(1, 1), (2, 2)]);
}

#[test]
fn searches_are_repeatable() {
    let map = gate();
    let first = a_star_path(&map, (0, 4), (6, 4)).unwrap();
    let second = a_star_path(&map, (0, 4), (6, 4)).unwrap();
    assert_eq!(first.distance(), second.distance());
    assert_eq!(first.steps(), second.steps());
    let first = jps_path(&map, (0, 4), (6, 4)).unwrap();
    let second = jps_path(&map, (0, 4), (6, 4)).unwrap();
    assert_eq!(first.distance(), second.distance());
    assert_eq!(first.steps(), second.steps());
}
