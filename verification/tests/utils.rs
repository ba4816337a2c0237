use blitz_path::node::Node;
use blitz_path::utils::direction;
use blitz_path::utils::find_position;
use blitz_path::utils::is_aligned;
use blitz_path::utils::rewind;
use blitz_path::utils::shift;

#[test]
fn direction_has_unit_components() {
    assert_eq!(direction((3, 3), (1, 5)), (1, -1));
    assert_eq!(direction((1, 5), (3, 3)), (-1, 1));
    assert_eq!(direction((9, 2), (2, 2)), (1, 0));
    assert_eq!(direction((2, 0), (2, 200)), (0, -1));
    assert_eq!(direction((4, 4), (4, 4)), (0, 0));
    assert_eq!(direction((usize::MAX, 0), (0, usize::MAX)), (1, -1));
}

#[test]
fn shift_moves_by_the_direction() {
    assert_eq!(shift((5, 5), (1, -1)), Some((6, 4)));
    assert_eq!(shift((5, 5), (0, 0)), Some((5, 5)));
    assert_eq!(shift((5, 5), (-1, 1)), Some((4, 6)));
    assert_eq!(shift((5, 5), (3, -5)), Some((8, 0)));
}

#[test]
fn shift_does_not_leave_the_coordinates() {
    assert_eq!(shift((0, 0), (-1, 0)), None);
    assert_eq!(shift((0, 0), (0, -1)), None);
    assert_eq!(shift((3, 0), (1, -1)), None);
    assert_eq!(shift((usize::MAX, 0), (1, 0)), None);
    assert_eq!(shift((0, usize::MAX), (0, 1)), None);
    assert_eq!(shift((usize::MAX, usize::MAX), (-1, -1)), Some((usize::MAX - 1, usize::MAX - 1)));
}

#[test]
fn aligned_cells_share_a_row_a_column_or_a_diagonal() {
    assert!(is_aligned((2, 2), (2, 9)));
    assert!(is_aligned((2, 2), (7, 2)));
    assert!(is_aligned((2, 2), (5, 5)));
    assert!(is_aligned((2, 5), (5, 2)));
    assert!(is_aligned((2, 2), (2, 2)));
    assert!(!is_aligned((0, 0), (2, 1)));
    assert!(!is_aligned((4, 1), (1, 3)));
}

#[test]
fn find_position_returns_the_first_node_on_the_cell() {
    let nodes = vec![
        Node::new(1, 0, (0, 0), (0, 0)),
        Node::new(2, 0, (1, 1), (0, 0)),
        Node::new(3, 0, (1, 1), (2, 2)),
    ];
    assert_eq!(find_position(&nodes, (1, 1)), Some(1));
    assert_eq!(find_position(&nodes, (0, 0)), Some(0));
    assert_eq!(find_position(&nodes, (2, 2)), None);
    assert_eq!(find_position(&Vec::new(), (0, 0)), None);
}

#[test]
fn rewind_of_a_node_without_predecessor_is_its_cell() {
    let start = Node::new(0, 0, (4, 4), (4, 4));
    assert_eq!(rewind(&start, &Vec::new()), Some(vec![(4, 4)]));
}

#[test]
fn rewind_follows_single_steps() {
    let closed = vec![
        Node::new(0, 0, (0, 0), (0, 0)),
        Node::new(0, 0, (1, 0), (0, 0)),
        Node::new(0, 0, (2, 1), (1, 0)),
    ];
    let goal = Node::new(0, 0, (2, 2), (2, 1));
    assert_eq!(rewind(&goal, &closed), Some(vec![(2, 2), (2, 1), (1, 0), (0, 0)]));
}

#[test]
fn rewind_fills_in_the_cells_of_a_jump() {
    let closed = vec![Node::new(0, 0, (0, 0), (0, 0)), Node::new(0, 0, (3, 3), (0, 0))];
    let goal = Node::new(0, 0, (3, 6), (3, 3));
    assert_eq!(
        rewind(&goal, &closed),
        Some(vec![(3, 6), (3, 5), (3, 4), (3, 3), (2, 2), (1, 1), (0, 0)])
    );
    let closed = vec![Node::new(0, 0, (5, 1), (5, 1))];
    let goal = Node::new(0, 0, (1, 5), (5, 1));
    assert_eq!(rewind(&goal, &closed), Some(vec![(1, 5), (2, 4), (3, 3), (4, 2), (5, 1)]));
}

#[test]
fn rewind_uses_the_first_node_on_a_cell() {
    let closed = vec![
        Node::new(0, 0, (0, 0), (0, 0)),
        Node::new(0, 0, (1, 1), (0, 0)),
        Node::new(0, 0, (1, 1), (1, 0)),
        Node::new(0, 0, (1, 0), (0, 0)),
    ];
    let goal = Node::new(0, 0, (2, 1), (1, 1));
    assert_eq!(rewind(&goal, &closed), Some(vec![(2, 1), (1, 1), (0, 0)]));
}

#[test]
fn rewind_stops_where_a_parent_is_missing() {
    let closed = vec![Node::new(0, 0, (0, 0), (0, 0))];
    let goal = Node::new(0, 0, (2, 2), (1, 1));
    assert_eq!(rewind(&goal, &closed), None);
}

#[test]
fn rewind_stops_where_a_parent_is_not_on_a_line() {
    let closed = vec![Node::new(0, 0, (0, 0), (0, 0))];
    let goal = Node::new(0, 0, (2, 1), (0, 0));
    assert_eq!(rewind(&goal, &closed), None);
}

#[test]
fn rewind_stops_where_the_links_go_round() {
    let closed = vec![Node::new(0, 0, (0, 0), (1, 0)), Node::new(0, 0, (1, 0), (0, 0))];
    let goal = Node::new(0, 0, (2, 0), (1, 0));
    assert_eq!(rewind(&goal, &closed), None);
}
