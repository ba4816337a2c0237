use blitz_path::Route;

#[test]
fn route_hands_out_what_it_was_built_from() {
    let route = Route::from((77, vec![(2, 2), (1, 1), (0, 0)]));
    assert_eq!(route.distance(), 77);
    assert_eq!(route.steps(), vec![(2, 2), (1, 1), (0, 0)]);
    assert_eq!(route.steps(), route.steps());
}

#[test]
fn route_may_be_empty() {
    let route = Route::from((0, vec![]));
    assert_eq!(route.distance(), 0);
    assert!(route.steps().is_empty());
}
