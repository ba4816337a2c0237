use blitz_path::cost::axis_gap;
use blitz_path::cost::distance;
use blitz_path::cost::isqrt_up;
use blitz_path::cost::COST_MAX;
use blitz_path::cost::DIAGONAL;
use blitz_path::cost::UNIT;

#[test]
fn isqrt_up_rounds_up() {
    assert_eq!(isqrt_up(0), 0);
    assert_eq!(isqrt_up(1), 1);
    assert_eq!(isqrt_up(2), 2);
    assert_eq!(isqrt_up(4), 2);
    assert_eq!(isqrt_up(5), 3);
    assert_eq!(isqrt_up(99), 10);
    assert_eq!(isqrt_up(100), 10);
    assert_eq!(isqrt_up(101), 11);
    assert_eq!(isqrt_up(u128::MAX), 18446744073709551616);
    assert_eq!(isqrt_up(18446744073709551615 * 18446744073709551615), 18446744073709551615);
}

#[test]
fn axis_gap_is_the_absolute_difference() {
    assert_eq!(axis_gap(3, 10), 7);
    assert_eq!(axis_gap(10, 3), 7);
    assert_eq!(axis_gap(4, 4), 0);
    assert_eq!(axis_gap(0, usize::MAX), usize::MAX);
}

#[test]
fn distance_of_a_cell_to_itself_is_zero() {
    assert_eq!(distance((2, 7), (2, 7)), 0);
    assert_eq!(distance((0, 0), (0, 0)), 0);
}

#[test]
fn distance_of_single_steps() {
    assert_eq!(UNIT, 1 << 32);
    assert_eq!(distance((5, 5), (6, 5)), UNIT);
    assert_eq!(distance((5, 5), (5, 4)), UNIT);
    assert_eq!(distance((5, 5), (6, 6)), DIAGONAL);
    assert_eq!(distance((5, 5), (4, 6)), 6074001000);
}

#[test]
fn distance_is_euclidean() {
    assert_eq!(distance((0, 0), (3, 4)), 5 * UNIT);
    assert_eq!(distance((10, 2), (4, 10)), 10 * UNIT);
    assert_eq!(distance((0, 0), (1, 2)), 9603838835);
    assert_eq!(distance((0, 0), (7, 7)), 42518007000);
}

#[test]
fn distance_does_not_depend_on_the_direction() {
    assert_eq!(distance((1, 9), (8, 3)), distance((8, 3), (1, 9)));
}

#[test]
fn distance_saturates() {
    assert_eq!(COST_MAX, u64::MAX);
    assert_eq!(distance((0, 0), (4294967295, 0)), 4294967295 * UNIT);
    assert_eq!(distance((0, 0), (4294967296, 0)), COST_MAX);
    assert_eq!(distance((0, 0), (0, usize::MAX)), COST_MAX);
    assert_eq!(distance((0, 0), (4294967295, 4294967295)), COST_MAX);
}

#[test]
fn distance_obeys_the_triangle_inequality() {
    let cells = [(0usize, 0usize), (2, 3), (5, 5), (7, 1), (1, 1), (20, 21)];
    for a in cells {
        for b in cells {
            for c in cells {
                assert!(distance(a, c) <= distance(a, b) + distance(b, c));
            }
        }
    }
    assert_eq!(distance((0, 0), (2, 2)), distance((0, 0), (1, 1)) + distance((1, 1), (2, 2)));
}

#[test]
fn distance_is_rounded_up() {
    assert_eq!(distance((0, 0), (1, 1)), 6074001000);
    assert!((distance((0, 0), (1, 1)) as f64) >= 2f64.sqrt() * 4294967296.0);
    assert!((distance((0, 0), (1, 1)) as f64) < 2f64.sqrt() * 4294967296.0 + 1.0);
    assert_eq!(distance((0, 0), (21, 21)), 127554020999);
}
