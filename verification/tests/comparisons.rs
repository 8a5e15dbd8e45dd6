use vrp_verifier::numeric::{fl, fl_to_text, sqrt_fl};
use vrp_verifier::point::Point;
use vrp_verifier::verify::{compare, Comparison};

#[test]
fn compare_without_a_best_is_better() {
    assert_eq!(compare(3, &fl(100), None), Comparison::BetterThan);
}

#[test]
fn compare_prefers_fewer_routes() {
    let d = fl(500);
    let best = fl(100);
    assert_eq!(compare(2, &d, Some((3, &best))), Comparison::BetterThan);
    assert_eq!(compare(4, &d, Some((3, &best))), Comparison::WorseThan);
}

#[test]
fn compare_equal_routes_by_distance() {
    let best = fl(100);
    assert_eq!(compare(3, &fl(99), Some((3, &best))), Comparison::BetterThan);
    assert_eq!(compare(3, &fl(100), Some((3, &best))), Comparison::EqualTo);
    assert_eq!(compare(3, &fl(101), Some((3, &best))), Comparison::WorseThan);
}

#[test]
fn exact_integers_render_with_fixed_places() {
    assert_eq!(
        fl_to_text(&fl(68)),
        "68.00000000000000000000000000000000000000"
    );
    assert_eq!(
        fl_to_text(&fl(-5)),
        "-5.00000000000000000000000000000000000000"
    );
}

#[test]
fn square_roots_of_perfect_squares_are_exact() {
    assert_eq!(sqrt_fl(25), fl(5));
    assert_eq!(sqrt_fl(0), fl(0));
    let a = Point {
        id: 0,
        x: 0,
        y: 0,
        demand: 0,
        start: 0,
        due: 0,
        service: 0,
        pickup_delivery: None,
    };
    let b = Point { x: 3, y: 4, ..a };
    assert_eq!(a.dist(&b), fl(5));
}
