use heatmap::path::Point;
use heatmap::point::mean_of;
use heatmap::point::mean_of_three;

#[test]
fn new_point_holds_its_coordinates() {
    let p = Point::new(47_644_548_000, -122_326_897_000);
    assert_eq!((p.lat, p.lon), (47_644_548_000, -122_326_897_000));
}

#[test]
fn points_are_equal_up_to_a_millionth_of_a_degree() {
    assert!(Point::new(1_000, 2_000) == Point::new(1_999, 2_001));
    assert!(Point::new(1_000, 2_000) != Point::new(2_000, 2_000));
    assert!(Point::new(1_000, 2_000) != Point::new(1_000, 1_999));
    assert!(Point::new(999, 0) == Point::new(0, 0));
    assert!(Point::new(999, 0) != Point::new(1_000, 0));
}

#[test]
fn quantization_cuts_toward_zero() {
    assert_eq!(Point::new(1_999, -1_999).quantize(), (1, -1));
    assert_eq!(Point::new(-999, 999).quantize(), (0, 0));
    assert!(Point::new(-999, 999) == Point::new(999, -999));
    assert!(Point::new(-1_000, 0) != Point::new(-999, 0));
    assert_eq!(Point::new(i64::MIN, i64::MAX).quantize(), (-9_223_372_036_854_775, 9_223_372_036_854_775));
}

#[test]
fn equality_agrees_with_the_quantized_key() {
    let samples = [-2_001, -2_000, -1_999, -1_000, -999, -1, 0, 1, 999, 1_000, 1_999, 2_000];
    for &a in samples.iter() {
        for &b in samples.iter() {
            let p = Point::new(a, b);
            let q = Point::new(b, a);
            assert_eq!(p == q, p.quantize() == q.quantize());
        }
    }
}

#[test]
fn sum_difference_and_quotient_of_points() {
    let p = Point::new(10, -20);
    let q = Point::new(3, 7);
    let sum = p + q;
    assert_eq!((sum.lat, sum.lon), (13, -13));
    let difference = p - q;
    assert_eq!((difference.lat, difference.lon), (7, -27));
    let quotient = Point::new(7, -7) / 2;
    assert_eq!((quotient.lat, quotient.lon), (3, -3));
    let negated = Point::new(7, -7) / -2;
    assert_eq!((negated.lat, negated.lon), (-3, 3));
}

#[test]
fn distance_is_euclidean() {
    let origin = Point::new(0, 0);
    assert!(Point::new(3, 4).is_within(origin, 5));
    assert!(!Point::new(3, 4).is_within(origin, 4));
    assert!(Point::new(-3, -4).is_within(origin, 5));
    assert!(!Point::new(4, 4).is_within(origin, 5));
    assert!(origin.is_within(origin, 0));
    assert!(!Point::new(1, 0).is_within(origin, 0));
    assert!(!origin.is_within(origin, -1));
}

#[test]
fn distance_between_the_farthest_points() {
    let low = Point::new(i64::MIN, i64::MIN);
    let high = Point::new(i64::MAX, i64::MAX);
    assert!(!low.is_within(high, i64::MAX));
    assert!(low.is_within(low, i64::MAX));
    assert!(Point::new(0, 0).is_within(Point::new(i64::MAX, 0), i64::MAX));
    assert!(!Point::new(0, 1).is_within(Point::new(i64::MAX, 0), i64::MAX));
}

#[test]
fn mean_of_no_point_is_none() {
    assert!(mean_of(&vec![]).is_none());
}

#[test]
fn mean_rounds_toward_zero() {
    let m = mean_of(&vec![Point::new(1, -1), Point::new(2, -2)]).unwrap();
    assert_eq!((m.lat, m.lon), (1, -1));
    let m = mean_of(&vec![Point::new(5, -5)]).unwrap();
    assert_eq!((m.lat, m.lon), (5, -5));
    let m = mean_of_three(Point::new(1, -1), Point::new(1, -1), Point::new(2, -2));
    assert_eq!((m.lat, m.lon), (1, -1));
}

#[test]
fn mean_of_extreme_points_does_not_overflow() {
    let m = mean_of(&vec![Point::new(i64::MAX, i64::MIN); 5]).unwrap();
    assert_eq!((m.lat, m.lon), (i64::MAX, i64::MIN));
    let m = mean_of_three(
        Point::new(i64::MAX, i64::MIN),
        Point::new(i64::MAX, i64::MIN),
        Point::new(i64::MAX, i64::MIN),
    );
    assert_eq!((m.lat, m.lon), (i64::MAX, i64::MIN));
}

#[test]
fn point_as_text() {
    assert_eq!(Point::new(47_644_548_000, -122_326_897_000).to_text(), "[47.644548, -122.326897]");
    assert_eq!(Point::new(0, 0).to_text(), "[0, 0]");
}

#[test]
fn same_place_is_equality() {
    assert!(heatmap::point::same_place(Point::new(1_000, 2_000), Point::new(1_999, 2_001)));
    assert!(!heatmap::point::same_place(Point::new(1_000, 2_000), Point::new(2_000, 2_000)));
}
