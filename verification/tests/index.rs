use heatmap::path::Point;
use heatmap::path::Points;

fn points(coords: &[(i64, i64)]) -> Vec<Point> {
    coords.iter().map(|&(lat, lon)| Point::new(lat, lon)).collect()
}

fn close(index: &Points, lat: i64, lon: i64) -> Vec<(i64, i64)> {
    index.get_close(Point::new(lat, lon)).iter().map(|p| (p.lat, p.lon)).collect()
}

#[test]
fn address_counts_whole_cell_widths() {
    assert_eq!(Points::address(Point::new(0, 0), 10), (0, 0));
    assert_eq!(Points::address(Point::new(9, 10), 10), (0, 1));
    assert_eq!(Points::address(Point::new(25, 399), 10), (2, 39));
}

#[test]
fn address_discards_the_sign() {
    assert_eq!(Points::address(Point::new(-25, 25), 10), (2, 2));
    assert_eq!(Points::address(Point::new(25, 25), -10), (2, 2));
    assert_eq!(Points::address(Point::new(i64::MIN, i64::MAX), 1), (1 << 63, (1 << 63) - 1));
    assert_eq!(Points::address(Point::new(i64::MIN, 0), i64::MIN), (1, 0));
}

#[test]
fn address_with_cells_of_no_width() {
    assert_eq!(Points::address(Point::new(0, 0), 0), (0, 0));
    assert_eq!(Points::address(Point::new(1, -1), 0), (u64::MAX, u64::MAX));
    assert_eq!(Points::address(Point::new(0, 5), 0), (0, u64::MAX));
}

#[test]
fn index_reports_its_radius() {
    assert_eq!(Points::new(vec![], 350_000).radius(), 350_000);
}

#[test]
fn every_indexed_point_is_close_to_itself() {
    let all = points(&[(0, 0), (5, 5), (-17, 40), (1000, -1000), (i64::MAX, i64::MIN), (9, 10)]);
    for radius in [0, 1, 10, 350_000, i64::MAX] {
        let index = Points::new(all.clone(), radius);
        for p in all.iter() {
            let found = index.get_close(*p);
            assert!(found.iter().any(|q| q.lat == p.lat && q.lon == p.lon));
        }
    }
}

#[test]
fn query_returns_the_points_within_the_radius() {
    let index = Points::new(points(&[(0, 0), (3, 4), (6, 8), (10, 0), (11, 0), (0, -5)]), 5);
    let mut found = close(&index, 0, 0);
    found.sort();
    assert_eq!(found, vec![(0, -5), (0, 0), (3, 4)]);
    let mut found = close(&index, 6, 4);
    found.sort();
    assert_eq!(found, vec![(3, 4), (6, 8)]);
    let mut found = close(&index, 10, 3);
    found.sort();
    assert_eq!(found, vec![(10, 0), (11, 0)]);
}

#[test]
fn query_goes_row_by_row_and_cell_by_cell() {
    let index = Points::new(
        points(&[(25, 25), (15, 15), (15, 25), (25, 15), (24, 24), (15, 35), (35, 15)]),
        10,
    );
    assert_eq!(
        close(&index, 25, 25),
        vec![(15, 25), (25, 15), (25, 25), (24, 24)]
    );
    let wide = Points::new(
        points(&[(25, 25), (15, 15), (15, 25), (25, 15), (24, 24), (16, 34), (34, 16)]),
        15,
    );
    assert_eq!(
        close(&wide, 25, 25),
        vec![(25, 25), (15, 15), (15, 25), (25, 15), (24, 24), (16, 34), (34, 16)]
    );
}

#[test]
fn query_keeps_every_copy_of_a_point() {
    let index = Points::new(points(&[(1, 1), (1, 1), (2, 2), (1, 1)]), 0);
    assert_eq!(close(&index, 1, 1), vec![(1, 1), (1, 1), (1, 1)]);
}

#[test]
fn query_at_the_edge_of_the_grid() {
    let index = Points::new(points(&[(0, 0), (1, 1), (-1, -1), (i64::MAX, i64::MAX)]), 1);
    let mut found = close(&index, 0, 0);
    found.sort();
    assert_eq!(found, vec![(0, 0)]);
    let mut found = close(&index, 0, 1);
    found.sort();
    assert_eq!(found, vec![(0, 0), (1, 1)]);
    assert_eq!(close(&index, i64::MAX, i64::MAX), vec![(i64::MAX, i64::MAX)]);
    let zero = Points::new(points(&[(7, 7), (0, 0)]), 0);
    assert_eq!(close(&zero, 7, 7), vec![(7, 7)]);
    assert_eq!(close(&zero, 0, 0), vec![(0, 0)]);
}

#[test]
fn points_of_the_other_hemisphere_share_cells_but_are_not_close() {
    let index = Points::new(points(&[(25, 25), (-25, -25), (-25, 25)]), 10);
    assert_eq!(close(&index, 25, 25), vec![(25, 25)]);
    assert_eq!(close(&index, -25, -25), vec![(-25, -25)]);
    let near_zero = Points::new(points(&[(3, 3), (-3, -3), (-3, 3)]), 10);
    let mut found = close(&near_zero, 0, 0);
    found.sort();
    assert_eq!(found, vec![(-3, -3), (-3, 3), (3, 3)]);
}

#[test]
fn radius_of_zero_matches_exact_copies_only() {
    let index = Points::new(points(&[(5, 5), (5, 6), (5, 5), (0, 0), (6, 5)]), 0);
    assert_eq!(close(&index, 5, 5), vec![(5, 5), (5, 5)]);
    assert_eq!(close(&index, 5, 6), vec![(5, 6)]);
    assert_eq!(close(&index, 0, 0), vec![(0, 0)]);
    assert_eq!(close(&index, 1, 1), vec![]);
}

#[test]
fn negative_radius_matches_nothing() {
    let index = Points::new(points(&[(5, 5), (0, 0)]), -10);
    assert_eq!(close(&index, 5, 5), vec![]);
    assert_eq!(close(&index, 0, 0), vec![]);
}

#[test]
fn empty_index_answers_nothing() {
    let index = Points::new(vec![], 10);
    assert_eq!(close(&index, 0, 0), vec![]);
}
