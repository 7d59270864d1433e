use heatmap::path::Path;
use heatmap::path::Point;

fn track(coords: &[(i64, i64)]) -> Path {
    Path::new(coords.iter().map(|&(lat, lon)| Point::new(lat, lon)).collect())
}

fn coords(path: &Path) -> Vec<(i64, i64)> {
    path.points.iter().map(|p| (p.lat, p.lon)).collect()
}

#[test]
fn smooth_of_empty_track_is_empty() {
    assert_eq!(coords(&track(&[]).smooth()), vec![]);
}

#[test]
fn smooth_of_single_point_yields_it_twice() {
    assert_eq!(coords(&track(&[(7, -9)]).smooth()), vec![(7, -9), (7, -9)]);
}

#[test]
fn smooth_of_two_points_changes_nothing() {
    assert_eq!(coords(&track(&[(1, 2), (30, 40)]).smooth()), vec![(1, 2), (30, 40)]);
}

#[test]
fn smooth_averages_interior_points() {
    let path = track(&[(0, 0), (3, 30), (9, -60), (100, 100)]);
    assert_eq!(coords(&path.smooth()), vec![(0, 0), (4, -10), (37, 23), (100, 100)]);
}
