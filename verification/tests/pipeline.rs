use heatmap::files::format_of_lowered;
use heatmap::files::parse_track;
use heatmap::files::supports_file;
use heatmap::files::track_format;
use heatmap::files::TrackFormat;
use heatmap::json::as_json_arrays;
use heatmap::decimal_text::render_coordinate;
use heatmap::path::Path;
use heatmap::path::Point;
use heatmap::path::Points;
use heatmap::pipeline::clean_paths;
use heatmap::pipeline::smooth_all;
use heatmap::pipeline::DEFAULT_RADIUS;

fn track(coords: &[(i64, i64)]) -> Path {
    Path::new(coords.iter().map(|&(lat, lon)| Point::new(lat, lon)).collect())
}

fn coords(path: &Path) -> Vec<(i64, i64)> {
    path.points.iter().map(|p| (p.lat, p.lon)).collect()
}

#[test]
fn combine_on_a_single_indexed_point_keeps_it() {
    for radius in [0, 1, 350_000] {
        let p = Point::new(47_644_548_123, -122_326_897_456);
        let index = Points::new(vec![p], radius);
        let combined = track(&[(p.lat, p.lon)]).combine(&index).unwrap();
        assert_eq!(coords(&combined), vec![(p.lat, p.lon)]);
    }
}

#[test]
fn combine_takes_the_mean_of_the_close_points() {
    let index = Points::new(
        vec![Point::new(0, 0), Point::new(100_000, 100_000), Point::new(10_000_000, 0)],
        350_000,
    );
    let combined = track(&[(0, 0), (100_000, 100_000), (9_900_000, 0)]).combine(&index).unwrap();
    assert_eq!(coords(&combined), vec![(50_000, 50_000), (50_000, 50_000), (10_000_000, 0)]);
}

#[test]
fn combine_of_empty_track_is_empty() {
    let index = Points::new(vec![], 350_000);
    assert_eq!(coords(&track(&[]).combine(&index).unwrap()), vec![]);
}

#[test]
fn combine_fails_at_the_first_point_without_neighbours() {
    let index = Points::new(vec![Point::new(0, 0)], 10);
    let error = track(&[(1, 1), (50, 50), (60, 60)]).combine(&index).unwrap_err();
    assert_eq!(error.index, 1);
    assert_eq!((error.point.lat, error.point.lon), (50, 50));
    assert_eq!(error.radius, 10);
}

#[test]
fn combine_with_negative_radius_fails() {
    let index = Points::new(vec![Point::new(0, 0)], -1);
    let error = track(&[(0, 0)]).combine(&index).unwrap_err();
    assert_eq!(error.index, 0);
    assert_eq!(error.radius, -1);
}

#[test]
fn combine_with_radius_zero_is_identity_on_unique_points() {
    let all = vec![Point::new(1, 1), Point::new(2, 2), Point::new(1, 1), Point::new(3, 3)];
    let index = Points::new(all, 0);
    let combined = track(&[(1, 1), (2, 2), (3, 3)]).combine(&index).unwrap();
    assert_eq!(coords(&combined), vec![(1, 1), (2, 2), (3, 3)]);
    assert!(track(&[(4, 4)]).combine(&index).is_err());
}

#[test]
fn two_equal_tracks_converge() {
    let paths = vec![track(&[(0, 0), (100_000, 100_000)]), track(&[(0, 0), (100_000, 100_000)])];
    assert_eq!(DEFAULT_RADIUS, 350_000);
    let clean = clean_paths(&paths, DEFAULT_RADIUS).unwrap();
    assert_eq!(clean.len(), 2);
    assert_eq!(coords(&clean[0]), vec![(50_000, 50_000), (50_000, 50_000)]);
    assert_eq!(coords(&clean[1]), coords(&clean[0]));
}

#[test]
fn collinear_points_survive_smoothing() {
    let path = track(&[
        (0, 0),
        (1_000_000, 1_000_000),
        (2_000_000, 2_000_000),
        (3_000_000, 3_000_000),
        (4_000_000, 4_000_000),
    ]);
    assert_eq!(coords(&path.smooth()), coords(&path));
}

#[test]
fn smoothed_points_of_all_tracks_are_gathered_in_order() {
    let paths = vec![track(&[(0, 0), (3, 3), (3, 3)]), track(&[]), track(&[(9, 9)])];
    let gathered: Vec<(i64, i64)> = smooth_all(&paths).iter().map(|p| (p.lat, p.lon)).collect();
    assert_eq!(gathered, vec![(0, 0), (2, 2), (3, 3), (9, 9), (9, 9)]);
}

#[test]
fn clean_combines_the_recorded_points_against_the_smoothed_ones() {
    // Smoothing moves the middle point to (0, 10); the recorded point (0, 30)
    // is then 20 away from every indexed point.
    let paths = vec![track(&[(0, 0), (0, 30), (0, 0)])];
    let error = clean_paths(&paths, 15).unwrap_err();
    assert_eq!(error.path, 0);
    assert_eq!(error.cause.index, 1);
    assert_eq!((error.cause.point.lat, error.cause.point.lon), (0, 30));
    assert_eq!(error.cause.radius, 15);
    let clean = clean_paths(&paths, 20).unwrap();
    assert_eq!(coords(&clean[0]), vec![(0, 3), (0, 10), (0, 3)]);
}

#[test]
fn clean_names_the_track_that_fails() {
    let paths = vec![track(&[(0, 0), (0, 0)]), track(&[(0, 0), (0, 90), (0, 0)])];
    let error = clean_paths(&paths, 1).unwrap_err();
    assert_eq!(error.path, 1);
    assert_eq!(error.cause.index, 1);
}

#[test]
fn clean_of_no_tracks_is_empty() {
    assert_eq!(clean_paths(&vec![], DEFAULT_RADIUS).unwrap().len(), 0);
}

#[test]
fn coordinates_are_written_in_degrees() {
    assert_eq!(render_coordinate(0), "0");
    assert_eq!(render_coordinate(47_644_548_000), "47.644548");
    assert_eq!(render_coordinate(-122_326_897_000), "-122.326897");
    assert_eq!(render_coordinate(1), "0.000000001");
    assert_eq!(render_coordinate(-1), "-0.000000001");
    assert_eq!(render_coordinate(1_000_000_000), "1");
    assert_eq!(render_coordinate(-10_000_000_000), "-10");
    assert_eq!(render_coordinate(1_500_000_000), "1.5");
    assert_eq!(render_coordinate(50_000), "0.00005");
    assert_eq!(render_coordinate(100_000_010), "0.10000001");
    assert_eq!(render_coordinate(i64::MAX), "9223372036.854775807");
    assert_eq!(render_coordinate(i64::MIN), "-9223372036.854775808");
}

#[test]
fn what_is_written_is_read_back() {
    for units in [0, 1, -1, 999_999_999, 1_000_000_000, -1_000_000_001, 47_644_548_123, i64::MAX, i64::MIN, 100, -12_300_000] {
        let text = render_coordinate(units);
        assert_eq!(heatmap::decimal::parse_coordinate(text.as_bytes()), Some(units));
    }
}

#[test]
fn track_as_json() {
    assert_eq!(track(&[]).as_json_array(), "[]");
    assert_eq!(track(&[(1_500_000_000, -2_000_000_000)]).as_json_array(), "[[1.5,-2]]");
    assert_eq!(
        track(&[(0, 0), (100_000, 100_000), (47_644_548_000, -122_326_897_000)]).as_json_array(),
        "[[0,0],[0.0001,0.0001],[47.644548,-122.326897]]"
    );
}

#[test]
fn tracks_as_json() {
    let a = track(&[(1_000_000_000, 2_000_000_000)]);
    let b = track(&[]);
    let c = track(&[(3_000_000_000, 4_000_000_000), (5_000_000_000, 6_000_000_000)]);
    assert_eq!(as_json_arrays(&[]), "[\n  ]");
    assert_eq!(as_json_arrays(&[a.clone()]), "[\n  [[1,2]]]");
    assert_eq!(as_json_arrays(&[a.clone(), b.clone()]), "[\n  [[1,2]],[]\n  ]");
    assert_eq!(
        as_json_arrays(&[a, b, c]),
        "[\n  [[1,2]],[]\n  ,[[3,4],[5,6]]\n  ]"
    );
}

#[test]
fn supported_files_end_in_gpx_or_tcx() {
    assert!(supports_file("ride.gpx"));
    assert!(supports_file("run.tcx"));
    assert!(supports_file(".gpx"));
    assert!(!supports_file("gpx"));
    assert!(!supports_file("ride.GPX"));
    assert!(!supports_file("ride.gpx.bak"));
    assert!(!supports_file("ride.fit"));
    assert!(!supports_file(""));
    assert!(!supports_file("ridegpx"));
}

#[test]
fn format_is_told_by_the_ending() {
    assert_eq!(format_of_lowered("ride.gpx"), Some(TrackFormat::Gpx));
    assert_eq!(format_of_lowered("run.tcx"), Some(TrackFormat::Tcx));
    assert_eq!(format_of_lowered("run.TCX"), None);
    assert_eq!(track_format("Ride.GPX"), Some(TrackFormat::Gpx));
    assert_eq!(track_format("RUN.Tcx"), Some(TrackFormat::Tcx));
    assert_eq!(track_format("notes.txt"), None);
}

#[test]
fn documents_are_read_by_their_format() {
    let gpx = "<gpx><trkseg><trkpt lat=\"1\" lon=\"2\"></trkpt></trkseg></gpx>";
    let tcx = "<Track><Trackpoint><LatitudeDegrees>3</LatitudeDegrees>\
        <LongitudeDegrees>4</LongitudeDegrees></Trackpoint></Track>";
    assert_eq!(coords(&parse_track(TrackFormat::Gpx, gpx)[0]), vec![(1_000_000_000, 2_000_000_000)]);
    assert_eq!(coords(&parse_track(TrackFormat::Tcx, tcx)[0]), vec![(3_000_000_000, 4_000_000_000)]);
    assert_eq!(parse_track(TrackFormat::Tcx, gpx).len(), 0);
    assert_eq!(parse_track(TrackFormat::Gpx, tcx).len(), 0);
}

#[test]
fn combined_points_stay_near_their_points() {
    let indexed: Vec<Point> = (0..40)
        .map(|i: i64| Point::new((i * 37) % 101 - 50, (i * 53) % 97 - 48))
        .collect();
    for radius in [0i64, 1, 7, 30, 1_000] {
        let index = Points::new(indexed.clone(), radius);
        for p in indexed.iter() {
            let combined = track(&[(p.lat, p.lon)]).combine(&index).unwrap();
            let q = combined.points[0];
            let moved = (q.lat - p.lat) * (q.lat - p.lat) + (q.lon - p.lon) * (q.lon - p.lon);
            assert!(moved <= (radius + 2) * (radius + 2));
        }
    }
}
