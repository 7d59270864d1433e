use heatmap::decimal::parse_coordinate;
use heatmap::gpx_deserializer::parse_gpx;
use heatmap::path::Path;
use heatmap::tcx_deserializer::parse_tcx;

fn coords(paths: &[Path]) -> Vec<Vec<(i64, i64)>> {
    paths.iter().map(|path| path.points.iter().map(|p| (p.lat, p.lon)).collect()).collect()
}

#[test]
fn coordinate_of_plain_decimal() {
    assert_eq!(parse_coordinate(b"47.644548"), Some(47_644_548_000));
    assert_eq!(parse_coordinate(b"-122.326897"), Some(-122_326_897_000));
    assert_eq!(parse_coordinate(b"+0.5"), Some(500_000_000));
    assert_eq!(parse_coordinate(b"0"), Some(0));
    assert_eq!(parse_coordinate(b"-0"), Some(0));
    assert_eq!(parse_coordinate(b"12"), Some(12_000_000_000));
}

#[test]
fn coordinate_with_digits_on_one_side_of_the_point() {
    assert_eq!(parse_coordinate(b"5."), Some(5_000_000_000));
    assert_eq!(parse_coordinate(b".5"), Some(500_000_000));
    assert_eq!(parse_coordinate(b"-.25"), Some(-250_000_000));
}

#[test]
fn coordinate_cuts_off_beyond_the_ninth_digit() {
    assert_eq!(parse_coordinate(b"1.1234567899"), Some(1_123_456_789));
    assert_eq!(parse_coordinate(b"-1.1234567899"), Some(-1_123_456_789));
    assert_eq!(parse_coordinate(b"0.0000000009"), Some(0));
    assert_eq!(parse_coordinate(b"0.000000001"), Some(1));
}

#[test]
fn coordinate_rejects_what_is_no_decimal() {
    assert_eq!(parse_coordinate(b""), None);
    assert_eq!(parse_coordinate(b"+"), None);
    assert_eq!(parse_coordinate(b"-"), None);
    assert_eq!(parse_coordinate(b"."), None);
    assert_eq!(parse_coordinate(b"-."), None);
    assert_eq!(parse_coordinate(b"1.2.3"), None);
    assert_eq!(parse_coordinate(b"1,5"), None);
    assert_eq!(parse_coordinate(b" 1.5"), None);
    assert_eq!(parse_coordinate(b"1.5 "), None);
    assert_eq!(parse_coordinate(b"--1"), None);
    assert_eq!(parse_coordinate(b"0x10"), None);
    assert_eq!(parse_coordinate(b"nan"), None);
    assert_eq!(parse_coordinate(b"inf"), None);
    assert_eq!(parse_coordinate(b"1.5x"), None);
    assert_eq!(parse_coordinate(b"x"), None);
}

#[test]
fn coordinate_with_an_exponent() {
    assert_eq!(parse_coordinate(b"1e2"), Some(100_000_000_000));
    assert_eq!(parse_coordinate(b"1E2"), Some(100_000_000_000));
    assert_eq!(parse_coordinate(b"1e+2"), Some(100_000_000_000));
    assert_eq!(parse_coordinate(b"4.7644548e1"), Some(47_644_548_000));
    assert_eq!(parse_coordinate(b"-1.5E-3"), Some(-1_500_000));
    assert_eq!(parse_coordinate(b"1.e1"), Some(10_000_000_000));
    assert_eq!(parse_coordinate(b".5e1"), Some(5_000_000_000));
    assert_eq!(parse_coordinate(b"1e0"), Some(1_000_000_000));
    assert_eq!(parse_coordinate(b"1e-0"), Some(1_000_000_000));
    assert_eq!(parse_coordinate(b"1e-9"), Some(1));
    assert_eq!(parse_coordinate(b"1e-10"), Some(0));
    assert_eq!(parse_coordinate(b"19e-10"), Some(1));
    assert_eq!(parse_coordinate(b"12345678901234567890e-15"), Some(12_345_678_901_234));
    assert_eq!(parse_coordinate(b"0.000000000000123e12"), Some(123_000_000));
    assert_eq!(parse_coordinate(b"1e0009"), Some(1_000_000_000_000_000_000));
}

#[test]
fn coordinate_with_an_exponent_out_of_any_range() {
    assert_eq!(parse_coordinate(b"1e10"), None);
    assert_eq!(parse_coordinate(b"1e30"), None);
    assert_eq!(parse_coordinate(b"1e99999999999999999999999999999999999999"), None);
    assert_eq!(parse_coordinate(b"0e99999999999999999999999999999999999999"), Some(0));
    assert_eq!(parse_coordinate(b"-0.000e99999999999999999999999999999999999999"), Some(0));
    assert_eq!(parse_coordinate(b"1e-99999999999999999999999999999999999999"), Some(0));
    assert_eq!(parse_coordinate(b"-987654321e-99999999999999999999999999999999999999"), Some(0));
    assert_eq!(parse_coordinate(b"9.223372036854775807e9"), Some(i64::MAX));
    assert_eq!(parse_coordinate(b"9.223372036854775808e9"), None);
    assert_eq!(parse_coordinate(b"-9.223372036854775808e9"), Some(i64::MIN));
}

#[test]
fn coordinate_rejects_a_malformed_exponent() {
    assert_eq!(parse_coordinate(b"1e"), None);
    assert_eq!(parse_coordinate(b"1e+"), None);
    assert_eq!(parse_coordinate(b"1e-"), None);
    assert_eq!(parse_coordinate(b"e5"), None);
    assert_eq!(parse_coordinate(b".e5"), None);
    assert_eq!(parse_coordinate(b"-e5"), None);
    assert_eq!(parse_coordinate(b"1e5.5"), None);
    assert_eq!(parse_coordinate(b"1e5e5"), None);
    assert_eq!(parse_coordinate(b"1E5E5"), None);
    assert_eq!(parse_coordinate(b"1e 5"), None);
    assert_eq!(parse_coordinate(b"1e--5"), None);
    assert_eq!(parse_coordinate(b"1.5e2x"), None);
}

#[test]
fn coordinate_at_the_limits() {
    assert_eq!(parse_coordinate(b"9223372036.854775807"), Some(i64::MAX));
    assert_eq!(parse_coordinate(b"9223372036.854775808"), None);
    assert_eq!(parse_coordinate(b"-9223372036.854775808"), Some(i64::MIN));
    assert_eq!(parse_coordinate(b"-9223372036.854775809"), None);
    assert_eq!(parse_coordinate(b"10000000000"), None);
    assert_eq!(parse_coordinate(b"99999999999999999999999999999999"), None);
    assert_eq!(parse_coordinate(b"0000000000000000000000000000001.5"), Some(1_500_000_000));
}

#[test]
fn gpx_segments_become_tracks() {
    let xml = "<?xml version=\"1.0\"?>\n<gpx><trk><name>a</name><trkseg>\n\
        <trkpt lat=\"47.5\" lon=\"-122.25\"><ele>4.5</ele></trkpt>\n\
        <trkpt lon=\"-122.26\" lat=\"47.6\"></trkpt>\n\
        </trkseg><trkseg>\n\
        <trkpt lat=\"1\" lon=\"2\"><ele>0</ele></trkpt>\n\
        </trkseg></trk></gpx>";
    assert_eq!(
        coords(&parse_gpx(xml)),
        vec![
            vec![(47_500_000_000, -122_250_000_000), (47_600_000_000, -122_260_000_000)],
            vec![(1_000_000_000, 2_000_000_000)],
        ]
    );
}

#[test]
fn gpx_drops_empty_segments_and_bad_points() {
    let xml = "<gpx><trk><trkseg></trkseg><trkseg>\
        <trkpt lat=\"north\" lon=\"2\"></trkpt>\
        <trkpt lat=\"1\"></trkpt>\
        <trkpt lat=\"3\" lon=\"4\"></trkpt>\
        </trkseg><trkseg><trkpt lon=\"4\"></trkpt></trkseg></trk></gpx>";
    assert_eq!(coords(&parse_gpx(xml)), vec![vec![(3_000_000_000, 4_000_000_000)]]);
}

#[test]
fn gpx_ignores_points_closed_in_their_own_tag() {
    let xml = "<gpx><trk><trkseg><trkpt lat=\"1\" lon=\"2\"/>\
        <trkpt lat=\"3\" lon=\"4\"></trkpt></trkseg></trk></gpx>";
    assert_eq!(coords(&parse_gpx(xml)), vec![vec![(3_000_000_000, 4_000_000_000)]]);
}

#[test]
fn gpx_without_closed_segment_yields_nothing() {
    assert_eq!(coords(&parse_gpx("")), Vec::<Vec<(i64, i64)>>::new());
    assert_eq!(
        coords(&parse_gpx("<gpx><trkseg><trkpt lat=\"1\" lon=\"2\"></trkpt>")),
        Vec::<Vec<(i64, i64)>>::new()
    );
}

#[test]
fn gpx_stops_at_a_closing_tag_that_does_not_match() {
    let xml = "<gpx><trkseg><trkpt lat=\"1\" lon=\"2\"></trkpt></trkseg>\
        <trkseg><trkpt lat=\"3\" lon=\"4\"></wrong></trkseg></gpx>";
    assert_eq!(coords(&parse_gpx(xml)), vec![vec![(1_000_000_000, 2_000_000_000)]]);
}

#[test]
fn tcx_tracks_and_trackpoints() {
    let xml = "<TrainingCenterDatabase><Activities><Activity><Lap><Track>\
        <Trackpoint><Time>t</Time><Position>\
        <LatitudeDegrees>47.5</LatitudeDegrees><LongitudeDegrees>-122.25</LongitudeDegrees>\
        </Position></Trackpoint>\
        <Trackpoint><Position>\
        <LongitudeDegrees>-122.5</LongitudeDegrees><LatitudeDegrees>47.75</LatitudeDegrees>\
        </Position></Trackpoint>\
        </Track><Track></Track><Track>\
        <Trackpoint><Position>\
        <LatitudeDegrees>1</LatitudeDegrees><LongitudeDegrees>2</LongitudeDegrees>\
        </Position></Trackpoint>\
        </Track></Lap></Activity></Activities></TrainingCenterDatabase>";
    assert_eq!(
        coords(&parse_tcx(xml)),
        vec![
            vec![(47_500_000_000, -122_250_000_000), (47_750_000_000, -122_500_000_000)],
            vec![(1_000_000_000, 2_000_000_000)],
        ]
    );
}

#[test]
fn tcx_unescapes_the_text_of_a_coordinate() {
    let xml = "<Track><Trackpoint>\
        <LatitudeDegrees>&#52;7.5</LatitudeDegrees><LongitudeDegrees>&#x32;</LongitudeDegrees>\
        </Trackpoint></Track>";
    assert_eq!(coords(&parse_tcx(xml)), vec![vec![(47_500_000_000, 2_000_000_000)]]);
}

#[test]
fn tcx_skips_a_trackpoint_with_a_bad_escape() {
    let xml = "<Track><Trackpoint>\
        <LatitudeDegrees>&bogus;1</LatitudeDegrees><LongitudeDegrees>2</LongitudeDegrees>\
        </Trackpoint><Trackpoint>\
        <LatitudeDegrees>3</LatitudeDegrees><LongitudeDegrees>4</LongitudeDegrees>\
        </Trackpoint></Track>";
    assert_eq!(coords(&parse_tcx(xml)), vec![vec![(3_000_000_000, 4_000_000_000)]]);
}

#[test]
fn tcx_skips_a_trackpoint_that_lacks_a_coordinate() {
    let xml = "<Track><Trackpoint>\
        <LatitudeDegrees>1</LatitudeDegrees>\
        </Trackpoint><Trackpoint>\
        <LongitudeDegrees>2</LongitudeDegrees>\
        </Trackpoint><Trackpoint></Trackpoint></Track>";
    assert_eq!(coords(&parse_tcx(xml)), Vec::<Vec<(i64, i64)>>::new());
    let xml = "<Track><Trackpoint><Position><LatitudeDegrees>1.5</LatitudeDegrees></Position>\
        </Trackpoint><Trackpoint><Position><LongitudeDegrees>2.5</LongitudeDegrees></Position>\
        </Trackpoint></Track>";
    assert_eq!(parse_tcx(xml).len(), 0);
}

#[test]
fn tcx_completes_no_trackpoint_from_another() {
    let xml = "<Track><Trackpoint>\
        <LatitudeDegrees>1</LatitudeDegrees><LongitudeDegrees>2</LongitudeDegrees>\
        </Trackpoint><Trackpoint>\
        <LatitudeDegrees>3</LatitudeDegrees>\
        </Trackpoint><Trackpoint>\
        <LongitudeDegrees>4</LongitudeDegrees>\
        </Trackpoint><Trackpoint>\
        <LatitudeDegrees>5</LatitudeDegrees><LongitudeDegrees>x</LongitudeDegrees>\
        </Trackpoint><Trackpoint>\
        <LongitudeDegrees>6</LongitudeDegrees><LatitudeDegrees>7</LatitudeDegrees>\
        </Trackpoint></Track>";
    assert_eq!(
        coords(&parse_tcx(xml)),
        vec![vec![(1_000_000_000, 2_000_000_000), (7_000_000_000, 6_000_000_000)]]
    );
}

#[test]
fn tcx_skips_text_that_is_no_decimal() {
    let xml = "<Track><Trackpoint>\
        <LatitudeDegrees> 1 </LatitudeDegrees><LongitudeDegrees>2</LongitudeDegrees>\
        </Trackpoint></Track>";
    assert_eq!(coords(&parse_tcx(xml)), Vec::<Vec<(i64, i64)>>::new());
}

fn start(name: &str, tag: &str) -> heatmap::xml::XmlEvent {
    heatmap::xml::XmlEvent::Start { name: name.as_bytes().to_vec(), tag: tag.as_bytes().to_vec() }
}

fn end(name: &str) -> heatmap::xml::XmlEvent {
    heatmap::xml::XmlEvent::End { name: name.as_bytes().to_vec() }
}

fn text(raw: &str) -> heatmap::xml::XmlEvent {
    heatmap::xml::XmlEvent::Text { raw: raw.as_bytes().to_vec() }
}

#[test]
fn gpx_steps_over_events() {
    let mut segments = heatmap::segments::Segments::new();
    let events = vec![
        start("trkseg", "trkseg"),
        start("trkpt", "trkpt lat=\"1.5\" lon=\"-2\""),
        end("trkpt"),
        start("wpt", "wpt lat=\"8\" lon=\"9\""),
        start("trkpt", "trkpt lat=\"3\""),
        text("lat=\"4\" lon=\"5\""),
        heatmap::xml::XmlEvent::Other,
        start("trkpt", "trkpt lon='7' lat='6'"),
    ];
    for event in events.iter() {
        heatmap::gpx_deserializer::gpx_step(&mut segments, event);
    }
    assert_eq!(segments.paths.len(), 0);
    assert_eq!(segments.current_points.len(), 2);
    heatmap::gpx_deserializer::gpx_step(&mut segments, &end("trkseg"));
    assert_eq!(coords(&segments.paths), vec![vec![(1_500_000_000, -2_000_000_000), (6_000_000_000, 7_000_000_000)]]);
    assert_eq!(segments.current_points.len(), 0);
    heatmap::gpx_deserializer::gpx_step(&mut segments, &end("trkseg"));
    assert_eq!(segments.paths.len(), 1);
}

#[test]
fn trkpt_attributes_give_a_point() {
    let attribute = |key: &str, value: &str| heatmap::xml::Attribute {
        key: key.as_bytes().to_vec(),
        value: value.as_bytes().to_vec(),
    };
    let parse = |attributes: Vec<heatmap::xml::Attribute>| {
        heatmap::gpx_deserializer::parse_trkpt_attributes(&attributes).map(|p| (p.lat, p.lon))
    };
    assert_eq!(parse(vec![attribute("lat", "1"), attribute("lon", "2")]), Some((1_000_000_000, 2_000_000_000)));
    assert_eq!(parse(vec![attribute("lon", "2"), attribute("x", "y"), attribute("lat", "1")]), Some((1_000_000_000, 2_000_000_000)));
    assert_eq!(parse(vec![attribute("lat", "1"), attribute("lon", "2"), attribute("lat", "3")]), Some((3_000_000_000, 2_000_000_000)));
    assert_eq!(parse(vec![attribute("lat", "1"), attribute("lon", "2"), attribute("lat", "bad")]), None);
    assert_eq!(parse(vec![attribute("lat", "1")]), None);
    assert_eq!(parse(vec![attribute("LAT", "1"), attribute("lon", "2")]), None);
    assert_eq!(parse(vec![]), None);
}

#[test]
fn tcx_steps_over_events() {
    let mut state = heatmap::tcx_deserializer::TcxState::new();
    let step = |state: &mut heatmap::tcx_deserializer::TcxState, event: heatmap::xml::XmlEvent| {
        heatmap::tcx_deserializer::tcx_step(state, &event)
    };
    step(&mut state, text("9"));
    assert_eq!((state.last_lat, state.last_lon), (None, None));
    step(&mut state, start("LatitudeDegrees", "LatitudeDegrees"));
    assert!(state.is_in_lat && !state.is_in_lon);
    step(&mut state, start("LongitudeDegrees", "LongitudeDegrees"));
    assert!(state.is_in_lat && state.is_in_lon);
    step(&mut state, text("1.5"));
    assert_eq!((state.last_lat, state.last_lon), (Some(1_500_000_000), None));
    step(&mut state, end("LatitudeDegrees"));
    step(&mut state, text("-2"));
    assert_eq!((state.last_lat, state.last_lon), (Some(1_500_000_000), Some(-2_000_000_000)));
    step(&mut state, end("LongitudeDegrees"));
    assert!(!state.is_in_lat && !state.is_in_lon);
    step(&mut state, end("Track"));
    assert_eq!(state.segments.paths.len(), 0);
    step(&mut state, end("Trackpoint"));
    assert_eq!((state.last_lat, state.last_lon), (None, None));
    assert_eq!(state.segments.current_points.len(), 1);
    step(&mut state, end("Trackpoint"));
    assert_eq!(state.segments.current_points.len(), 1);
    step(&mut state, start("LatitudeDegrees", "LatitudeDegrees"));
    step(&mut state, text("3"));
    step(&mut state, end("LatitudeDegrees"));
    assert_eq!((state.last_lat, state.last_lon), (Some(3_000_000_000), None));
    step(&mut state, end("Trackpoint"));
    assert_eq!((state.last_lat, state.last_lon), (None, None));
    assert_eq!(state.segments.current_points.len(), 1);
    step(&mut state, start("LongitudeDegrees", "LongitudeDegrees"));
    step(&mut state, text("4"));
    step(&mut state, end("LongitudeDegrees"));
    step(&mut state, end("Trackpoint"));
    assert_eq!((state.last_lat, state.last_lon), (None, None));
    assert_eq!(state.segments.current_points.len(), 1);
    step(&mut state, end("Track"));
    assert_eq!(coords(&state.segments.paths), vec![vec![(1_500_000_000, -2_000_000_000)]]);
}

#[test]
fn text_of_a_coordinate_is_unescaped_first() {
    assert_eq!(heatmap::tcx_deserializer::parse_text_coordinate(b"47.5"), Some(47_500_000_000));
    assert_eq!(heatmap::tcx_deserializer::parse_text_coordinate(b"&#45;1"), Some(-1_000_000_000));
    assert_eq!(heatmap::tcx_deserializer::parse_text_coordinate(b"1&amp;"), None);
    assert_eq!(heatmap::tcx_deserializer::parse_text_coordinate(b"&1"), None);
    assert_eq!(heatmap::tcx_deserializer::parse_text_coordinate(b""), None);
}

#[test]
fn tcx_takes_no_coordinate_from_outside_a_trackpoint() {
    let xml = "<Lap><BeginPosition>\
        <LatitudeDegrees>1</LatitudeDegrees><LongitudeDegrees>2</LongitudeDegrees>\
        </BeginPosition><Track><Trackpoint><Time>t</Time></Trackpoint><Trackpoint>\
        <LatitudeDegrees>3</LatitudeDegrees><LongitudeDegrees>4</LongitudeDegrees>\
        </Trackpoint></Track></Lap>";
    assert_eq!(coords(&parse_tcx(xml)), vec![vec![(3_000_000_000, 4_000_000_000)]]);
    let mut state = heatmap::tcx_deserializer::TcxState::new();
    state.last_lat = Some(1);
    state.last_lon = Some(2);
    heatmap::tcx_deserializer::tcx_step(&mut state, &start("Trackpoint", "Trackpoint"));
    assert_eq!((state.last_lat, state.last_lon), (None, None));
    heatmap::tcx_deserializer::tcx_step(&mut state, &end("Trackpoint"));
    assert_eq!(state.segments.current_points.len(), 0);
}
