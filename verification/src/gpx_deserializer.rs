//! Tracks from documents in the GPS exchange format.
//!
//! A point is an opening `trkpt` tag with the attributes `lat` and `lon`; the
//! closing tag of a `trkseg` ends a track. A point whose latitude or longitude
//! is missing or is no decimal number is left out.

use crate::decimal::coordinate_value;
use crate::decimal::parse_coordinate;
use crate::path::Path;
use crate::path::Point;
use crate::segments::tracks;
use crate::segments::Progress;
use crate::segments::Segments;
use crate::xml::attribute_pairs;
use crate::xml::attributes_of_tag;
use crate::xml::bytes_equal;
use crate::xml::document_events;
use crate::xml::next_event;
use crate::xml::open_reader;
use crate::xml::pending_events;
use crate::xml::tag_attributes;
use crate::xml::Attribute;
use crate::xml::Event;
use crate::xml::XmlEvent;
use vstd::prelude::*;
use vstd::string::StringSliceAdditionalSpecFns;

verus! {

/// The coordinate that the attribute named `key` gives. Where the key occurs
/// more than once, its last occurrence counts.
pub open spec fn attribute_coordinate(
    attributes: Seq<(Seq<u8>, Seq<u8>)>,
    key: Seq<u8>,
) -> Option<i64>
    decreases attributes.len(),
{
    if attributes.len() == 0 {
        None
    } else if attributes.last().0 == key {
        coordinate_value(attributes.last().1)
    } else {
        attribute_coordinate(attributes.drop_last(), key)
    }
}

/// The point that the attributes of a `trkpt` tag give, if they give both of
/// its coordinates.
pub open spec fn trkpt_point(attributes: Seq<(Seq<u8>, Seq<u8>)>) -> Option<Point> {
    match (
        attribute_coordinate(attributes, "lat".spec_bytes()),
        attribute_coordinate(attributes, "lon".spec_bytes()),
    ) {
        (Some(lat), Some(lon)) => Some(Point { lat, lon }),
        _ => None,
    }
}

/// The progress after one more event.
pub open spec fn gpx_after(progress: Progress, event: Event) -> Progress {
    match event {
        Event::Start { name, tag } => {
            if name == "trkpt".spec_bytes() {
                match trkpt_point(attributes_of_tag(tag, name.len())) {
                    Some(point) => progress.with_point(point),
                    None => progress,
                }
            } else {
                progress
            }
        },
        Event::End { name } => {
            if name == "trkseg".spec_bytes() {
                progress.segment_ended()
            } else {
                progress
            }
        },
        _ => progress,
    }
}

/// The progress after a sequence of events, from nothing.
pub open spec fn gpx_progress(events: Seq<Event>) -> Progress
    decreases events.len(),
{
    if events.len() == 0 {
        Progress::start()
    } else {
        gpx_after(gpx_progress(events.drop_last()), events.last())
    }
}

/// Reads the point of a `trkpt` tag from its attributes.
pub fn parse_trkpt_attributes(attributes: &Vec<Attribute>) -> (point: Option<Point>)
    ensures
        point == trkpt_point(attribute_pairs(attributes@)),
{
    let mut lat: Option<i64> = None;
    let mut lon: Option<i64> = None;
    let ghost pairs = attribute_pairs(attributes@);
    let n = attributes.len();
    let mut i: usize = 0;
    while i < n
        invariant
            i <= n,
            n == attributes@.len(),
            pairs == attribute_pairs(attributes@),
            lat == attribute_coordinate(pairs.take(i as int), "lat".spec_bytes()),
            lon == attribute_coordinate(pairs.take(i as int), "lon".spec_bytes()),
        decreases n - i,
    {
        let attribute = &attributes[i];
        proof {
            assert(pairs.take(i + 1).drop_last() =~= pairs.take(i as int));
            assert(pairs.take(i + 1).last() == (attribute.key@, attribute.value@));
        }
        if bytes_equal(attribute.key.as_slice(), "lat".as_bytes()) {
            lat = parse_coordinate(attribute.value.as_slice());
        }
        if bytes_equal(attribute.key.as_slice(), "lon".as_bytes()) {
            lon = parse_coordinate(attribute.value.as_slice());
        }
        i += 1;
    }
    proof {
        assert(pairs.take(n as int) =~= pairs);
    }
    match (lat, lon) {
        (Some(lat), Some(lon)) => Some(Point::new(lat, lon)),
        _ => None,
    }
}

/// Takes one event of a document into account.
pub fn gpx_step(segments: &mut Segments, event: &XmlEvent)
    ensures
        final(segments)@ == gpx_after(old(segments)@, event@),
{
    match event {
        XmlEvent::Start { name, tag } => {
            if bytes_equal(name.as_slice(), "trkpt".as_bytes()) {
                let attributes = tag_attributes(tag.as_slice(), name.len());
                if let Some(point) = parse_trkpt_attributes(&attributes) {
                    segments.push_point(point);
                }
            }
        },
        XmlEvent::End { name } => {
            if bytes_equal(name.as_slice(), "trkseg".as_bytes()) {
                segments.end_segment();
            }
        },
        _ => {},
    }
}

/// No step makes an empty track.
pub proof fn lemma_gpx_no_empty_track(events: Seq<Event>)
    ensures
        gpx_progress(events).no_empty_track(),
    decreases events.len(),
{
    if events.len() > 0 {
        lemma_gpx_no_empty_track(events.drop_last());
    }
}

/// Reads the tracks of a document: those that its events give, step by step.
/// No track is empty.
pub fn parse_gpx(xml: &str) -> (paths: Vec<Path>)
    ensures
        tracks(paths@) == gpx_progress(document_events(xml@)).tracks,
        forall|i: int| 0 <= i < paths@.len() ==> (#[trigger] paths@[i])@.len() > 0,
{
    let mut reader = open_reader(xml);
    let mut segments = Segments::new();
    let ghost mut seen: Seq<Event> = Seq::empty();
    proof {
        assert(seen + pending_events(reader) =~= document_events(xml@));
    }
    loop
        invariant
            segments@ == gpx_progress(seen),
            seen + pending_events(reader) == document_events(xml@),
        ensures
            segments@ == gpx_progress(document_events(xml@)),
        decreases pending_events(reader).len(),
    {
        let ghost pending = pending_events(reader);
        let event = next_event(&mut reader);
        if let XmlEvent::Eof = event {
            proof {
                assert(seen + pending =~= seen);
            }
            break ;
        }
        gpx_step(&mut segments, &event);
        proof {
            assert(seen.push(event@).drop_last() =~= seen);
            assert(seen.push(event@) + pending.skip(1) =~= seen + pending);
            seen = seen.push(event@);
        }
    }
    proof {
        lemma_gpx_no_empty_track(document_events(xml@));
        assert forall|i: int| 0 <= i < segments.paths@.len() implies (
        #[trigger] segments.paths@[i])@.len() > 0 by {
            assert(segments@.tracks[i] == segments.paths@[i]@);
        }
    }
    segments.paths
}

} // verus!
