//! Tracks from documents in the training centre format.
//!
//! The text of a `LatitudeDegrees` and of a `LongitudeDegrees` element
//! between the opening and the closing tag of a `Trackpoint` give the
//! coordinates of a point. The closing tag records the point, if both are
//! known, and leaves it out if one is missing or is no decimal number. The
//! closing tag of a `Track` ends a track.

use crate::decimal::coordinate_value;
use crate::decimal::parse_coordinate;
use crate::path::Path;
use crate::path::Point;
use crate::segments::tracks;
use crate::segments::Progress;
use crate::segments::Segments;
use crate::xml::bytes_equal;
use crate::xml::document_events;
use crate::xml::next_event;
use crate::xml::open_reader;
use crate::xml::pending_events;
use crate::xml::unescape_text;
use crate::xml::unescaped_text;
use crate::xml::Event;
use crate::xml::XmlEvent;
use crate::xml::AMPERSAND;
use vstd::prelude::*;
use vstd::string::StringSliceAdditionalSpecFns;

verus! {

/// How far the reading of a document has come.
pub struct TcxProgress {
    /// The tracks that are complete and the points of the one being read.
    pub progress: Progress,
    /// The latitude read last since a trackpoint last began or ended.
    pub last_lat: Option<i64>,
    /// The longitude read last since a trackpoint last began or ended.
    pub last_lon: Option<i64>,
    /// Whether a `LatitudeDegrees` element is open.
    pub is_in_lat: bool,
    /// Whether a `LongitudeDegrees` element is open.
    pub is_in_lon: bool,
}

/// The coordinate that escaped text gives: that of the text once unescaped.
pub open spec fn text_coordinate(raw: Seq<u8>) -> Option<i64> {
    match unescaped_text(raw) {
        Some(text) => coordinate_value(text),
        None => None,
    }
}

impl TcxProgress {
    /// Nothing read yet.
    pub open spec fn start() -> TcxProgress {
        TcxProgress {
            progress: Progress::start(),
            last_lat: None,
            last_lon: None,
            is_in_lat: false,
            is_in_lon: false,
        }
    }

    /// A trackpoint begins. What was read before it is forgotten: the
    /// coordinates of a trackpoint are those that stand between its opening
    /// and its closing tag.
    pub open spec fn trackpoint_begun(self) -> TcxProgress {
        TcxProgress { last_lat: None, last_lon: None, ..self }
    }

    /// A trackpoint ends. With both coordinates known it is recorded; a
    /// trackpoint that lacks a coordinate is left out. Either way the
    /// coordinates are forgotten: no trackpoint is completed from another.
    pub open spec fn trackpoint_ended(self) -> TcxProgress {
        match (self.last_lat, self.last_lon) {
            (Some(lat), Some(lon)) => TcxProgress {
                progress: self.progress.with_point(Point { lat, lon }),
                last_lat: None,
                last_lon: None,
                ..self
            },
            _ => TcxProgress { last_lat: None, last_lon: None, ..self },
        }
    }
}

/// The progress after one more event. Text counts as a latitude where a
/// `LatitudeDegrees` element is open, else as a longitude where a
/// `LongitudeDegrees` element is open.
pub open spec fn tcx_after(state: TcxProgress, event: Event) -> TcxProgress {
    match event {
        Event::Start { name, tag } => {
            if name == "LatitudeDegrees".spec_bytes() {
                TcxProgress { is_in_lat: true, ..state }
            } else if name == "LongitudeDegrees".spec_bytes() {
                TcxProgress { is_in_lon: true, ..state }
            } else if name == "Trackpoint".spec_bytes() {
                state.trackpoint_begun()
            } else {
                state
            }
        },
        Event::Text { raw } => {
            if state.is_in_lat {
                TcxProgress { last_lat: text_coordinate(raw), ..state }
            } else if state.is_in_lon {
                TcxProgress { last_lon: text_coordinate(raw), ..state }
            } else {
                state
            }
        },
        Event::End { name } => {
            if name == "LatitudeDegrees".spec_bytes() {
                TcxProgress { is_in_lat: false, ..state }
            } else if name == "LongitudeDegrees".spec_bytes() {
                TcxProgress { is_in_lon: false, ..state }
            } else if name == "Trackpoint".spec_bytes() {
                state.trackpoint_ended()
            } else if name == "Track".spec_bytes() {
                TcxProgress { progress: state.progress.segment_ended(), ..state }
            } else {
                state
            }
        },
        _ => state,
    }
}

/// The progress after a sequence of events, from nothing.
pub open spec fn tcx_progress(events: Seq<Event>) -> TcxProgress
    decreases events.len(),
{
    if events.len() == 0 {
        TcxProgress::start()
    } else {
        tcx_after(tcx_progress(events.drop_last()), events.last())
    }
}

/// The state of reading a document.
pub struct TcxState {
    pub segments: Segments,
    pub last_lat: Option<i64>,
    pub last_lon: Option<i64>,
    pub is_in_lat: bool,
    pub is_in_lon: bool,
}

impl View for TcxState {
    type V = TcxProgress;

    open spec fn view(&self) -> TcxProgress {
        TcxProgress {
            progress: self.segments@,
            last_lat: self.last_lat,
            last_lon: self.last_lon,
            is_in_lat: self.is_in_lat,
            is_in_lon: self.is_in_lon,
        }
    }
}

impl TcxState {
    pub fn new() -> (state: Self)
        ensures
            state@ == TcxProgress::start(),
    {
        TcxState {
            segments: Segments::new(),
            last_lat: None,
            last_lon: None,
            is_in_lat: false,
            is_in_lon: false,
        }
    }
}

/// Reads a coordinate from the text of an element. Text without an escape
/// is read as it stands.
pub fn parse_text_coordinate(raw: &[u8]) -> (value: Option<i64>)
    ensures
        value == text_coordinate(raw@),
        !raw@.contains(AMPERSAND) ==> value == coordinate_value(raw@),
{
    match unescape_text(raw) {
        Some(text) => parse_coordinate(text.as_slice()),
        None => None,
    }
}

/// Takes one event of a document into account.
pub fn tcx_step(state: &mut TcxState, event: &XmlEvent)
    ensures
        final(state)@ == tcx_after(old(state)@, event@),
{
    match event {
        XmlEvent::Start { name, tag } => {
            if bytes_equal(name.as_slice(), "LatitudeDegrees".as_bytes()) {
                state.is_in_lat = true;
            } else if bytes_equal(name.as_slice(), "LongitudeDegrees".as_bytes()) {
                state.is_in_lon = true;
            } else if bytes_equal(name.as_slice(), "Trackpoint".as_bytes()) {
                state.last_lat = None;
                state.last_lon = None;
            }
        },
        XmlEvent::Text { raw } => {
            if state.is_in_lat {
                state.last_lat = parse_text_coordinate(raw.as_slice());
            } else if state.is_in_lon {
                state.last_lon = parse_text_coordinate(raw.as_slice());
            }
        },
        XmlEvent::End { name } => {
            if bytes_equal(name.as_slice(), "LatitudeDegrees".as_bytes()) {
                state.is_in_lat = false;
            } else if bytes_equal(name.as_slice(), "LongitudeDegrees".as_bytes()) {
                state.is_in_lon = false;
            } else if bytes_equal(name.as_slice(), "Trackpoint".as_bytes()) {
                if let (Some(lat), Some(lon)) = (state.last_lat, state.last_lon) {
                    state.segments.push_point(Point::new(lat, lon));
                }
                state.last_lat = None;
                state.last_lon = None;
            } else if bytes_equal(name.as_slice(), "Track".as_bytes()) {
                state.segments.end_segment();
            }
        },
        _ => {},
    }
}

/// No step makes an empty track.
pub proof fn lemma_tcx_no_empty_track(events: Seq<Event>)
    ensures
        tcx_progress(events).progress.no_empty_track(),
    decreases events.len(),
{
    if events.len() > 0 {
        lemma_tcx_no_empty_track(events.drop_last());
    }
}

/// Reads the tracks of a document: those that its events give, step by step.
/// No track is empty.
pub fn parse_tcx(xml: &str) -> (paths: Vec<Path>)
    ensures
        tracks(paths@) == tcx_progress(document_events(xml@)).progress.tracks,
        forall|i: int| 0 <= i < paths@.len() ==> (#[trigger] paths@[i])@.len() > 0,
{
    let mut reader = open_reader(xml);
    let mut state = TcxState::new();
    let ghost mut seen: Seq<Event> = Seq::empty();
    proof {
        assert(seen + pending_events(reader) =~= document_events(xml@));
    }
    loop
        invariant
            state@ == tcx_progress(seen),
            seen + pending_events(reader) == document_events(xml@),
        ensures
            state@ == tcx_progress(document_events(xml@)),
        decreases pending_events(reader).len(),
    {
        let ghost pending = pending_events(reader);
        let event = next_event(&mut reader);
        if let XmlEvent::Eof = event {
            proof {
                assert(seen + pending =~= seen);
            }
            break ;
        }
        tcx_step(&mut state, &event);
        proof {
            assert(seen.push(event@).drop_last() =~= seen);
            assert(seen.push(event@) + pending.skip(1) =~= seen + pending);
            seen = seen.push(event@);
        }
    }
    proof {
        lemma_tcx_no_empty_track(document_events(xml@));
        assert forall|i: int| 0 <= i < state.segments.paths@.len() implies (
        #[trigger] state.segments.paths@[i])@.len() > 0 by {
            assert(state@.progress.tracks[i] == state.segments.paths@[i]@);
        }
    }
    state.segments.paths
}

} // verus!
