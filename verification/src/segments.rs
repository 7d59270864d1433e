//! Gathering recorded points into tracks, segment by segment.

use crate::path::Path;
use crate::path::Point;
use vstd::prelude::*;

verus! {

/// The points of each of a list of tracks.
pub open spec fn tracks(paths: Seq<Path>) -> Seq<Seq<Point>> {
    paths.map_values(|path: Path| path@)
}

/// How far the reading of a document has come: the tracks that are complete,
/// and the points of the segment that is being read.
pub struct Progress {
    pub tracks: Seq<Seq<Point>>,
    pub current: Seq<Point>,
}

impl Progress {
    /// Nothing read yet.
    pub open spec fn start() -> Progress {
        Progress { tracks: Seq::empty(), current: Seq::empty() }
    }

    /// One more point in the segment that is being read.
    pub open spec fn with_point(self, point: Point) -> Progress {
        Progress { tracks: self.tracks, current: self.current.push(point) }
    }

    /// The segment ends. If it holds a point it becomes a track; a segment
    /// without points leaves no trace.
    pub open spec fn segment_ended(self) -> Progress {
        if self.current.len() > 0 {
            Progress { tracks: self.tracks.push(self.current), current: Seq::empty() }
        } else {
            self
        }
    }

    /// Whether every complete track holds a point.
    pub open spec fn no_empty_track(self) -> bool {
        forall|i: int| 0 <= i < self.tracks.len() ==> (#[trigger] self.tracks[i]).len() > 0
    }
}

/// The tracks read so far from a document and the points of the segment that
/// is being read.
pub struct Segments {
    pub paths: Vec<Path>,
    pub current_points: Vec<Point>,
}

impl View for Segments {
    type V = Progress;

    open spec fn view(&self) -> Progress {
        Progress { tracks: tracks(self.paths@), current: self.current_points@ }
    }
}

impl Segments {
    pub fn new() -> (segments: Self)
        ensures
            segments@ == Progress::start(),
    {
        let segments = Segments { paths: Vec::new(), current_points: Vec::new() };
        assert(segments@.tracks =~= Seq::empty());
        segments
    }

    /// Adds a point to the segment that is being read.
    pub fn push_point(&mut self, point: Point)
        ensures
            final(self)@ == old(self)@.with_point(point),
    {
        self.current_points.push(point);
    }

    /// Ends the segment that is being read.
    pub fn end_segment(&mut self)
        ensures
            final(self)@ == old(self)@.segment_ended(),
    {
        if self.current_points.len() > 0 {
            let mut points: Vec<Point> = Vec::new();
            std::mem::swap(&mut self.current_points, &mut points);
            self.paths.push(Path::new(points));
            assert(self@.tracks =~= old(self)@.tracks.push(old(self)@.current));
        }
    }
}

} // verus!
