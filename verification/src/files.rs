//! Which files hold tracks, told by their names.

use crate::gpx_deserializer::gpx_progress;
use crate::gpx_deserializer::parse_gpx;
use crate::path::Path;
use crate::segments::tracks;
use crate::tcx_deserializer::parse_tcx;
use crate::tcx_deserializer::tcx_progress;
use crate::xml::document_events;
use vstd::prelude::*;
use vstd::string::StringSliceAdditionalSpecFns;

verus! {

/// The formats of track files.
#[derive(Debug, Clone, Copy, PartialEq, Eq, Structural)]
pub enum TrackFormat {
    /// The GPS exchange format.
    Gpx,
    /// The training centre format.
    Tcx,
}

/// The text in lower case, as the standard library makes it.
pub uninterp spec fn lowercase(text: Seq<char>) -> Seq<char>;

/// `str::to_lowercase`. The claim: the result is a function of the text.
#[verifier::external_body]
fn to_lowercase(text: &str) -> (lowered: String)
    ensures
        lowered@ == lowercase(text@),
{
    text.to_lowercase()
}

/// Whether `bytes` ends with `ending`.
pub open spec fn ends_with(bytes: Seq<u8>, ending: Seq<u8>) -> bool {
    bytes.len() >= ending.len() && bytes.subrange(bytes.len() - ending.len(), bytes.len() as int)
        == ending
}

/// Whether a byte string ends with another.
pub fn bytes_end_with(bytes: &[u8], ending: &[u8]) -> (found: bool)
    ensures
        found == ends_with(bytes@, ending@),
{
    let n = bytes.len();
    let m = ending.len();
    if n < m {
        return false;
    }
    let ghost tail = bytes@.subrange(n - m, n as int);
    let mut i: usize = 0;
    while i < m
        invariant
            i <= m <= n,
            n == bytes@.len(),
            m == ending@.len(),
            tail == bytes@.subrange(n - m, n as int),
            forall|j: int| 0 <= j < i ==> tail[j] == ending@[j],
        decreases m - i,
    {
        if bytes[n - m + i] != ending[i] {
            assert(tail[i as int] != ending@[i as int]);
            return false;
        }
        i += 1;
    }
    assert(tail =~= ending@);
    true
}

/// True iff the given filename ends with a supported filetype: with `.gpx` or
/// with `.tcx`, in lower case.
pub fn supports_file(filename: &str) -> (supported: bool)
    ensures
        supported == (ends_with(filename.spec_bytes(), ".gpx".spec_bytes()) || ends_with(
            filename.spec_bytes(),
            ".tcx".spec_bytes(),
        )),
{
    let bytes = filename.as_bytes();
    bytes_end_with(bytes, ".gpx".as_bytes()) || bytes_end_with(bytes, ".tcx".as_bytes())
}

/// The format that the ending of a file name in lower case tells.
pub open spec fn format_of_ending(name: Seq<u8>) -> Option<TrackFormat> {
    if ends_with(name, ".gpx".spec_bytes()) {
        Some(TrackFormat::Gpx)
    } else if ends_with(name, ".tcx".spec_bytes()) {
        Some(TrackFormat::Tcx)
    } else {
        None
    }
}

/// The format of a file whose name is given in lower case, or `None` if the
/// file type is not supported.
pub fn format_of_lowered(filename: &str) -> (format: Option<TrackFormat>)
    ensures
        format == format_of_ending(filename.spec_bytes()),
        format is Some == (ends_with(filename.spec_bytes(), ".gpx".spec_bytes()) || ends_with(
            filename.spec_bytes(),
            ".tcx".spec_bytes(),
        )),
{
    if !supports_file(filename) {
        None
    } else if bytes_end_with(filename.as_bytes(), ".gpx".as_bytes()) {
        Some(TrackFormat::Gpx)
    } else {
        Some(TrackFormat::Tcx)
    }
}

/// The format of a file, told by the ending of its name whatever its case, or
/// `None` if the file type is not supported.
pub fn track_format(filename: &str) -> (format: Option<TrackFormat>)
    ensures
        format == format_of_ending(vstd::utf8::encode_utf8(lowercase(filename@))),
{
    let lowered = to_lowercase(filename);
    format_of_lowered(lowered.as_str())
}

/// Reads the tracks of a document of the given format: one track for each
/// segment that holds a point.
pub fn parse_track(format: TrackFormat, contents: &str) -> (paths: Vec<Path>)
    ensures
        tracks(paths@) == match format {
            TrackFormat::Gpx => gpx_progress(document_events(contents@)).tracks,
            TrackFormat::Tcx => tcx_progress(document_events(contents@)).progress.tracks,
        },
        forall|i: int| 0 <= i < paths@.len() ==> (#[trigger] paths@[i])@.len() > 0,
{
    match format {
        TrackFormat::Gpx => parse_gpx(contents),
        TrackFormat::Tcx => parse_tcx(contents),
    }
}

} // verus!
