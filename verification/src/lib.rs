//! Cleaning of recorded GPS tracks for map rendering.
//!
//! Many recordings of one physical route drift against each other. This crate
//! pulls the points of every track toward the local consensus of all tracks:
//! each track is smoothed, the smoothed points of all tracks fill one grid
//! index, and every point of every recorded track is replaced by the mean of
//! the indexed points near it.
//!
//! A coordinate is a fixed-point number: it counts billionths of a degree.
//! So every operation is exact, and every contract is stated over integers.
//! Track files give coordinates as decimal text and the result is written as
//! decimal text: what is read is exact to the billionth of a degree, and what
//! is written is exact.
//!
//! The modules, from the leaves to the root:
//! - `point`: points, their equality, arithmetic and means;
//! - `index`: the grid index and its queries; `search`: why a query is an
//!   exact radius search;
//! - `path`: tracks, their smoothing and their combination with an index;
//!   `consensus`: why combining moves no point far;
//! - `pipeline`: the whole cleaning of a set of tracks;
//! - `decimal`, `decimal_text`: coordinates read from and written as text;
//! - `xml`, `segments`, `gpx_deserializer`, `tcx_deserializer`, `files`:
//!   tracks read from files of the two formats;
//! - `json`: the result written for a map to draw.

pub mod consensus;
pub mod decimal;
pub mod decimal_text;
pub mod files;
pub mod gpx_deserializer;
pub mod index;
pub mod json;
pub mod path;
pub mod pipeline;
pub mod point;
pub mod search;
pub mod segments;
pub mod tcx_deserializer;
pub mod xml;
