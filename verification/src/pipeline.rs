//! The whole cleaning of a set of tracks, in its one valid order.
//!
//! The index is built from the smoothed tracks of the whole set before any
//! track is combined, and what is combined against it are the tracks as they
//! were recorded, never the smoothed ones.

use crate::path::combined_points;
use crate::path::has_close_points;
use crate::path::smoothed_points;
use crate::path::CombineError;
use crate::path::Path;
use crate::path::Point;
use crate::path::Points;
use vstd::prelude::*;

verus! {

/// The radius that suits recreational tracks: 0.00035 degrees, about 39 metres
/// at the equator.
pub const DEFAULT_RADIUS: i64 = 350_000;

/// A track that could not be combined, and why.
#[derive(Debug, Clone, Copy)]
pub struct CleanError {
    /// The position of the track among the tracks given.
    pub path: usize,
    /// The point of that track that has no close point in the index.
    pub cause: CombineError,
}

/// The points of all smoothed tracks, track after track: what the consensus
/// index is built from.
pub open spec fn consensus_points(paths: Seq<Path>) -> Seq<Point>
    decreases paths.len(),
{
    if paths.len() == 0 {
        Seq::empty()
    } else {
        consensus_points(paths.drop_last()) + smoothed_points(paths.last()@)
    }
}

/// Whether every point of a track has a close point in the index.
pub open spec fn can_combine(points: Seq<Point>, indexed: Seq<Point>, radius: i64) -> bool {
    forall|i: int| 0 <= i < points.len() ==> has_close_points(indexed, radius, #[trigger] points[i])
}

/// Smooths every track and gathers the points of all of them.
pub fn smooth_all(paths: &Vec<Path>) -> (gathered: Vec<Point>)
    ensures
        gathered@ == consensus_points(paths@),
{
    let mut gathered: Vec<Point> = Vec::new();
    let n = paths.len();
    let mut i: usize = 0;
    while i < n
        invariant
            i <= n,
            n == paths@.len(),
            gathered@ == consensus_points(paths@.take(i as int)),
        decreases n - i,
    {
        let mut smoothed = paths[i].smooth();
        proof {
            assert(paths@.take(i + 1).drop_last() =~= paths@.take(i as int));
        }
        gathered.append(&mut smoothed.points);
        i += 1;
    }
    proof {
        assert(paths@.take(n as int) =~= paths@);
    }
    gathered
}

/// Cleans a set of tracks: every point of every track is replaced by the mean
/// of the points close to it among the smoothed points of all tracks. Fails at
/// the first point, in the order of the tracks, that has no close point.
pub fn clean_paths(paths: &Vec<Path>, radius: i64) -> (result: Result<Vec<Path>, CleanError>)
    ensures
        match result {
            Ok(clean) => {
                &&& clean@.len() == paths@.len()
                &&& forall|i: int|
                    0 <= i < paths@.len() ==> {
                        &&& can_combine((#[trigger] paths@[i])@, consensus_points(paths@), radius)
                        &&& clean@[i]@ == combined_points(
                            paths@[i]@,
                            consensus_points(paths@),
                            radius,
                        )
                    }
            },
            Err(error) => {
                &&& error.path < paths@.len()
                &&& forall|i: int|
                    0 <= i < error.path ==> can_combine(
                        (#[trigger] paths@[i])@,
                        consensus_points(paths@),
                        radius,
                    )
                &&& error.cause.index < paths@[error.path as int]@.len()
                &&& error.cause.point == paths@[error.path as int]@[error.cause.index as int]
                &&& error.cause.radius == radius
                &&& !has_close_points(consensus_points(paths@), radius, error.cause.point)
                &&& forall|j: int|
                    0 <= j < error.cause.index ==> has_close_points(
                        consensus_points(paths@),
                        radius,
                        #[trigger] paths@[error.path as int]@[j],
                    )
            },
        },
{
    let all_points = Points::new(smooth_all(paths), radius);
    let mut clean: Vec<Path> = Vec::new();
    let n = paths.len();
    let mut i: usize = 0;
    while i < n
        invariant
            i <= n,
            n == paths@.len(),
            all_points@ == consensus_points(paths@),
            all_points.radius() == radius,
            clean@.len() == i,
            forall|k: int|
                0 <= k < i ==> {
                    &&& can_combine((#[trigger] paths@[k])@, consensus_points(paths@), radius)
                    &&& clean@[k]@ == combined_points(
                        paths@[k]@,
                        consensus_points(paths@),
                        radius,
                    )
                },
        decreases n - i,
    {
        match paths[i].combine(&all_points) {
            Ok(combined) => {
                clean.push(combined);
            },
            Err(cause) => {
                return Err(CleanError { path: i, cause });
            },
        }
        i += 1;
    }
    Ok(clean)
}

} // verus!
