//! Tracks: ordered sequences of points, smoothed and pulled toward consensus.

use crate::consensus::lemma_consensus_stays_near;
use crate::decimal_text::ascii_text;
use crate::index::close_points;
use crate::index::lemma_single_point_is_its_own_neighbourhood;
use crate::index::lemma_zero_radius_is_exact_match;
pub use crate::index::Points;
use crate::json::path_json;
use crate::json::push_path_json;
use crate::point::div_toward_zero;
use crate::point::lemma_mean_exact;
use crate::point::lemma_mean_of_copies;
use crate::point::lemma_mean_of_one;
use crate::point::lemma_sum_of_three;
use crate::point::mean;
use crate::point::mean_of;
use crate::point::mean_of_three;
pub use crate::point::Point;
use crate::search::lemma_consensus_is_mean_of_points_within;
use crate::search::points_within;
use vstd::prelude::*;

verus! {

/// One continuous recorded track: its points in the order of recording.
#[derive(Debug, Clone)]
pub struct Path {
    pub points: Vec<Point>,
}

impl View for Path {
    type V = Seq<Point>;

    open spec fn view(&self) -> Seq<Point> {
        self.points@
    }
}

/// A point of a path that has no indexed point within the radius, so that no
/// mean can be taken for it.
#[derive(Debug, Clone, Copy)]
pub struct CombineError {
    /// The position of the point in its path.
    pub index: usize,
    /// The point itself.
    pub point: Point,
    /// The radius of the index that was asked.
    pub radius: i64,
}

/// The three-point moving average of a track. Every interior point becomes the
/// mean of itself and its two neighbours; the first and the last point stay.
/// A track of a single point yields that point twice, once as the first and
/// once as the last point of the result.
pub open spec fn smoothed_points(points: Seq<Point>) -> Seq<Point> {
    if points.len() == 0 {
        Seq::empty()
    } else if points.len() == 1 {
        seq![points[0], points[0]]
    } else {
        Seq::new(
            points.len(),
            |i: int|
                if 0 < i < points.len() - 1 {
                    mean(seq![points[i - 1], points[i], points[i + 1]])
                } else {
                    points[i]
                },
        )
    }
}

/// Whether the index holds a point within its radius of `point`.
pub open spec fn has_close_points(indexed: Seq<Point>, radius: i64, point: Point) -> bool {
    close_points(indexed, radius, point).len() > 0
}

/// A track pulled toward consensus: each point replaced by the mean of the
/// indexed points close to it.
pub open spec fn combined_points(points: Seq<Point>, indexed: Seq<Point>, radius: i64) -> Seq<
    Point,
> {
    Seq::new(points.len(), |i: int| mean(close_points(indexed, radius, points[i])))
}

impl Path {
    pub fn new(points: Vec<Point>) -> (path: Self)
        ensures
            path.points == points,
    {
        Path { points }
    }

    /// Replaces every point by the mean of the indexed points close to it:
    /// of all indexed points within the radius of it. No point moves farther
    /// than the radius and two units. Fails at the first point that has no
    /// indexed point within the radius.
    pub fn combine(&self, all_points: &Points) -> (result: Result<Path, CombineError>)
        ensures
            match result {
                Ok(path) => {
                    &&& forall|i: int|
                        0 <= i < self@.len() ==> has_close_points(
                            all_points@,
                            all_points.radius(),
                            #[trigger] self@[i],
                        )
                    &&& path@ == combined_points(self@, all_points@, all_points.radius())
                    &&& path@.len() == self@.len()
                    &&& forall|i: int|
                        0 <= i < self@.len() ==> #[trigger] path@[i] == mean(
                            points_within(all_points@, all_points.radius(), self@[i]),
                        )
                    &&& forall|i: int|
                        0 <= i < self@.len() ==> (#[trigger] path@[i]).distance_squared(self@[i])
                            <= (all_points.radius() + 2) * (all_points.radius() + 2)
                },
                Err(error) => {
                    &&& error.index < self@.len()
                    &&& error.point == self@[error.index as int]
                    &&& error.radius == all_points.radius()
                    &&& !has_close_points(all_points@, all_points.radius(), error.point)
                    &&& forall|i: int|
                        0 <= i < error.index ==> has_close_points(
                            all_points@,
                            all_points.radius(),
                            #[trigger] self@[i],
                        )
                },
            },
    {
        let n = self.points.len();
        let mut combined_pts: Vec<Point> = Vec::new();
        let mut i: usize = 0;
        while i < n
            invariant
                i <= n,
                n == self@.len(),
                combined_pts@.len() == i,
                forall|j: int|
                    0 <= j < i ==> has_close_points(
                        all_points@,
                        all_points.radius(),
                        #[trigger] self@[j],
                    ),
                forall|j: int|
                    0 <= j < i ==> #[trigger] combined_pts@[j] == mean(
                        close_points(all_points@, all_points.radius(), self@[j]),
                    ),
            decreases n - i,
        {
            let point = self.points[i];
            let close = all_points.get_close(point);
            match mean_of(&close) {
                Some(average) => {
                    combined_pts.push(average);
                },
                None => {
                    return Err(CombineError { index: i, point, radius: all_points.radius() });
                },
            }
            i += 1;
        }
        assert(combined_pts@ =~= combined_points(self@, all_points@, all_points.radius()));
        proof {
            assert forall|i: int| 0 <= i < self@.len() implies #[trigger] combined_pts@[i] == mean(
                points_within(all_points@, all_points.radius(), self@[i]),
            ) by {
                lemma_consensus_is_mean_of_points_within(
                    all_points@,
                    all_points.radius(),
                    self@[i],
                );
            }
            assert forall|i: int| 0 <= i < self@.len() implies (
            #[trigger] combined_pts@[i]).distance_squared(self@[i]) <= (all_points.radius() + 2)
                * (all_points.radius() + 2) by {
                lemma_consensus_stays_near(all_points@, all_points.radius(), self@[i]);
            }
        }
        Ok(Self::new(combined_pts))
    }

    /// The track as an array of `[lat,lon]` pairs, both in degrees, in the
    /// order of its points.
    pub fn as_json_array(&self) -> (json: String)
        ensures
            json@ == ascii_text(path_json(self@)),
    {
        let mut json = String::new();
        push_path_json(&mut json, &self.points);
        json
    }

    /// The three-point moving average of the track. The result is as long as
    /// the track, but for a track of one point, which comes out twice.
    pub fn smooth(&self) -> (smoothed: Self)
        ensures
            smoothed@ == smoothed_points(self@),
            self@.len() != 1 ==> smoothed@.len() == self@.len(),
            self@.len() == 1 ==> smoothed@ == seq![self@[0], self@[0]],
            self@.len() >= 2 ==> smoothed@.first() == self@.first() && smoothed@.last()
                == self@.last(),
            forall|i: int|
                1 <= i <= self@.len() - 2 ==> {
                    &&& (#[trigger] smoothed@[i]).lat == div_toward_zero(
                        self@[i - 1].lat + self@[i].lat + self@[i + 1].lat,
                        3,
                    )
                    &&& smoothed@[i].lon == div_toward_zero(
                        self@[i - 1].lon + self@[i].lon + self@[i + 1].lon,
                        3,
                    )
                },
    {
        proof {
            assert forall|i: int| 1 <= i <= self@.len() - 2 implies {
                &&& (#[trigger] smoothed_points(self@)[i]).lat == div_toward_zero(
                    self@[i - 1].lat + self@[i].lat + self@[i + 1].lat,
                    3,
                )
                &&& smoothed_points(self@)[i].lon == div_toward_zero(
                    self@[i - 1].lon + self@[i].lon + self@[i + 1].lon,
                    3,
                )
            } by {
                lemma_smoothing_averages_interior(self@, i);
            }
        }
        let n = self.points.len();
        let mut smoothed: Vec<Point> = Vec::new();
        if n == 0 {
            return Self::new(smoothed);
        }
        smoothed.push(self.points[0]);
        let mut index: usize = 1;
        while index < n - 1
            invariant
                n == self@.len(),
                n >= 1,
                1 <= index,
                index <= n - 1 || index == 1,
                smoothed@.len() == index,
                smoothed@[0] == self@[0],
                forall|j: int|
                    0 < j < index ==> #[trigger] smoothed@[j] == mean(
                        seq![self@[j - 1], self@[j], self@[j + 1]],
                    ),
            decreases n - index,
        {
            let average = mean_of_three(
                self.points[index - 1],
                self.points[index],
                self.points[index + 1],
            );
            smoothed.push(average);
            index += 1;
        }
        smoothed.push(self.points[n - 1]);
        assert(smoothed@ =~= smoothed_points(self@));
        Self::new(smoothed)
    }
}

/// An interior point of a smoothed track is the mean of the point at its place
/// and of the two beside it: each coordinate is a third of the sum of the three,
/// rounded toward zero.
pub proof fn lemma_smoothing_averages_interior(points: Seq<Point>, i: int)
    requires
        1 <= i <= points.len() - 2,
    ensures
        smoothed_points(points)[i].lat == div_toward_zero(
            points[i - 1].lat + points[i].lat + points[i + 1].lat,
            3,
        ),
        smoothed_points(points)[i].lon == div_toward_zero(
            points[i - 1].lon + points[i].lon + points[i + 1].lon,
            3,
        ),
{
    let window = seq![points[i - 1], points[i], points[i + 1]];
    lemma_sum_of_three(points[i - 1], points[i], points[i + 1]);
    lemma_mean_exact(window);
}

/// The mean of what a query at `p` returns from an index of `p` alone is `p`.
proof fn lemma_single_point_consensus(p: Point, radius: i64)
    requires
        radius >= 0,
    ensures
        close_points(seq![p], radius, p).len() == 1,
        mean(close_points(seq![p], radius, p)) == p,
{
    lemma_single_point_is_its_own_neighbourhood(p, radius);
    lemma_mean_of_one(p);
}

/// Where the index holds one point alone and the radius is not negative, a
/// track that consists of that point is left as it is.
pub proof fn lemma_combining_single_point_keeps_it(p: Point, radius: i64)
    requires
        radius >= 0,
    ensures
        has_close_points(seq![p], radius, p),
        combined_points(seq![p], seq![p], radius) == seq![p],
{
    let one = seq![p];
    let combined = combined_points(one, one, radius);
    lemma_single_point_consensus(p, radius);
    assert(one[0] == p);
    assert(combined[0] == p);
    assert(combined =~= one);
}

/// A point that lies midway between its two neighbours stays where it is when
/// the track is smoothed: smoothing moves no point of an evenly spaced
/// straight line.
pub proof fn lemma_smoothing_keeps_midpoints(points: Seq<Point>, i: int)
    requires
        1 <= i <= points.len() - 2,
        points[i - 1].lat + points[i + 1].lat == 2 * points[i].lat,
        points[i - 1].lon + points[i + 1].lon == 2 * points[i].lon,
    ensures
        smoothed_points(points)[i] == points[i],
{
    lemma_smoothing_averages_interior(points, i);
}

/// With a radius of zero, a point of a track is averaged with nothing but the
/// indexed copies of itself: a track all of whose points are indexed is left
/// as it is.
pub proof fn lemma_combining_at_zero_radius_keeps_indexed_points(
    points: Seq<Point>,
    indexed: Seq<Point>,
)
    requires
        forall|i: int| 0 <= i < points.len() ==> indexed.contains(#[trigger] points[i]),
    ensures
        forall|i: int|
            0 <= i < points.len() ==> has_close_points(indexed, 0, #[trigger] points[i]),
        combined_points(points, indexed, 0) == points,
{
    assert forall|i: int| 0 <= i < points.len() implies has_close_points(
        indexed,
        0,
        #[trigger] points[i],
    ) && mean(close_points(indexed, 0, points[i])) == points[i] by {
        let p = points[i];
        let close = close_points(indexed, 0, p);
        lemma_zero_radius_is_exact_match(indexed, p, p);
        assert(close.contains(p));
        assert forall|j: int| 0 <= j < close.len() implies close[j] == p by {
            assert(close.contains(close[j]));
            lemma_zero_radius_is_exact_match(indexed, p, close[j]);
        }
        lemma_mean_of_copies(close, p);
    }
    assert(combined_points(points, indexed, 0) =~= points);
}

} // verus!
