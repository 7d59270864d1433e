//! Why the grid may be trusted: a query is an exact radius search.
//!
//! The nine cells around a point cover the disk of the query, since a cell is
//! as wide as the radius. So a query returns every indexed point within the
//! radius, as often as it was indexed, and the grid decides nothing but the
//! order of the answer.

use crate::index::cell_of;
use crate::index::close_in_cell;
use crate::index::close_in_row;
use crate::index::close_points;
use crate::index::in_cell;
use crate::index::lemma_within_neighbour_cells;
use crate::index::near;
use crate::point::lemma_sums_ignore_order;
use crate::point::mean;
use crate::point::Point;
use vstd::prelude::*;
use vstd::seq_lib::lemma_multiset_commutative;

verus! {

/// All indexed points within `radius` of `center`, in the order in which they
/// were indexed.
pub open spec fn points_within(points: Seq<Point>, radius: i64, center: Point) -> Seq<Point> {
    points.filter(near(center, radius))
}

/// Indexing one more point adds it to the close points of its own cell, if it
/// is within the radius, and changes no other cell.
pub proof fn lemma_close_in_cell_grows(
    points: Seq<Point>,
    x: Point,
    radius: i64,
    center: Point,
    row: int,
    col: int,
)
    ensures
        close_in_cell(points.push(x), radius, center, row, col) == if cell_of(x, radius) == (
            row,
            col,
        ) && x.within(center, radius) {
            close_in_cell(points, radius, center, row, col).push(x)
        } else {
            close_in_cell(points, radius, center, row, col)
        },
{
    points.lemma_filter_push(x, in_cell(radius, row, col));
    points.filter(in_cell(radius, row, col)).lemma_filter_push(x, near(center, radius));
}

/// Indexing one more point adds it once to the close points of its own row, if
/// it is within the radius and at most one column from the centre, and changes
/// no other row.
pub proof fn lemma_close_in_row_grows(
    points: Seq<Point>,
    x: Point,
    radius: i64,
    center: Point,
    row: int,
)
    ensures
        close_in_row(points.push(x), radius, center, row).to_multiset() == if cell_of(x, radius).0
            == row && cell_of(center, radius).1 - 1 <= cell_of(x, radius).1 <= cell_of(
            center,
            radius,
        ).1 + 1 && x.within(center, radius) {
            close_in_row(points, radius, center, row).to_multiset().insert(x)
        } else {
            close_in_row(points, radius, center, row).to_multiset()
        },
{
    broadcast use vstd::seq_lib::group_to_multiset_ensures;

    let col = cell_of(center, radius).1;
    let more = points.push(x);
    let left = close_in_cell(points, radius, center, row, col - 1);
    let middle = close_in_cell(points, radius, center, row, col);
    let right = close_in_cell(points, radius, center, row, col + 1);
    let more_left = close_in_cell(more, radius, center, row, col - 1);
    let more_middle = close_in_cell(more, radius, center, row, col);
    let more_right = close_in_cell(more, radius, center, row, col + 1);
    lemma_close_in_cell_grows(points, x, radius, center, row, col - 1);
    lemma_close_in_cell_grows(points, x, radius, center, row, col);
    lemma_close_in_cell_grows(points, x, radius, center, row, col + 1);
    lemma_multiset_commutative(left, middle);
    lemma_multiset_commutative(left + middle, right);
    lemma_multiset_commutative(more_left, more_middle);
    lemma_multiset_commutative(more_left + more_middle, more_right);
    let before = left.to_multiset().add(middle.to_multiset()).add(right.to_multiset());
    let after = more_left.to_multiset().add(more_middle.to_multiset()).add(
        more_right.to_multiset(),
    );
    assert(close_in_row(points, radius, center, row).to_multiset() =~= before);
    assert(close_in_row(more, radius, center, row).to_multiset() =~= after);
    if cell_of(x, radius).0 == row && col - 1 <= cell_of(x, radius).1 <= col + 1 && x.within(
        center,
        radius,
    ) {
        assert(after =~= before.insert(x));
    } else {
        assert(after =~= before);
    }
}

/// A query returns the indexed points within the radius, each as often as it
/// was indexed.
pub proof fn lemma_query_returns_points_within(points: Seq<Point>, radius: i64, center: Point)
    ensures
        close_points(points, radius, center).to_multiset() == points_within(
            points,
            radius,
            center,
        ).to_multiset(),
    decreases points.len(),
{
    broadcast use vstd::seq_lib::group_to_multiset_ensures;

    let row = cell_of(center, radius).0;
    if points.len() == 0 {
        points.lemma_filter_len(near(center, radius));
        assert forall|r: int, c: int|
            close_in_cell(points, radius, center, r, c) =~= Seq::<Point>::empty() by {
            points.lemma_filter_len(in_cell(radius, r, c));
            points.filter(in_cell(radius, r, c)).lemma_filter_len(near(center, radius));
        }
        assert(close_points(points, radius, center) =~= Seq::<Point>::empty());
        assert(points_within(points, radius, center) =~= Seq::<Point>::empty());
    } else {
        let fewer = points.drop_last();
        let x = points.last();
        assert(points =~= fewer.push(x));
        lemma_query_returns_points_within(fewer, radius, center);
        fewer.lemma_filter_push(x, near(center, radius));
        let above = close_in_row(fewer, radius, center, row - 1);
        let level = close_in_row(fewer, radius, center, row);
        let below = close_in_row(fewer, radius, center, row + 1);
        let more_above = close_in_row(points, radius, center, row - 1);
        let more_level = close_in_row(points, radius, center, row);
        let more_below = close_in_row(points, radius, center, row + 1);
        lemma_close_in_row_grows(fewer, x, radius, center, row - 1);
        lemma_close_in_row_grows(fewer, x, radius, center, row);
        lemma_close_in_row_grows(fewer, x, radius, center, row + 1);
        lemma_multiset_commutative(above, level);
        lemma_multiset_commutative(above + level, below);
        lemma_multiset_commutative(more_above, more_level);
        lemma_multiset_commutative(more_above + more_level, more_below);
        let before = above.to_multiset().add(level.to_multiset()).add(below.to_multiset());
        let after = more_above.to_multiset().add(more_level.to_multiset()).add(
            more_below.to_multiset(),
        );
        assert(close_points(fewer, radius, center).to_multiset() =~= before);
        assert(close_points(points, radius, center).to_multiset() =~= after);
        if x.within(center, radius) {
            lemma_within_neighbour_cells(center, x, radius);
            assert(after =~= before.insert(x));
            assert(points_within(points, radius, center) == points_within(
                fewer,
                radius,
                center,
            ).push(x));
        } else {
            assert(after =~= before);
        }
    }
}

/// The consensus at a point is the mean of all indexed points within the
/// radius of it: the grid has no part in the value.
pub proof fn lemma_consensus_is_mean_of_points_within(
    points: Seq<Point>,
    radius: i64,
    center: Point,
)
    ensures
        close_points(points, radius, center).len() == points_within(points, radius, center).len(),
        mean(close_points(points, radius, center)) == mean(points_within(points, radius, center)),
{
    lemma_query_returns_points_within(points, radius, center);
    lemma_sums_ignore_order(
        close_points(points, radius, center),
        points_within(points, radius, center),
    );
}

} // verus!
