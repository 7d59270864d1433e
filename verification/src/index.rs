//! A uniform grid over points that answers "which points lie near this one".
//!
//! The grid discards the sign of a coordinate: points that differ only in
//! hemisphere share a cell. The distance test that follows the cell lookup
//! keeps such points apart, so this costs time, never correctness.

use crate::point::Point;
use crate::search::lemma_query_returns_points_within;
use crate::search::points_within;
use std::collections::HashMap;
use vstd::arithmetic::div_mod::lemma_div_is_ordered;
use vstd::arithmetic::div_mod::lemma_div_plus_one;
use vstd::prelude::*;
use vstd::seq_lib::lemma_seq_concat_contains_all_elements;

verus! {

broadcast use vstd::std_specs::hash::group_hash_axioms;

/// The absolute value of a coordinate.
pub open spec fn magnitude(x: i64) -> int {
    if x >= 0 {
        x as int
    } else {
        -(x as int)
    }
}

/// The grid line of one coordinate: how many whole cell widths its magnitude
/// holds. The width of a cell is the magnitude of `radius`. With a width of
/// zero, the coordinate zero lies on line zero and every other coordinate on
/// the farthest line.
pub open spec fn grid_line(x: i64, radius: i64) -> int {
    if radius == 0 {
        if x == 0 {
            0
        } else {
            u64::MAX as int
        }
    } else {
        magnitude(x) / magnitude(radius)
    }
}

/// The cell of a point: the grid lines of its latitude and of its longitude.
pub open spec fn cell_of(point: Point, radius: i64) -> (int, int) {
    (grid_line(point.lat, radius), grid_line(point.lon, radius))
}

/// The test "lies in cell (`row`, `col`)".
pub open spec fn in_cell(radius: i64, row: int, col: int) -> spec_fn(Point) -> bool {
    |q: Point| cell_of(q, radius) == (row, col)
}

/// The test "lies within `radius` of `center`".
pub open spec fn near(center: Point, radius: i64) -> spec_fn(Point) -> bool {
    |q: Point| q.within(center, radius)
}

/// The points of one cell, in the order in which they were indexed.
pub open spec fn cell_points(points: Seq<Point>, radius: i64, row: int, col: int) -> Seq<Point> {
    points.filter(in_cell(radius, row, col))
}

/// The points of one cell that lie within `radius` of `center`.
pub open spec fn close_in_cell(
    points: Seq<Point>,
    radius: i64,
    center: Point,
    row: int,
    col: int,
) -> Seq<Point> {
    cell_points(points, radius, row, col).filter(near(center, radius))
}

/// The close points of three neighbouring cells of one row: the cell left of
/// the centre's column, the cell in it, the cell right of it.
pub open spec fn close_in_row(points: Seq<Point>, radius: i64, center: Point, row: int) -> Seq<
    Point,
> {
    let col = cell_of(center, radius).1;
    close_in_cell(points, radius, center, row, col - 1) + close_in_cell(
        points,
        radius,
        center,
        row,
        col,
    ) + close_in_cell(points, radius, center, row, col + 1)
}

/// What a query returns: the points within `radius` of `center` among those of
/// the nine cells around the centre's cell, row by row and cell by cell. Cells
/// off the grid hold no point.
pub open spec fn close_points(points: Seq<Point>, radius: i64, center: Point) -> Seq<Point> {
    let row = cell_of(center, radius).0;
    close_in_row(points, radius, center, row - 1) + close_in_row(points, radius, center, row)
        + close_in_row(points, radius, center, row + 1)
}

/// The key under which the bucket of a cell is stored.
pub open spec fn bucket_key(row: int, col: int) -> int {
    row * 0x1_0000_0000_0000_0000 + col
}

/// Every cell that holds a point has a bucket with exactly the cell's points;
/// no other cell has a bucket.
pub open spec fn buckets_hold(
    buckets: Map<u128, Vec<Point>>,
    points: Seq<Point>,
    radius: i64,
) -> bool {
    forall|row: int, col: int|
        0 <= row <= u64::MAX && 0 <= col <= u64::MAX ==> {
            let cell = #[trigger] cell_points(points, radius, row, col);
            let key = bucket_key(row, col) as u128;
            if cell.len() == 0 {
                !buckets.contains_key(key)
            } else {
                buckets.contains_key(key) && buckets[key]@ == cell
            }
        }
}

fn magnitude_of(x: i64) -> (m: u64)
    ensures
        m == magnitude(x),
{
    if x >= 0 {
        x as u64
    } else if x == i64::MIN {
        0x8000_0000_0000_0000u64
    } else {
        (-x) as u64
    }
}

fn grid_line_of(x: i64, radius: i64) -> (line: u64)
    ensures
        line == grid_line(x, radius),
{
    if radius == 0 {
        if x == 0 {
            0
        } else {
            u64::MAX
        }
    } else {
        magnitude_of(x) / magnitude_of(radius)
    }
}

fn key_of(row: u64, col: u64) -> (key: u128)
    ensures
        key == bucket_key(row as int, col as int),
{
    (row as u128) * 0x1_0000_0000_0000_0000u128 + (col as u128)
}

/// A grid index over a fixed collection of points.
pub struct Points {
    radius: i64,
    buckets: HashMap<u128, Vec<Point>>,
    indexed: Ghost<Seq<Point>>,
}

impl View for Points {
    type V = Seq<Point>;

    /// The indexed points, in the order in which they were given.
    closed spec fn view(&self) -> Seq<Point> {
        self.indexed@
    }
}

impl Points {
    #[verifier::type_invariant]
    spec fn well_formed(self) -> bool {
        buckets_hold(self.buckets@, self.indexed@, self.radius)
    }

    /// The radius of a query and the width of a cell.
    pub closed spec fn spec_radius(&self) -> i64 {
        self.radius
    }

    /// The radius of a query and the width of a cell.
    #[verifier::when_used_as_spec(spec_radius)]
    pub fn radius(&self) -> (radius: i64)
        ensures
            radius == self.spec_radius(),
    {
        self.radius
    }

    /// The points that the bucket of a cell holds, in the order in which they
    /// were indexed; none if the cell has no bucket.
    pub closed spec fn bucket(&self, row: int, col: int) -> Seq<Point> {
        let key = bucket_key(row, col) as u128;
        if self.buckets@.contains_key(key) {
            self.buckets@[key]@
        } else {
            Seq::empty()
        }
    }

    /// Whether the cell has a bucket.
    pub closed spec fn has_bucket(&self, row: int, col: int) -> bool {
        self.buckets@.contains_key(bucket_key(row, col) as u128)
    }

    /// Builds the index of `points` for queries of the given radius. Every
    /// point lies in the bucket of its own cell and in no other, and a cell
    /// has a bucket exactly when it holds a point.
    pub fn new(points: Vec<Point>, radius: i64) -> (index: Self)
        ensures
            index@ == points@,
            index.radius() == radius,
            forall|row: int, col: int|
                0 <= row <= u64::MAX && 0 <= col <= u64::MAX ==> #[trigger] index.bucket(row, col)
                    == cell_points(points@, radius, row, col),
            forall|row: int, col: int|
                0 <= row <= u64::MAX && 0 <= col <= u64::MAX ==> (#[trigger] index.has_bucket(
                    row,
                    col,
                ) <==> cell_points(points@, radius, row, col).len() > 0),
    {
        let mut buckets: HashMap<u128, Vec<Point>> = HashMap::new();
        let n = points.len();
        let mut i: usize = 0;
        proof {
            assert forall|row: int, col: int|
                cell_points(points@.take(0), radius, row, col).len() == 0 by {
                points@.take(0).lemma_filter_len(in_cell(radius, row, col));
            }
        }
        while i < n
            invariant
                i <= n,
                n == points@.len(),
                buckets_hold(buckets@, points@.take(i as int), radius),
            decreases n - i,
        {
            let point = points[i];
            let (row, col) = Self::address(point, radius);
            let key = key_of(row, col);
            let ghost before = points@.take(i as int);
            let ghost after = points@.take(i + 1);
            let ghost old_buckets = buckets@;
            let mut bucket = match buckets.remove(&key) {
                Some(bucket) => bucket,
                None => Vec::new(),
            };
            proof {
                assert(cell_points(before, radius, row as int, col as int) == bucket@);
            }
            bucket.push(point);
            buckets.insert(key, bucket);
            proof {
                assert(after =~= before.push(point));
                assert forall|r: int, c: int| 0 <= r <= u64::MAX && 0 <= c <= u64::MAX implies {
                    let cell = #[trigger] cell_points(after, radius, r, c);
                    let k = bucket_key(r, c) as u128;
                    if cell.len() == 0 {
                        !buckets@.contains_key(k)
                    } else {
                        buckets@.contains_key(k) && buckets@[k]@ == cell
                    }
                } by {
                    before.lemma_filter_push(point, in_cell(radius, r, c));
                    let was = cell_points(before, radius, r, c);
                    if r == row && c == col {
                    } else {
                        assert(bucket_key(r, c) as u128 != key);
                        assert(!in_cell(radius, r, c)(point));
                    }
                }
            }
            i += 1;
        }
        proof {
            assert(points@.take(n as int) =~= points@);
        }
        let index = Points { radius, buckets, indexed: Ghost(points@) };
        proof {
            assert forall|row: int, col: int|
                0 <= row <= u64::MAX && 0 <= col <= u64::MAX implies #[trigger] index.bucket(
                row,
                col,
            ) == cell_points(points@, radius, row, col) by {
                let cell = cell_points(points@, radius, row, col);
                if cell.len() == 0 {
                    assert(cell =~= Seq::<Point>::empty());
                }
            }
            assert forall|row: int, col: int|
                0 <= row <= u64::MAX && 0 <= col <= u64::MAX implies (#[trigger] index.has_bucket(
                row,
                col,
            ) <==> cell_points(points@, radius, row, col).len() > 0) by {
                let cell = cell_points(points@, radius, row, col);
            }
        }
        index
    }

    /// The cell of a point on a grid of the given cell width.
    pub fn address(point: Point, radius: i64) -> (cell: (u64, u64))
        ensures
            (cell.0 as int, cell.1 as int) == cell_of(point, radius),
    {
        (grid_line_of(point.lat, radius), grid_line_of(point.lon, radius))
    }

    /// Appends to `out` the points of one cell that lie within the radius of
    /// `center`.
    fn push_cell(&self, row: u64, col: u64, center: Point, out: &mut Vec<Point>)
        ensures
            final(out)@ == old(out)@ + close_in_cell(
                self@,
                self.radius(),
                center,
                row as int,
                col as int,
            ),
    {
        proof {
            use_type_invariant(self);
        }
        let ghost cell = cell_points(self@, self.radius, row as int, col as int);
        let key = key_of(row, col);
        match self.buckets.get(&key) {
            Some(bucket) => {
                assert(bucket@ == cell);
                let n = bucket.len();
                let mut j: usize = 0;
                proof {
                    bucket@.take(0).lemma_filter_len(near(center, self.radius));
                }
                while j < n
                    invariant
                        j <= n,
                        n == bucket@.len(),
                        out@ == old(out)@ + bucket@.take(j as int).filter(
                            near(center, self.radius),
                        ),
                    decreases n - j,
                {
                    let q = bucket[j];
                    proof {
                        assert(bucket@.take(j + 1) =~= bucket@.take(j as int).push(q));
                        bucket@.take(j as int).lemma_filter_push(q, near(center, self.radius));
                    }
                    if q.is_within(center, self.radius) {
                        out.push(q);
                    }
                    j += 1;
                }
                proof {
                    assert(bucket@.take(n as int) =~= bucket@);
                }
            },
            None => {
                proof {
                    assert(cell.len() == 0);
                    cell.lemma_filter_len(near(center, self.radius));
                    assert(out@ =~= old(out)@ + cell.filter(near(center, self.radius)));
                }
            },
        }
    }

    /// Appends to `out` the close points of the three cells of one row around
    /// the column of `center`.
    fn push_row(&self, row: u64, center: Point, out: &mut Vec<Point>)
        ensures
            final(out)@ == old(out)@ + close_in_row(self@, self.radius(), center, row as int),
    {
        let (_, col) = Self::address(center, self.radius);
        if col > 0 {
            self.push_cell(row, col - 1, center, out);
        } else {
            proof {
                lemma_no_point_off_grid(self@, self.radius, center, row as int, -1);
            }
        }
        self.push_cell(row, col, center, out);
        if col < u64::MAX {
            self.push_cell(row, col + 1, center, out);
        } else {
            proof {
                lemma_no_point_off_grid(self@, self.radius, center, row as int, u64::MAX + 1);
            }
        }
        assert(out@ =~= old(out)@ + close_in_row(self@, self.radius(), center, row as int));
    }

    /// The indexed points near `point`: those of the nine cells around its
    /// cell that lie within the radius, row by row and cell by cell, each cell
    /// in the order in which its points were indexed.
    ///
    /// They are the indexed points within the radius of `point`, each as often
    /// as it was indexed.
    pub fn get_close(&self, point: Point) -> (close: Vec<Point>)
        ensures
            close@ == close_points(self@, self.radius(), point),
            close@.to_multiset() == points_within(self@, self.radius(), point).to_multiset(),
            forall|q: Point|
                close@.contains(q) <==> self@.contains(q) && q.within(point, self.radius()),
    {
        proof {
            lemma_query_returns_points_within(self@, self.radius(), point);
            assert forall|q: Point|
                close_points(self@, self.radius(), point).contains(q) <==> self@.contains(q)
                    && q.within(point, self.radius()) by {
                lemma_query_is_radius_search(self@, self.radius(), point, q);
            }
        }
        let (row, _) = Self::address(point, self.radius);
        let mut close: Vec<Point> = Vec::new();
        if row > 0 {
            self.push_row(row - 1, point, &mut close);
        } else {
            proof {
                lemma_no_point_off_row(self@, self.radius, point, -1);
            }
        }
        self.push_row(row, point, &mut close);
        if row < u64::MAX {
            self.push_row(row + 1, point, &mut close);
        } else {
            proof {
                lemma_no_point_off_row(self@, self.radius, point, u64::MAX + 1);
            }
        }
        assert(close@ =~= close_points(self@, self.radius(), point));
        close
    }
}

/// A grid line is never negative and never beyond the farthest line.
pub proof fn lemma_grid_line_range(x: i64, radius: i64)
    ensures
        0 <= grid_line(x, radius) <= u64::MAX,
{
    if radius != 0 {
        let m = magnitude(x);
        let w = magnitude(radius);
        assert(0 <= m / w <= m) by (nonlinear_arith)
            requires
                m >= 0,
                w >= 1,
        ;
    }
}

/// A cell off the grid holds no point, so none of its points is close.
pub proof fn lemma_no_point_off_grid(
    points: Seq<Point>,
    radius: i64,
    center: Point,
    row: int,
    col: int,
)
    requires
        !(0 <= row <= u64::MAX && 0 <= col <= u64::MAX),
    ensures
        cell_points(points, radius, row, col) == Seq::<Point>::empty(),
        close_in_cell(points, radius, center, row, col) == Seq::<Point>::empty(),
{
    let cell = cell_points(points, radius, row, col);
    if cell.len() > 0 {
        let q = cell[0];
        points.lemma_filter_pred(in_cell(radius, row, col), 0);
        lemma_grid_line_range(q.lat, radius);
        lemma_grid_line_range(q.lon, radius);
    }
    assert(cell =~= Seq::<Point>::empty());
    cell.lemma_filter_len(near(center, radius));
    assert(close_in_cell(points, radius, center, row, col) =~= Seq::<Point>::empty());
}

/// A row off the grid holds no point, so none of its points is close.
pub proof fn lemma_no_point_off_row(points: Seq<Point>, radius: i64, center: Point, row: int)
    requires
        !(0 <= row <= u64::MAX),
    ensures
        close_in_row(points, radius, center, row) == Seq::<Point>::empty(),
{
    let col = cell_of(center, radius).1;
    lemma_no_point_off_grid(points, radius, center, row, col - 1);
    lemma_no_point_off_grid(points, radius, center, row, col);
    lemma_no_point_off_grid(points, radius, center, row, col + 1);
    assert(close_in_row(points, radius, center, row) =~= Seq::<Point>::empty());
}

/// A point is among the close points of a cell exactly when it is indexed,
/// lies in that cell and lies within the radius of the centre.
pub proof fn lemma_close_in_cell_contains(
    points: Seq<Point>,
    radius: i64,
    center: Point,
    row: int,
    col: int,
    q: Point,
)
    ensures
        close_in_cell(points, radius, center, row, col).contains(q) <==> points.contains(q)
            && cell_of(q, radius) == (row, col) && q.within(center, radius),
{
    let cell = cell_points(points, radius, row, col);
    let close = cell.filter(near(center, radius));
    if close.contains(q) {
        let i = close.lemma_contains_to_index(q);
        cell.lemma_filter_pred(near(center, radius), i);
        cell.lemma_filter_contains_rev(near(center, radius), q);
        let j = cell.lemma_contains_to_index(q);
        points.lemma_filter_pred(in_cell(radius, row, col), j);
        points.lemma_filter_contains_rev(in_cell(radius, row, col), q);
    }
    if points.contains(q) && cell_of(q, radius) == (row, col) && q.within(center, radius) {
        let i = points.lemma_contains_to_index(q);
        points.lemma_filter_contains(in_cell(radius, row, col), i);
        let j = cell.lemma_contains_to_index(q);
        cell.lemma_filter_contains(near(center, radius), j);
    }
}

/// A point is among the close points of a row exactly when it is indexed, lies
/// in that row, at most one column from the centre, and within the radius.
pub proof fn lemma_close_in_row_contains(
    points: Seq<Point>,
    radius: i64,
    center: Point,
    row: int,
    q: Point,
)
    ensures
        close_in_row(points, radius, center, row).contains(q) <==> {
            &&& points.contains(q)
            &&& q.within(center, radius)
            &&& cell_of(q, radius).0 == row
            &&& cell_of(center, radius).1 - 1 <= cell_of(q, radius).1 <= cell_of(center, radius).1
                + 1
        },
{
    let col = cell_of(center, radius).1;
    let left = close_in_cell(points, radius, center, row, col - 1);
    let middle = close_in_cell(points, radius, center, row, col);
    let right = close_in_cell(points, radius, center, row, col + 1);
    lemma_close_in_cell_contains(points, radius, center, row, col - 1, q);
    lemma_close_in_cell_contains(points, radius, center, row, col, q);
    lemma_close_in_cell_contains(points, radius, center, row, col + 1, q);
    lemma_seq_concat_contains_all_elements(left, middle, q);
    lemma_seq_concat_contains_all_elements(left + middle, right, q);
}

/// A query returns a point exactly when the point is indexed, lies within the
/// radius of the centre, and its cell is the centre's cell or one of the eight
/// around it.
pub proof fn lemma_close_points_contains(points: Seq<Point>, radius: i64, center: Point, q: Point)
    ensures
        close_points(points, radius, center).contains(q) <==> {
            &&& points.contains(q)
            &&& q.within(center, radius)
            &&& cell_of(center, radius).0 - 1 <= cell_of(q, radius).0 <= cell_of(center, radius).0
                + 1
            &&& cell_of(center, radius).1 - 1 <= cell_of(q, radius).1 <= cell_of(center, radius).1
                + 1
        },
{
    let row = cell_of(center, radius).0;
    let above = close_in_row(points, radius, center, row - 1);
    let level = close_in_row(points, radius, center, row);
    let below = close_in_row(points, radius, center, row + 1);
    lemma_close_in_row_contains(points, radius, center, row - 1, q);
    lemma_close_in_row_contains(points, radius, center, row, q);
    lemma_close_in_row_contains(points, radius, center, row + 1, q);
    lemma_seq_concat_contains_all_elements(above, level, q);
    lemma_seq_concat_contains_all_elements(above + level, below, q);
}

/// Two coordinates no farther apart than the cell width lie on the same grid
/// line or on neighbouring lines.
pub proof fn lemma_close_coordinates_neighbour_lines(x: i64, y: i64, radius: i64)
    requires
        radius >= 0,
        (x - y) * (x - y) <= radius * radius,
    ensures
        grid_line(y, radius) - 1 <= grid_line(x, radius) <= grid_line(y, radius) + 1,
{
    let d = x - y;
    let r = radius as int;
    assert(-r <= d <= r) by (nonlinear_arith)
        requires
            r >= 0,
            d * d <= r * r,
    ;
    if radius > 0 {
        let a = magnitude(x);
        let b = magnitude(y);
        assert(magnitude(radius) == r);
        lemma_div_is_ordered(a, b + r, r);
        lemma_div_is_ordered(b, a + r, r);
        lemma_div_plus_one(a, r);
        lemma_div_plus_one(b, r);
    }
}

/// Two points within the radius of each other lie in the same cell or in
/// neighbouring cells: the nine cells of a query cover its disk.
pub proof fn lemma_within_neighbour_cells(p: Point, q: Point, radius: i64)
    requires
        q.within(p, radius),
    ensures
        cell_of(p, radius).0 - 1 <= cell_of(q, radius).0 <= cell_of(p, radius).0 + 1,
        cell_of(p, radius).1 - 1 <= cell_of(q, radius).1 <= cell_of(p, radius).1 + 1,
{
    let dlat = q.lat - p.lat;
    let dlon = q.lon - p.lon;
    assert(dlat * dlat >= 0 && dlon * dlon >= 0) by (nonlinear_arith);
    lemma_close_coordinates_neighbour_lines(q.lat, p.lat, radius);
    lemma_close_coordinates_neighbour_lines(q.lon, p.lon, radius);
}

/// A query is an exact radius search: it returns a point exactly when the
/// point is indexed and lies within the radius of the centre.
pub proof fn lemma_query_is_radius_search(
    points: Seq<Point>,
    radius: i64,
    center: Point,
    q: Point,
)
    ensures
        close_points(points, radius, center).contains(q) <==> points.contains(q) && q.within(
            center,
            radius,
        ),
{
    lemma_close_points_contains(points, radius, center, q);
    if q.within(center, radius) {
        lemma_within_neighbour_cells(center, q, radius);
    }
}

/// Every indexed point is returned by a query at itself, whenever the radius
/// is not negative.
pub proof fn lemma_indexed_point_is_close_to_itself(points: Seq<Point>, radius: i64, q: Point)
    requires
        points.contains(q),
        radius >= 0,
    ensures
        close_points(points, radius, q).contains(q),
{
    assert(q.within(q, radius)) by {
        assert(radius * radius >= 0) by (nonlinear_arith);
        assert(q.distance_squared(q) == 0) by (nonlinear_arith)
            requires
                q.distance_squared(q) == (q.lat - q.lat) * (q.lat - q.lat) + (q.lon - q.lon) * (
                q.lon - q.lon),
        ;
    }
    lemma_query_is_radius_search(points, radius, q, q);
}

/// An indexed point within the radius of the centre, whose cell is at most one
/// row and one column from the centre's, is returned by the query.
pub proof fn lemma_neighbour_within_radius_is_close(
    points: Seq<Point>,
    radius: i64,
    p: Point,
    q: Point,
)
    requires
        points.contains(q),
        q.within(p, radius),
        cell_of(p, radius).0 - 1 <= cell_of(q, radius).0 <= cell_of(p, radius).0 + 1,
        cell_of(p, radius).1 - 1 <= cell_of(q, radius).1 <= cell_of(p, radius).1 + 1,
    ensures
        close_points(points, radius, p).contains(q),
{
    lemma_close_points_contains(points, radius, p, q);
}

/// With a radius of zero only the centre itself is within reach: a query
/// returns the indexed copies of the centre and nothing else.
pub proof fn lemma_zero_radius_is_exact_match(points: Seq<Point>, center: Point, q: Point)
    ensures
        close_points(points, 0, center).contains(q) <==> points.contains(q) && q == center,
{
    lemma_query_is_radius_search(points, 0, center, q);
    let dlat = q.lat - center.lat;
    let dlon = q.lon - center.lon;
    assert(dlat * dlat + dlon * dlon <= 0 <==> dlat == 0 && dlon == 0) by (nonlinear_arith);
}

/// In an index of a single point, a cell holds that point if it is the
/// point's own cell and nothing otherwise.
pub proof fn lemma_cell_of_single_point(p: Point, radius: i64, row: int, col: int)
    ensures
        cell_points(seq![p], radius, row, col) == if cell_of(p, radius) == (row, col) {
            seq![p]
        } else {
            Seq::<Point>::empty()
        },
{
    let none = Seq::<Point>::empty();
    assert(seq![p] =~= none.push(p));
    none.lemma_filter_len(in_cell(radius, row, col));
    none.lemma_filter_push(p, in_cell(radius, row, col));
    assert(none.filter(in_cell(radius, row, col)) =~= none);
    assert(none.push(p) =~= seq![p]);
}

/// An index that holds a single point answers a query at that point with the
/// point alone, whenever the radius is not negative.
pub proof fn lemma_single_point_is_its_own_neighbourhood(p: Point, radius: i64)
    requires
        radius >= 0,
    ensures
        close_points(seq![p], radius, p) == seq![p],
{
    let none = Seq::<Point>::empty();
    let row = cell_of(p, radius).0;
    let col = cell_of(p, radius).1;
    assert(p.within(p, radius)) by {
        assert(radius * radius >= 0) by (nonlinear_arith);
        assert((p.lat - p.lat) * (p.lat - p.lat) + (p.lon - p.lon) * (p.lon - p.lon) == 0)
            by (nonlinear_arith);
    }
    assert forall|r: int, c: int|
        close_in_cell(seq![p], radius, p, r, c) == if (r, c) == (row, col) {
            seq![p]
        } else {
            none
        } by {
        lemma_cell_of_single_point(p, radius, r, c);
        none.lemma_filter_len(near(p, radius));
        assert(none.filter(near(p, radius)) =~= none);
        assert(seq![p] =~= none.push(p));
        none.lemma_filter_push(p, near(p, radius));
        assert(none.push(p) =~= seq![p]);
    }
    assert(close_in_row(seq![p], radius, p, row - 1) =~= none);
    assert(close_in_row(seq![p], radius, p, row) =~= seq![p]);
    assert(close_in_row(seq![p], radius, p, row + 1) =~= none);
    assert(close_points(seq![p], radius, p) =~= seq![p]);
}

} // verus!
