//! Points in fixed-point coordinates, their arithmetic and their means.

use crate::decimal_text::ascii_text;
use crate::decimal_text::coordinate_text;
use crate::decimal_text::push_coordinate;
use crate::json::CLOSE_BRACKET;
use crate::json::COMMA;
use crate::json::OPEN_BRACKET;
use crate::json::SPACE;
use vstd::arithmetic::div_mod::lemma_div_multiples_vanish;
use vstd::prelude::*;
use vstd::string::StringExecFns;
use vstd::std_specs::cmp::PartialEqSpecImpl;
use vstd::std_specs::ops::AddSpecImpl;
use vstd::std_specs::ops::DivSpecImpl;
use vstd::std_specs::ops::SubSpecImpl;

verus! {

/// Coordinate units in one degree: a coordinate counts billionths of a degree.
pub const UNITS_PER_DEGREE: i64 = 1_000_000_000;

/// Coordinate units in one millionth of a degree, the grain of point equality.
pub const UNITS_PER_MICRODEGREE: i64 = 1_000;

/// The quotient `a / d` rounded toward zero, for a non-zero divisor.
pub open spec fn div_toward_zero(a: int, d: int) -> int
    recommends
        d != 0,
{
    if a >= 0 {
        a / d
    } else {
        -((-a) / d)
    }
}

/// A position: latitude and longitude in coordinate units, on a flat plane.
#[derive(Clone, Copy, Debug)]
pub struct Point {
    pub lat: i64,
    pub lon: i64,
}

impl Point {
    pub fn new(lat: i64, lon: i64) -> (p: Self)
        ensures
            p.lat == lat,
            p.lon == lon,
    {
        Point { lat, lon }
    }

    /// The point's coordinates in whole millionths of a degree, the fraction
    /// cut off toward zero. Two points are equal when these agree.
    pub open spec fn quantized(self) -> (int, int) {
        (
            div_toward_zero(self.lat as int, UNITS_PER_MICRODEGREE as int),
            div_toward_zero(self.lon as int, UNITS_PER_MICRODEGREE as int),
        )
    }

    /// The key by which equal points are told: use it to hash or to group them.
    pub fn quantize(&self) -> (key: (i64, i64))
        ensures
            (key.0 as int, key.1 as int) == self.quantized(),
    {
        (self.lat / UNITS_PER_MICRODEGREE, self.lon / UNITS_PER_MICRODEGREE)
    }

    /// The square of the Euclidean distance between two points.
    pub open spec fn distance_squared(self, other: Point) -> int {
        (self.lat - other.lat) * (self.lat - other.lat) + (self.lon - other.lon) * (self.lon
            - other.lon)
    }

    /// Whether the Euclidean distance between two points is at most `radius`.
    /// No point is within a negative radius of any other.
    pub open spec fn within(self, other: Point, radius: i64) -> bool {
        radius >= 0 && self.distance_squared(other) <= radius * radius
    }

    pub fn is_within(&self, other: Point, radius: i64) -> (b: bool)
        ensures
            b == self.within(other, radius),
    {
        if radius < 0 {
            return false;
        }
        let r: i128 = radius as i128;
        let dlat: i128 = self.lat as i128 - other.lat as i128;
        let dlon: i128 = self.lon as i128 - other.lon as i128;
        if dlat > r || dlat < -r {
            assert(dlat * dlat > r * r) by (nonlinear_arith)
                requires
                    r >= 0,
                    dlat > r || dlat < -r,
            ;
            assert(dlon * dlon >= 0) by (nonlinear_arith);
            return false;
        }
        if dlon > r || dlon < -r {
            assert(dlon * dlon > r * r) by (nonlinear_arith)
                requires
                    r >= 0,
                    dlon > r || dlon < -r,
            ;
            assert(dlat * dlat >= 0) by (nonlinear_arith);
            return false;
        }
        assert(0 <= dlat * dlat <= 0x3fff_ffff_ffff_ffff_0000_0000_0000_0001) by (nonlinear_arith)
            requires
                -0x7fff_ffff_ffff_ffff <= dlat <= 0x7fff_ffff_ffff_ffff,
        ;
        assert(0 <= dlon * dlon <= 0x3fff_ffff_ffff_ffff_0000_0000_0000_0001) by (nonlinear_arith)
            requires
                -0x7fff_ffff_ffff_ffff <= dlon <= 0x7fff_ffff_ffff_ffff,
        ;
        assert(0 <= r * r <= 0x3fff_ffff_ffff_ffff_0000_0000_0000_0001) by (nonlinear_arith)
            requires
                0 <= r <= 0x7fff_ffff_ffff_ffff,
        ;
        dlat * dlat + dlon * dlon <= r * r
    }
}

/// The bytes of a point written as `[lat, lon]`, both in degrees.
pub open spec fn point_text(point: Point) -> Seq<u8> {
    seq![OPEN_BRACKET] + coordinate_text(point.lat) + seq![COMMA, SPACE] + coordinate_text(
        point.lon,
    ) + seq![CLOSE_BRACKET]
}

impl Point {
    /// The point written as `[lat, lon]`, both in degrees.
    pub fn to_text(&self) -> (text: String)
        ensures
            text@ == ascii_text(point_text(*self)),
    {
        proof {
            reveal_strlit("[");
            reveal_strlit(", ");
            reveal_strlit("]");
        }
        let mut text = String::new();
        text.append("[");
        push_coordinate(&mut text, self.lat);
        text.append(", ");
        push_coordinate(&mut text, self.lon);
        text.append("]");
        assert(text@ =~= ascii_text(point_text(*self)));
        text
    }
}

impl PartialEq for Point {
    /// Equality up to a millionth of a degree.
    fn eq(&self, other: &Self) -> (r: bool) {
        let a = self.quantize();
        let b = other.quantize();
        a.0 == b.0 && a.1 == b.1
    }
}

impl PartialEqSpecImpl for Point {
    open spec fn obeys_eq_spec() -> bool {
        true
    }

    open spec fn eq_spec(&self, other: &Self) -> bool {
        self.quantized() == other.quantized()
    }
}

impl Eq for Point {

}

/// Whether two points are equal, as `==` tells it: they are, if and only if
/// their coordinates agree in whole millionths of a degree.
pub fn same_place(p: Point, q: Point) -> (same: bool)
    ensures
        same == (p.quantized() == q.quantized()),
        same == (div_toward_zero(p.lat as int, 1_000) == div_toward_zero(q.lat as int, 1_000)
            && div_toward_zero(p.lon as int, 1_000) == div_toward_zero(q.lon as int, 1_000)),
{
    p == q
}

impl core::ops::Add for Point {
    type Output = Point;

    /// The componentwise sum.
    fn add(self, rhs: Point) -> (r: Point) {
        Point { lat: self.lat + rhs.lat, lon: self.lon + rhs.lon }
    }
}

impl AddSpecImpl for Point {
    open spec fn obeys_add_spec() -> bool {
        true
    }

    open spec fn add_req(self, rhs: Point) -> bool {
        &&& i64::MIN <= self.lat + rhs.lat <= i64::MAX
        &&& i64::MIN <= self.lon + rhs.lon <= i64::MAX
    }

    open spec fn add_spec(self, rhs: Point) -> Point {
        Point { lat: (self.lat + rhs.lat) as i64, lon: (self.lon + rhs.lon) as i64 }
    }
}

impl core::ops::Sub for Point {
    type Output = Point;

    /// The componentwise difference.
    fn sub(self, rhs: Point) -> (r: Point) {
        Point { lat: self.lat - rhs.lat, lon: self.lon - rhs.lon }
    }
}

impl SubSpecImpl for Point {
    open spec fn obeys_sub_spec() -> bool {
        true
    }

    open spec fn sub_req(self, rhs: Point) -> bool {
        &&& i64::MIN <= self.lat - rhs.lat <= i64::MAX
        &&& i64::MIN <= self.lon - rhs.lon <= i64::MAX
    }

    open spec fn sub_spec(self, rhs: Point) -> Point {
        Point { lat: (self.lat - rhs.lat) as i64, lon: (self.lon - rhs.lon) as i64 }
    }
}

impl core::ops::Div<i64> for Point {
    type Output = Point;

    /// Both components divided by a scalar, each quotient rounded toward zero.
    fn div(self, rhs: i64) -> (r: Point) {
        Point { lat: self.lat / rhs, lon: self.lon / rhs }
    }
}

impl DivSpecImpl<i64> for Point {
    open spec fn obeys_div_spec() -> bool {
        true
    }

    open spec fn div_req(self, rhs: i64) -> bool {
        &&& rhs != 0
        &&& rhs == -1 ==> self.lat != i64::MIN && self.lon != i64::MIN
    }

    open spec fn div_spec(self, rhs: i64) -> Point {
        Point {
            lat: div_toward_zero(self.lat as int, rhs as int) as i64,
            lon: div_toward_zero(self.lon as int, rhs as int) as i64,
        }
    }
}

/// The sum of the latitudes of a sequence of points.
pub open spec fn lat_sum(points: Seq<Point>) -> int
    decreases points.len(),
{
    if points.len() == 0 {
        0
    } else {
        lat_sum(points.drop_last()) + points.last().lat
    }
}

/// The sum of the longitudes of a sequence of points.
pub open spec fn lon_sum(points: Seq<Point>) -> int
    decreases points.len(),
{
    if points.len() == 0 {
        0
    } else {
        lon_sum(points.drop_last()) + points.last().lon
    }
}

/// The arithmetic mean of a non-empty sequence of points: the sum of each
/// component divided by the number of points, rounded toward zero.
pub open spec fn mean(points: Seq<Point>) -> Point
    recommends
        points.len() > 0,
{
    Point {
        lat: div_toward_zero(lat_sum(points), points.len() as int) as i64,
        lon: div_toward_zero(lon_sum(points), points.len() as int) as i64,
    }
}

/// A quotient rounded toward zero is no farther from zero than the bounds of
/// what was averaged.
pub proof fn lemma_quotient_bounds(sum: int, n: int, low: int, high: int)
    requires
        n > 0,
        low <= 0 <= high,
        n * low <= sum <= n * high,
    ensures
        low <= div_toward_zero(sum, n) <= high,
{
    if sum >= 0 {
        assert(0 <= sum / n <= high) by (nonlinear_arith)
            requires
                n > 0,
                0 <= sum <= n * high,
        ;
    } else {
        assert(n * (-low) == -(n * low)) by (nonlinear_arith);
        assert(0 <= (-sum) / n <= -low) by (nonlinear_arith)
            requires
                n > 0,
                0 <= -sum <= n * (-low),
        ;
    }
}

/// Each component sum of `n` points lies between `n` times the least and `n`
/// times the greatest coordinate value.
pub proof fn lemma_sum_bounds(points: Seq<Point>)
    ensures
        points.len() * i64::MIN <= lat_sum(points) <= points.len() * i64::MAX,
        points.len() * i64::MIN <= lon_sum(points) <= points.len() * i64::MAX,
    decreases points.len(),
{
    if points.len() > 0 {
        lemma_sum_bounds(points.drop_last());
    }
}

/// The components of a mean are the exact quotients: the mean of coordinates
/// is itself a coordinate, so nothing is lost when it is stored in a point.
pub proof fn lemma_mean_exact(points: Seq<Point>)
    requires
        points.len() > 0,
    ensures
        mean(points).lat == div_toward_zero(lat_sum(points), points.len() as int),
        mean(points).lon == div_toward_zero(lon_sum(points), points.len() as int),
{
    lemma_sum_bounds(points);
    let n = points.len() as int;
    assert(n * (i64::MIN as int) == points.len() * i64::MIN);
    assert(n * (i64::MAX as int) == points.len() * i64::MAX);
    lemma_quotient_bounds(lat_sum(points), n, i64::MIN as int, i64::MAX as int);
    lemma_quotient_bounds(lon_sum(points), n, i64::MIN as int, i64::MAX as int);
}

/// The mean of one point is that point.
pub proof fn lemma_mean_of_one(p: Point)
    ensures
        mean(seq![p]) == p,
{
    let s = seq![p];
    assert(s.drop_last() =~= Seq::<Point>::empty());
    assert(lat_sum(s) == p.lat) by {
        reveal_with_fuel(lat_sum, 2);
    }
    assert(lon_sum(s) == p.lon) by {
        reveal_with_fuel(lon_sum, 2);
    }
}

/// The component sums of three points.
pub proof fn lemma_sum_of_three(a: Point, b: Point, c: Point)
    ensures
        lat_sum(seq![a, b, c]) == a.lat + b.lat + c.lat,
        lon_sum(seq![a, b, c]) == a.lon + b.lon + c.lon,
{
    let s = seq![a, b, c];
    assert(s.drop_last() =~= seq![a, b]);
    assert(seq![a, b].drop_last() =~= seq![a]);
    assert(seq![a].drop_last() =~= Seq::<Point>::empty());
    reveal_with_fuel(lat_sum, 4);
    reveal_with_fuel(lon_sum, 4);
}

/// The mean of the points of a vector, or `None` for an empty vector.
pub fn mean_of(points: &Vec<Point>) -> (m: Option<Point>)
    ensures
        points@.len() == 0 ==> m is None,
        points@.len() > 0 ==> m == Some(mean(points@)),
{
    let n = points.len();
    if n == 0 {
        return None;
    }
    let mut lat: i128 = 0;
    let mut lon: i128 = 0;
    let mut i: usize = 0;
    while i < n
        invariant
            i <= n,
            n == points@.len(),
            lat == lat_sum(points@.take(i as int)),
            lon == lon_sum(points@.take(i as int)),
        decreases n - i,
    {
        let p = points[i];
        proof {
            let before = points@.take(i as int);
            let after = points@.take(i + 1);
            assert(after.drop_last() =~= before);
            lemma_sum_bounds(before);
            lemma_sum_bounds(after);
        }
        lat = lat + p.lat as i128;
        lon = lon + p.lon as i128;
        i += 1;
    }
    proof {
        assert(points@.take(n as int) =~= points@);
        lemma_mean_exact(points@);
    }
    Some(Point { lat: (lat / n as i128) as i64, lon: (lon / n as i128) as i64 })
}

/// The mean of three points.
pub fn mean_of_three(a: Point, b: Point, c: Point) -> (m: Point)
    ensures
        m == mean(seq![a, b, c]),
        m.lat == div_toward_zero(a.lat + b.lat + c.lat, 3),
        m.lon == div_toward_zero(a.lon + b.lon + c.lon, 3),
{
    let lat: i128 = a.lat as i128 + b.lat as i128 + c.lat as i128;
    let lon: i128 = a.lon as i128 + b.lon as i128 + c.lon as i128;
    proof {
        lemma_sum_of_three(a, b, c);
        lemma_mean_exact(seq![a, b, c]);
    }
    Point { lat: (lat / 3) as i64, lon: (lon / 3) as i64 }
}

/// Taking one point out of a sequence takes its coordinates out of the sums.
pub proof fn lemma_sum_without_one(points: Seq<Point>, i: int)
    requires
        0 <= i < points.len(),
    ensures
        lat_sum(points) == lat_sum(points.remove(i)) + points[i].lat,
        lon_sum(points) == lon_sum(points.remove(i)) + points[i].lon,
    decreases points.len(),
{
    if i == points.len() - 1 {
        assert(points.remove(i) =~= points.drop_last());
    } else {
        let shorter = points.remove(i);
        assert(shorter.drop_last() =~= points.drop_last().remove(i));
        assert(shorter.last() == points.last());
        lemma_sum_without_one(points.drop_last(), i);
    }
}

/// The sums, and so the mean, of a sequence of points do not depend on the
/// order of the points.
pub proof fn lemma_sums_ignore_order(a: Seq<Point>, b: Seq<Point>)
    requires
        a.to_multiset() == b.to_multiset(),
    ensures
        a.len() == b.len(),
        lat_sum(a) == lat_sum(b),
        lon_sum(a) == lon_sum(b),
        mean(a) == mean(b),
    decreases a.len(),
{
    broadcast use vstd::seq_lib::group_to_multiset_ensures;

    a.to_multiset_ensures();
    b.to_multiset_ensures();
    if a.len() > 0 {
        let x = a.last();
        let shorter_a = a.drop_last();
        assert(a =~= shorter_a.push(x));
        assert(a.to_multiset() =~= shorter_a.to_multiset().insert(x));
        assert(b.to_multiset().count(x) > 0);
        assert(b.contains(x));
        let j = b.lemma_contains_to_index(x);
        let shorter_b = b.remove(j);
        assert(shorter_b.to_multiset() =~= b.to_multiset().remove(x));
        assert(shorter_a.to_multiset() =~= shorter_b.to_multiset());
        lemma_sums_ignore_order(shorter_a, shorter_b);
        lemma_sum_without_one(b, j);
    }
}

/// The mean of copies of one point is that point.
pub proof fn lemma_mean_of_copies(points: Seq<Point>, p: Point)
    requires
        points.len() > 0,
        forall|i: int| 0 <= i < points.len() ==> points[i] == p,
    ensures
        mean(points) == p,
{
    lemma_sum_of_copies(points, p);
    let n = points.len() as int;
    lemma_quotient_of_multiple(p.lat as int, n);
    lemma_quotient_of_multiple(p.lon as int, n);
}

/// The component sums of `n` copies of one point are `n` times its
/// coordinates.
pub proof fn lemma_sum_of_copies(points: Seq<Point>, p: Point)
    requires
        forall|i: int| 0 <= i < points.len() ==> points[i] == p,
    ensures
        lat_sum(points) == points.len() * p.lat,
        lon_sum(points) == points.len() * p.lon,
    decreases points.len(),
{
    if points.len() > 0 {
        let fewer = points.drop_last();
        assert forall|i: int| 0 <= i < fewer.len() implies fewer[i] == p by {
            assert(fewer[i] == points[i]);
        }
        lemma_sum_of_copies(fewer, p);
        assert(points.last() == p);
        assert(points.len() * p.lat == fewer.len() * p.lat + p.lat) by (nonlinear_arith)
            requires
                points.len() == fewer.len() + 1,
        ;
        assert(points.len() * p.lon == fewer.len() * p.lon + p.lon) by (nonlinear_arith)
            requires
                points.len() == fewer.len() + 1,
        ;
    }
}

/// A multiple of the divisor divides without remainder.
pub proof fn lemma_quotient_of_multiple(x: int, n: int)
    requires
        n > 0,
    ensures
        div_toward_zero(n * x, n) == x,
{
    if x >= 0 {
        assert(n * x >= 0) by (nonlinear_arith)
            requires
                n > 0,
                x >= 0,
        ;
        lemma_div_multiples_vanish(x, n);
    } else {
        assert(n * x < 0) by (nonlinear_arith)
            requires
                n > 0,
                x < 0,
        ;
        assert(-(n * x) == n * (-x)) by (nonlinear_arith);
        lemma_div_multiples_vanish(-x, n);
    }
}

} // verus!
