//! The consensus at a point stays near the point.
//!
//! A track is combined with points that lie within the radius of its own
//! points only. Their mean lies within the radius too, but for the rounding of
//! its coordinates: combining moves no point farther than the radius and two
//! units.

use crate::index::close_points;
use crate::index::lemma_query_is_radius_search;
use crate::point::div_toward_zero;
use crate::point::lat_sum;
use crate::point::lemma_mean_exact;
use crate::point::lon_sum;
use crate::point::mean;
use crate::point::Point;
use vstd::arithmetic::div_mod::lemma_fundamental_div_mod;
use vstd::arithmetic::div_mod::lemma_mod_pos_bound;
use vstd::prelude::*;

verus! {

/// The sum of the squared distances of the points from `center`.
pub open spec fn square_sum(points: Seq<Point>, center: Point) -> int
    decreases points.len(),
{
    if points.len() == 0 {
        0
    } else {
        square_sum(points.drop_last(), center) + points.last().distance_squared(center)
    }
}

/// The squared distances of `n` points within the radius sum to at most `n`
/// times the square of the radius.
pub proof fn lemma_square_sum_within(points: Seq<Point>, center: Point, radius: i64)
    requires
        forall|i: int| 0 <= i < points.len() ==> (#[trigger] points[i]).within(center, radius),
    ensures
        0 <= square_sum(points, center) <= points.len() * (radius * radius),
    decreases points.len(),
{
    let square = radius * radius;
    if points.len() == 0 {
        assert(0 * square == 0);
    } else {
        let fewer = points.drop_last();
        assert forall|i: int| 0 <= i < fewer.len() implies (#[trigger] fewer[i]).within(
            center,
            radius,
        ) by {
            assert(fewer[i] == points[i]);
        }
        lemma_square_sum_within(fewer, center, radius);
        let last = points[points.len() - 1];
        assert(last.within(center, radius));
        let a = last.lat - center.lat;
        let b = last.lon - center.lon;
        assert(a * a + b * b >= 0) by (nonlinear_arith);
        assert(points.len() * square == fewer.len() * square + square) by (nonlinear_arith)
            requires
                points.len() == fewer.len() + 1,
        ;
    }
}

/// The offset of the sum of `n` points from `n` times the centre is no longer
/// than the squared distances allow: its square is at most `n` times their
/// sum.
pub proof fn lemma_offset_of_sum(points: Seq<Point>, center: Point)
    ensures
        square_sum(points, center) >= 0,
        ({
            let n = points.len() as int;
            let sx = lat_sum(points) - n * center.lat;
            let sy = lon_sum(points) - n * center.lon;
            sx * sx + sy * sy <= n * square_sum(points, center)
        }),
    decreases points.len(),
{
    let n1 = points.len() as int;
    if points.len() == 0 {
        assert(n1 * center.lat == 0 && n1 * center.lon == 0) by (nonlinear_arith)
            requires
                n1 == 0,
        ;
        assert(0int * 0int + 0int * 0int <= n1 * 0) by (nonlinear_arith);
    } else {
        let fewer = points.drop_last();
        lemma_offset_of_sum(fewer, center);
        let n = fewer.len() as int;
        let sx = lat_sum(fewer) - n * center.lat;
        let sy = lon_sum(fewer) - n * center.lon;
        let q = square_sum(fewer, center);
        let x = points.last().lat - center.lat;
        let y = points.last().lon - center.lon;
        let t = sx * x + sy * y;
        let w = x * x + y * y;
        let h = sx * sx + sy * sy;
        assert(n1 * center.lat == n * center.lat + center.lat) by (nonlinear_arith)
            requires
                n1 == n + 1,
        ;
        assert(n1 * center.lon == n * center.lon + center.lon) by (nonlinear_arith)
            requires
                n1 == n + 1,
        ;
        assert(lat_sum(points) - n1 * center.lat == sx + x);
        assert(lon_sum(points) - n1 * center.lon == sy + y);
        assert(square_sum(points, center) == q + w);
        assert(w >= 0) by (nonlinear_arith)
            requires
                w == x * x + y * y,
        ;
        if n == 0 {
            assert(n * center.lat == 0 && n * center.lon == 0) by (nonlinear_arith)
                requires
                    n == 0,
            ;
            assert(fewer =~= Seq::<Point>::empty());
            assert(sx == 0 && sy == 0);
            assert(t == 0) by (nonlinear_arith)
                requires
                    t == sx * x + sy * y,
                    sx == 0,
                    sy == 0,
            ;
            assert(h == 0) by (nonlinear_arith)
                requires
                    h == sx * sx + sy * sy,
                    sx == 0,
                    sy == 0,
            ;
        } else {
            let u = sx - n * x;
            let v = sy - n * y;
            assert(u * u >= 0 && v * v >= 0) by (nonlinear_arith);
            assert(2 * n * (sx * x) <= sx * sx + n * n * (x * x)) by (nonlinear_arith)
                requires
                    u == sx - n * x,
                    u * u >= 0,
            ;
            assert(2 * n * (sy * y) <= sy * sy + n * n * (y * y)) by (nonlinear_arith)
                requires
                    v == sy - n * y,
                    v * v >= 0,
            ;
            assert(n * (2 * t) <= n * (q + n * w)) by (nonlinear_arith)
                requires
                    2 * n * (sx * x) <= sx * sx + n * n * (x * x),
                    2 * n * (sy * y) <= sy * sy + n * n * (y * y),
                    t == sx * x + sy * y,
                    w == x * x + y * y,
                    h == sx * sx + sy * sy,
                    h <= n * q,
            ;
            assert(2 * t <= q + n * w) by (nonlinear_arith)
                requires
                    n > 0,
                    n * (2 * t) <= n * (q + n * w),
            ;
        }
        assert((sx + x) * (sx + x) + (sy + y) * (sy + y) == h + 2 * t + w) by (nonlinear_arith)
            requires
                t == sx * x + sy * y,
                w == x * x + y * y,
                h == sx * sx + sy * sy,
        ;
        assert(n1 * (q + w) == n * q + q + n * w + w) by (nonlinear_arith)
            requires
                n1 == n + 1,
        ;
    }
}

/// A quotient rounded toward zero, times the divisor, is less than the
/// divisor away from what was divided.
pub proof fn lemma_quotient_is_near(sum: int, n: int)
    requires
        n > 0,
    ensures
        -(n - 1) <= sum - n * div_toward_zero(sum, n) <= n - 1,
{
    if sum >= 0 {
        lemma_fundamental_div_mod(sum, n);
        lemma_mod_pos_bound(sum, n);
    } else {
        lemma_fundamental_div_mod(-sum, n);
        lemma_mod_pos_bound(-sum, n);
        let k = (-sum) / n;
        assert(n * (-k) == -(n * k)) by (nonlinear_arith);
    }
}

/// The mean of points within the radius of a centre lies within the radius
/// and two units of it.
pub proof fn lemma_mean_stays_near(points: Seq<Point>, center: Point, radius: i64)
    requires
        points.len() > 0,
        forall|i: int| 0 <= i < points.len() ==> (#[trigger] points[i]).within(center, radius),
    ensures
        mean(points).distance_squared(center) <= (radius + 2) * (radius + 2),
{
    let n = points.len() as int;
    let r = radius as int;
    let m = mean(points);
    assert(points[0].within(center, radius));
    lemma_square_sum_within(points, center, radius);
    lemma_offset_of_sum(points, center);
    lemma_mean_exact(points);
    lemma_quotient_is_near(lat_sum(points), n);
    lemma_quotient_is_near(lon_sum(points), n);
    let q = square_sum(points, center);
    // The offsets of the sums, of the rounding, and of the mean.
    let sx = lat_sum(points) - n * center.lat;
    let sy = lon_sum(points) - n * center.lon;
    let ax = n * m.lat - lat_sum(points);
    let ay = n * m.lon - lon_sum(points);
    let ex = m.lat - center.lat;
    let ey = m.lon - center.lon;
    assert(n * ex == ax + sx) by (nonlinear_arith)
        requires
            ex == m.lat - center.lat,
            ax == n * m.lat - lat_sum(points),
            sx == lat_sum(points) - n * center.lat,
    ;
    assert(n * ey == ay + sy) by (nonlinear_arith)
        requires
            ey == m.lon - center.lon,
            ay == n * m.lon - lon_sum(points),
            sy == lon_sum(points) - n * center.lon,
    ;
    // The sums lie within `n` times the radius.
    let reach = n * r;
    assert(n * q <= reach * reach) by (nonlinear_arith)
        requires
            n > 0,
            q <= n * (r * r),
            reach == n * r,
    ;
    assert(sx * sx >= 0 && sy * sy >= 0) by (nonlinear_arith);
    assert(reach >= 0) by (nonlinear_arith)
        requires
            reach == n * r,
            n > 0,
            r >= 0,
    ;
    assert(-reach <= sx <= reach) by (nonlinear_arith)
        requires
            reach >= 0,
            sx * sx <= reach * reach,
    ;
    assert(-reach <= sy <= reach) by (nonlinear_arith)
        requires
            reach >= 0,
            sy * sy <= reach * reach,
    ;
    // The rounding adds less than `n` to each.
    assert(2 * (ax * sx) <= 2 * (n * reach)) by (nonlinear_arith)
        requires
            -n <= ax <= n,
            -reach <= sx <= reach,
            n > 0,
            reach >= 0,
    ;
    assert(2 * (ay * sy) <= 2 * (n * reach)) by (nonlinear_arith)
        requires
            -n <= ay <= n,
            -reach <= sy <= reach,
            n > 0,
            reach >= 0,
    ;
    assert(ax * ax <= n * n && ay * ay <= n * n) by (nonlinear_arith)
        requires
            -n <= ax <= n,
            -n <= ay <= n,
    ;
    let moved = (ax + sx) * (ax + sx) + (ay + sy) * (ay + sy);
    assert(moved == (sx * sx + sy * sy) + 2 * (ax * sx) + 2 * (ay * sy) + ax * ax + ay * ay)
        by (nonlinear_arith)
        requires
            moved == (ax + sx) * (ax + sx) + (ay + sy) * (ay + sy),
    ;
    assert((reach + 2 * n) * (reach + 2 * n) == reach * reach + 4 * (n * reach) + 4 * (n * n))
        by (nonlinear_arith);
    assert(n * n >= 0) by (nonlinear_arith);
    assert(moved <= (reach + 2 * n) * (reach + 2 * n));
    // Divided by the square of `n`, this is the claim.
    let far = ex * ex + ey * ey;
    let bound = (r + 2) * (r + 2);
    assert(moved == (n * n) * far) by (nonlinear_arith)
        requires
            moved == (ax + sx) * (ax + sx) + (ay + sy) * (ay + sy),
            n * ex == ax + sx,
            n * ey == ay + sy,
            far == ex * ex + ey * ey,
    ;
    assert((reach + 2 * n) * (reach + 2 * n) == (n * n) * bound) by (nonlinear_arith)
        requires
            reach == n * r,
            bound == (r + 2) * (r + 2),
    ;
    assert(far <= bound) by (nonlinear_arith)
        requires
            n > 0,
            (n * n) * far <= (n * n) * bound,
    ;
}

/// The consensus at a point lies within the radius and two units of the
/// point: combining moves no point of a track farther than that.
pub proof fn lemma_consensus_stays_near(points: Seq<Point>, radius: i64, center: Point)
    requires
        close_points(points, radius, center).len() > 0,
    ensures
        mean(close_points(points, radius, center)).distance_squared(center) <= (radius + 2) * (
        radius + 2),
{
    let close = close_points(points, radius, center);
    assert forall|i: int| 0 <= i < close.len() implies (#[trigger] close[i]).within(
        center,
        radius,
    ) by {
        assert(close.contains(close[i]));
        lemma_query_is_radius_search(points, radius, center, close[i]);
    }
    lemma_mean_stays_near(close, center, radius);
}

} // verus!
