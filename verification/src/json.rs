//! Tracks written as arrays of coordinate pairs, for a map to draw.

use crate::decimal_text::ascii_text;
use crate::decimal_text::coordinate_text;
use crate::decimal_text::push_coordinate;
use crate::path::Path;
use crate::path::Point;
use vstd::prelude::*;
use vstd::string::StringExecFns;

verus! {

/// The byte `[`.
pub const OPEN_BRACKET: u8 = 0x5b;

/// The byte `]`.
pub const CLOSE_BRACKET: u8 = 0x5d;

/// The byte `,`.
pub const COMMA: u8 = 0x2c;

/// The byte that ends a line.
pub const LINE_FEED: u8 = 0x0a;

/// The byte of a blank.
pub const SPACE: u8 = 0x20;

/// A point as a pair: `[lat,lon]`, both in degrees.
pub open spec fn point_json(point: Point) -> Seq<u8> {
    seq![OPEN_BRACKET] + coordinate_text(point.lat) + seq![COMMA] + coordinate_text(point.lon)
        + seq![CLOSE_BRACKET]
}

/// The pairs of a sequence of points, with a comma between one and the next.
pub open spec fn points_json(points: Seq<Point>) -> Seq<u8>
    decreases points.len(),
{
    if points.len() == 0 {
        Seq::empty()
    } else if points.len() == 1 {
        point_json(points[0])
    } else {
        points_json(points.drop_last()) + seq![COMMA] + point_json(points.last())
    }
}

/// A track as an array of pairs.
pub open spec fn path_json(points: Seq<Point>) -> Seq<u8> {
    seq![OPEN_BRACKET] + points_json(points) + seq![CLOSE_BRACKET]
}

/// The arrays of a sequence of tracks. The first stands alone; each one after
/// it follows a comma and is followed by a line break and two blanks.
pub open spec fn joined_paths_json(paths: Seq<Path>) -> Seq<u8>
    decreases paths.len(),
{
    if paths.len() == 0 {
        Seq::empty()
    } else if paths.len() == 1 {
        path_json(paths[0]@)
    } else {
        joined_paths_json(paths.drop_last()) + seq![COMMA] + path_json(paths.last()@)
            + seq![LINE_FEED, SPACE, SPACE]
    }
}

/// A sequence of tracks as an array of arrays.
pub open spec fn paths_json(paths: Seq<Path>) -> Seq<u8> {
    seq![OPEN_BRACKET, LINE_FEED, SPACE, SPACE] + joined_paths_json(paths) + seq![CLOSE_BRACKET]
}

/// Appends a point as a pair to a string.
fn push_point_json(out: &mut String, point: Point)
    ensures
        final(out)@ == old(out)@ + ascii_text(point_json(point)),
{
    proof {
        reveal_strlit("[");
        reveal_strlit(",");
        reveal_strlit("]");
    }
    out.append("[");
    push_coordinate(out, point.lat);
    out.append(",");
    push_coordinate(out, point.lon);
    out.append("]");
    assert(out@ =~= old(out)@ + ascii_text(point_json(point)));
}

/// Appends a track as an array of pairs to a string.
pub fn push_path_json(out: &mut String, points: &Vec<Point>)
    ensures
        final(out)@ == old(out)@ + ascii_text(path_json(points@)),
{
    proof {
        reveal_strlit("[");
        reveal_strlit(",");
        reveal_strlit("]");
    }
    out.append("[");
    let n = points.len();
    let mut i: usize = 0;
    while i < n
        invariant
            i <= n,
            n == points@.len(),
            out@ == old(out)@ + ascii_text(seq![OPEN_BRACKET] + points_json(points@.take(i as int))),
        decreases n - i,
    {
        let ghost before = out@;
        if i > 0 {
            proof {
                reveal_strlit(",");
            }
            out.append(",");
        }
        push_point_json(out, points[i]);
        proof {
            let done = points@.take(i as int);
            let next = points@.take(i + 1);
            assert(next.drop_last() =~= done);
            assert(next.last() == points@[i as int]);
            if i > 0 {
                assert(points_json(next) == points_json(done) + seq![COMMA] + point_json(
                    points@[i as int],
                ));
            } else {
                assert(next[0] == points@[0]);
                assert(points_json(done) =~= Seq::<u8>::empty());
            }
            assert(out@ =~= old(out)@ + ascii_text(seq![OPEN_BRACKET] + points_json(next)));
        }
        i += 1;
    }
    out.append("]");
    proof {
        assert(points@.take(n as int) =~= points@);
        assert(out@ =~= old(out)@ + ascii_text(path_json(points@)));
    }
}

/// A sequence of tracks as an array of arrays, each track an array of
/// `[lat,lon]` pairs in the order of its points.
pub fn as_json_arrays(paths: &[Path]) -> (json: String)
    ensures
        json@ == ascii_text(paths_json(paths@)),
{
    proof {
        reveal_strlit("[\n  ");
        reveal_strlit(",");
        reveal_strlit("\n  ");
        reveal_strlit("]");
    }
    let mut json = String::new();
    json.append("[\n  ");
    let n = paths.len();
    let mut i: usize = 0;
    while i < n
        invariant
            i <= n,
            n == paths@.len(),
            json@ == ascii_text(
                seq![OPEN_BRACKET, LINE_FEED, SPACE, SPACE] + joined_paths_json(
                    paths@.take(i as int),
                ),
            ),
        decreases n - i,
    {
        proof {
            reveal_strlit(",");
            reveal_strlit("\n  ");
        }
        if i > 0 {
            json.append(",");
        }
        push_path_json(&mut json, &paths[i].points);
        if i > 0 {
            json.append("\n  ");
        }
        proof {
            let done = paths@.take(i as int);
            let next = paths@.take(i + 1);
            assert(next.drop_last() =~= done);
            assert(next.last() == paths@[i as int]);
            if i == 0 {
                assert(next[0] == paths@[0]);
                assert(joined_paths_json(done) =~= Seq::<u8>::empty());
            }
            assert(json@ =~= ascii_text(
                seq![OPEN_BRACKET, LINE_FEED, SPACE, SPACE] + joined_paths_json(next),
            ));
        }
        i += 1;
    }
    json.append("]");
    proof {
        assert(paths@.take(n as int) =~= paths@);
        assert(json@ =~= ascii_text(paths_json(paths@)));
    }
    json
}

} // verus!
