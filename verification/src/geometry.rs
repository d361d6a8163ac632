//! Points, wires and labels of a schematic sheet.
//!
//! Coordinates are whole nanometres.
use vstd::prelude::*;

verus! {

/// A position on a sheet, in nanometres.
#[derive(Clone, Copy, PartialEq, Eq, Structural, Debug)]
pub struct Point {
    pub x: i64,
    pub y: i64,
}

/// A wire segment between two points.
pub struct Wire {
    pub start: Point,
    pub end: Point,
    pub uuid: Option<String>,
}

/// A label that names a net at a point.
pub struct Label {
    pub net: String,
    pub at: Point,
    pub kind: String,
}

/// The distance of two numbers.
pub open spec fn gap(a: int, b: int) -> int {
    if a >= b {
        a - b
    } else {
        b - a
    }
}

/// The lesser of two numbers.
pub open spec fn lesser(a: int, b: int) -> int {
    if a <= b {
        a
    } else {
        b
    }
}

/// The greater of two numbers.
pub open spec fn greater(a: int, b: int) -> int {
    if a >= b {
        a
    } else {
        b
    }
}

/// Two points coincide when both coordinates differ by less than the
/// tolerance.
pub open spec fn coincident(a: Point, b: Point, tolerance: int) -> bool {
    gap(a.x as int, b.x as int) < tolerance && gap(a.y as int, b.y as int) < tolerance
}

/// A point lies on a horizontal or vertical segment, its ends included. No
/// point lies on a segment that runs at another angle.
pub open spec fn on_segment(p: Point, a: Point, b: Point, tolerance: int) -> bool {
    if gap(a.x as int, b.x as int) < tolerance {
        &&& gap(p.x as int, a.x as int) < tolerance
        &&& lesser(a.y as int, b.y as int) - tolerance < p.y < greater(a.y as int, b.y as int)
            + tolerance
    } else {
        &&& gap(a.y as int, b.y as int) < tolerance
        &&& gap(p.y as int, a.y as int) < tolerance
        &&& lesser(a.x as int, b.x as int) - tolerance < p.x < greater(a.x as int, b.x as int)
            + tolerance
    }
}

/// Whether two numbers differ by less than the tolerance.
pub fn close(a: i64, b: i64, tolerance: u64) -> (r: bool)
    ensures
        r == (gap(a as int, b as int) < tolerance),
{
    let d: i128 = a as i128 - b as i128;
    let t: i128 = tolerance as i128;
    d < t && -t < d
}

/// Whether `p` lies between `a` and `b` or less than the tolerance beyond.
fn spanned(p: i64, a: i64, b: i64, tolerance: u64) -> (r: bool)
    ensures
        r == (lesser(a as int, b as int) - tolerance < p < greater(a as int, b as int) + tolerance),
{
    let t: i128 = tolerance as i128;
    let low: i128 = if a <= b { a as i128 } else { b as i128 };
    let high: i128 = if a >= b { a as i128 } else { b as i128 };
    low - t < p as i128 && (p as i128) < high + t
}

/// Whether two points coincide.
pub fn points_coincident(a: Point, b: Point, tolerance: u64) -> (r: bool)
    ensures
        r == coincident(a, b, tolerance as int),
{
    close(a.x, b.x, tolerance) && close(a.y, b.y, tolerance)
}

/// Whether a point lies on a segment.
pub fn point_on_segment(p: Point, a: Point, b: Point, tolerance: u64) -> (r: bool)
    ensures
        r == on_segment(p, a, b, tolerance as int),
{
    if close(a.x, b.x, tolerance) {
        close(p.x, a.x, tolerance) && spanned(p.y, a.y, b.y, tolerance)
    } else {
        close(a.y, b.y, tolerance) && close(p.y, a.y, tolerance) && spanned(
            p.x,
            a.x,
            b.x,
            tolerance,
        )
    }
}

/// The whole micrometre nearest to a number of nanometres; halves round away
/// from zero.
pub open spec fn nearest_micrometre(nm: int) -> int {
    if nm >= 0 {
        (nm + 500) / 1000
    } else {
        -((500 - nm) / 1000)
    }
}

fn micrometre(nm: i64) -> (r: i64)
    ensures
        r == nearest_micrometre(nm as int),
{
    if nm >= 0 {
        let q: u64 = (nm as u64 + 500) / 1000;
        q as i64
    } else {
        let m: u64 = (-(nm + 1)) as u64 + 1;
        let q: u64 = (m + 500) / 1000;
        -(q as i64)
    }
}

/// The key under which a connectivity graph keeps a point.
pub open spec fn key_of(p: Point) -> (i64, i64) {
    (nearest_micrometre(p.x as int) as i64, nearest_micrometre(p.y as int) as i64)
}

/// The key under which a connectivity graph keeps a point: both coordinates
/// rounded to micrometres.
pub fn pt_key(p: Point) -> (k: (i64, i64))
    ensures
        k == key_of(p),
        k.0 == nearest_micrometre(p.x as int),
        k.1 == nearest_micrometre(p.y as int),
{
    (micrometre(p.x), micrometre(p.y))
}

/// Whether two keys are the same.
pub fn same_key(a: (i64, i64), b: (i64, i64)) -> (r: bool)
    ensures
        r == (a == b),
{
    a.0 == b.0 && a.1 == b.1
}

/// Keys are micrometres: a coordinate of a key is at most half a micrometre from
/// that of the point, so points that share a key are within a micrometre of each
/// other, and points on the same spot share their key.
pub proof fn law_key_is_nearest(p: Point, q: Point)
    ensures
        -500 <= 1000 * key_of(p).0 - p.x <= 500,
        -500 <= 1000 * key_of(p).1 - p.y <= 500,
        key_of(p) == key_of(q) ==> -1000 <= p.x - q.x <= 1000 && -1000 <= p.y - q.y <= 1000,
        p == q ==> key_of(p) == key_of(q),
        p.x % 1000 == 0 && p.y % 1000 == 0 ==> 1000 * key_of(p).0 == p.x && 1000 * key_of(p).1
            == p.y,
{
    assert(-0x8000_0000_0000_0000 <= nearest_micrometre(p.x as int) <= 0x7fff_ffff_ffff_ffff);
    assert(-0x8000_0000_0000_0000 <= nearest_micrometre(p.y as int) <= 0x7fff_ffff_ffff_ffff);
    assert(-0x8000_0000_0000_0000 <= nearest_micrometre(q.x as int) <= 0x7fff_ffff_ffff_ffff);
    assert(-0x8000_0000_0000_0000 <= nearest_micrometre(q.y as int) <= 0x7fff_ffff_ffff_ffff);
}

/// A point lies on a wire wherever the wire passes through it, at its ends and
/// between them, and no point lies on a wire that is as far from it as the
/// tolerance, or on one that is slanted by as much.
pub proof fn law_point_on_wire(p: Point, a: Point, b: Point, t: int)
    requires
        t > 0,
    ensures
        a.y == b.y && p.y == a.y && (a.x <= p.x <= b.x || b.x <= p.x <= a.x) ==> on_segment(
            p,
            a,
            b,
            t,
        ),
        a.x == b.x && p.x == a.x && (a.y <= p.y <= b.y || b.y <= p.y <= a.y) ==> on_segment(
            p,
            a,
            b,
            t,
        ),
        on_segment(p, a, b, t) ==> {
            &&& a.x - p.x < t || b.x - p.x < t
            &&& p.x - a.x < t || p.x - b.x < t
            &&& a.y - p.y < t || b.y - p.y < t
            &&& p.y - a.y < t || p.y - b.y < t
            &&& -t < a.x - b.x < t || -t < a.y - b.y < t
            &&& -t < p.x - a.x < t || -t < p.y - a.y < t
        },
        (a.x - b.x >= t || b.x - a.x >= t) && (p.y - a.y >= t || a.y - p.y >= t) ==> !on_segment(
            p,
            a,
            b,
            t,
        ),
{
}

/// Points coincide with themselves and with those that are nearer than the
/// tolerance along both axes, whichever of the two is named first, and with no
/// others.
pub proof fn law_coincidence_is_closeness(a: Point, b: Point, t: int)
    ensures
        t > 0 ==> coincident(a, a, t),
        coincident(a, b, t) == coincident(b, a, t),
        coincident(a, b, t) ==> -t < a.x - b.x < t && -t < a.y - b.y < t,
        -t < a.x - b.x < t && -t < a.y - b.y < t ==> coincident(a, b, t),
{
}

} // verus!
