//! Oriented infinite lines on the lattice.
//!
//! A line is known exactly: a lattice point of its centre line, a lattice
//! vector along which it runs, and the distance by which it lies to the
//! right of that centre line. Moving a line sideways changes that distance
//! and nothing else, so offsets add up without any rounding. Only where two
//! lines meet, or where a point at a given distance along a line is asked
//! for, is a result rounded to the lattice.

use vstd::arithmetic::div_mod::{lemma_mod_self_0, lemma_small_mod};
use vstd::prelude::*;
use crate::cycle::{cycle_pairs, cyclic_pairs};
use crate::error::KernelError;
use crate::geometry::{
    closed_ring, in_range, lemma_closed_ring_in_range, points_of, ring_in_range, Coord,
    LineString, Point, Polygon, COORD_LIMIT,
};
use crate::roots::{
    floor_sqrt, lemma_floor_sqrt, lemma_floor_sqrt_of_square, lemma_round_div_exact,
    lemma_round_div_is_nearest, lemma_round_div_signs, lemma_scaled_root_of_square, round_div,
    rounded_quotient, scaled_root, times_root,
};

verus! {

/// Largest magnitude of a coordinate, of a component of a direction and of
/// twice an offset that a line can hold. Within it no meeting point leaves
/// the range of the clipping stage.
pub const LINE_LIMIT: i64 = 0x8_0000;

/// The mathematical model of an [`InfiniteLine`]: the oriented line through
/// `anchor` along `direction`, moved to its right by half of `offset2`.
pub struct Line {
    pub anchor: Point,
    pub direction: Point,
    pub offset2: int,
}

/// Whether `n` is a magnitude that a line can hold.
pub open spec fn within_limit(n: int) -> bool {
    -LINE_LIMIT <= n <= LINE_LIMIT
}

/// Whether `line` is one that an [`InfiniteLine`] can hold: its direction is
/// not the null vector, and all its numbers are within `LINE_LIMIT`.
pub open spec fn line_wf(line: Line) -> bool {
    &&& within_limit(line.anchor.x)
    &&& within_limit(line.anchor.y)
    &&& within_limit(line.direction.x)
    &&& within_limit(line.direction.y)
    &&& within_limit(line.offset2)
    &&& (line.direction.x != 0 || line.direction.y != 0)
}

/// `line` moved to its right by `d`; to its left if `d` is negative.
pub open spec fn shifted(line: Line, d: int) -> Line {
    Line { offset2: line.offset2 + 2 * d, ..line }
}

/// `line` moved to its right by half of `d2`.
pub open spec fn shifted_by_half(line: Line, d2: int) -> Line {
    Line { offset2: line.offset2 + d2, ..line }
}

/// Twice the distance by which `line` lies to the right of `centre`, for two
/// lines with the same anchor and direction.
pub open spec fn offset2_from(line: Line, centre: Line) -> int {
    line.offset2 - centre.offset2
}

/// Moving a line by `d` and then by `-d` gives the line back.
pub proof fn lemma_shift_is_invertible(line: Line, d: int)
    ensures
        shifted(shifted(line, d), -d) == line,
        shifted(shifted(line, -d), d) == line,
{
}

/// Shifts add up: moving by `d` and then by `e` is moving by `d + e`.
pub proof fn lemma_shifts_add_up(line: Line, d: int, e: int)
    ensures
        shifted(shifted(line, d), e) == shifted(line, d + e),
        shifted(line, 0) == line,
{
}

/// The two lines of a strip of width `w` about `centre` run along `centre`,
/// one half of `w` to its left and the other half of `w` to its right.
pub proof fn lemma_strip_is_centred(centre: Line, w: int)
    ensures
        ({
            let left = shifted_by_half(centre, -w);
            let right = shifted_by_half(centre, w);
            &&& left.anchor == centre.anchor && left.direction == centre.direction
            &&& right.anchor == centre.anchor && right.direction == centre.direction
            &&& offset2_from(left, centre) == -w
            &&& offset2_from(right, centre) == w
            &&& offset2_from(right, left) == 2 * w
        }),
{
}

/// The cross product of two vectors: zero exactly when they are parallel.
pub open spec fn cross(a: Point, b: Point) -> int {
    a.x * b.y - a.y * b.x
}

/// The square of the length of a vector.
pub open spec fn norm2(a: Point) -> int {
    a.x * a.x + a.y * a.y
}

/// Two lines are parallel when their directions are the same or opposite up
/// to length.
pub open spec fn parallel(l1: Line, l2: Line) -> bool {
    cross(l1.direction, l2.direction) == 0
}

/// Whether `p` lies on the centre line of `line`.
pub open spec fn on_centre_line(p: Point, line: Line) -> bool {
    cross(line.direction, Point { x: p.x - line.anchor.x, y: p.y - line.anchor.y }) == 0
}

/// The moment of the centre line of `line` about the origin: the product of
/// its right-hand normal `(direction.y, -direction.x)` with its anchor.
pub open spec fn moment(line: Line) -> int {
    line.direction.y * line.anchor.x - line.direction.x * line.anchor.y
}

/// Twice the offset of `line`, times `k`, times the length of its direction,
/// rounded toward zero.
pub open spec fn lift(line: Line, k: int) -> int {
    scaled_root(line.offset2 * k, norm2(line.direction))
}

/// The abscissa of the point where two lines meet, times twice the cross
/// product of their directions. It is exact but for the two roots in it.
pub open spec fn meeting_numerator_x(l1: Line, l2: Line) -> int {
    2 * (moment(l2) * l1.direction.x - moment(l1) * l2.direction.x) + lift(l2, l1.direction.x)
        - lift(l1, l2.direction.x)
}

/// The ordinate of the point where two lines meet, times twice the cross
/// product of their directions.
pub open spec fn meeting_numerator_y(l1: Line, l2: Line) -> int {
    2 * (moment(l2) * l1.direction.y - moment(l1) * l2.direction.y) + lift(l2, l1.direction.y)
        - lift(l1, l2.direction.y)
}

/// The lattice point nearest to where two lines that are not parallel meet.
///
/// A point `X` lies on a line when the product of the right-hand normal
/// with `X - anchor` is the offset times the length of the direction. Two
/// such equations are solved by Cramer's rule; the lengths are the only
/// roots in the solution.
#[verifier::opaque]
pub open spec fn meeting_point(l1: Line, l2: Line) -> Point {
    let d2 = 2 * cross(l1.direction, l2.direction);
    Point {
        x: round_div(meeting_numerator_x(l1, l2), d2),
        y: round_div(meeting_numerator_y(l1, l2), d2),
    }
}

/// What the meeting point is rounded from. Each lift is the whole part of a
/// root: its square is at most the square of twice the offset times `k`,
/// times the square of the length of the direction, and the square of the
/// next whole number is more. Each coordinate is a nearest whole number:
/// times twice the cross product, it misses its numerator by half of that
/// at most.
pub proof fn lemma_meeting_point_is_nearest(l1: Line, l2: Line, k: int)
    requires
        !parallel(l1, l2),
    ensures
        ({
            let root = if lift(l1, k) < 0 { -lift(l1, k) } else { lift(l1, k) };
            let square = (l1.offset2 * k) * (l1.offset2 * k) * norm2(l1.direction);
            root * root <= square < (root + 1) * (root + 1)
        }),
        ({
            let d2 = 2 * cross(l1.direction, l2.direction);
            let half = if d2 < 0 { -d2 } else { d2 };
            let p = meeting_point(l1, l2);
            &&& -half <= 2 * (p.x * d2 - meeting_numerator_x(l1, l2)) <= half
            &&& -half <= 2 * (p.y * d2 - meeting_numerator_y(l1, l2)) <= half
        }),
{
    reveal(meeting_point);
    let w = l1.offset2 * k;
    let q = norm2(l1.direction);
    assert(q >= 0) by (nonlinear_arith)
        requires
            q == l1.direction.x * l1.direction.x + l1.direction.y * l1.direction.y,
    ;
    assert(w * w * q >= 0) by (nonlinear_arith)
        requires
            q >= 0,
    ;
    lemma_floor_sqrt((w * w * q) as nat);
    let d2 = 2 * cross(l1.direction, l2.direction);
    lemma_round_div_is_nearest(meeting_numerator_x(l1, l2), d2);
    lemma_round_div_is_nearest(meeting_numerator_y(l1, l2), d2);
}

/// Where the directions of both lines have whole lengths `n1` and `n2`, the
/// meeting point before rounding solves the equations of both lines: the
/// product of the right-hand normal of each line with that point is the
/// moment of the line plus its offset times the length of its direction.
/// Here both sides are taken times twice the cross product.
pub proof fn lemma_meeting_point_solves_both_lines(l1: Line, l2: Line, n1: int, n2: int)
    requires
        n1 >= 0,
        n2 >= 0,
        n1 * n1 == norm2(l1.direction),
        n2 * n2 == norm2(l2.direction),
    ensures
        l1.direction.y * meeting_numerator_x(l1, l2) - l1.direction.x * meeting_numerator_y(l1, l2)
            == cross(l1.direction, l2.direction) * (2 * moment(l1) + l1.offset2 * n1),
        l2.direction.y * meeting_numerator_x(l1, l2) - l2.direction.x * meeting_numerator_y(l1, l2)
            == cross(l1.direction, l2.direction) * (2 * moment(l2) + l2.offset2 * n2),
{
    let (a, b) = (l1.direction.x, l1.direction.y);
    let (c, e) = (l2.direction.x, l2.direction.y);
    let k1 = 2 * moment(l1) + l1.offset2 * n1;
    let k2 = 2 * moment(l2) + l2.offset2 * n2;
    lemma_scaled_root_of_square(l2.offset2 * a, n2);
    lemma_scaled_root_of_square(l1.offset2 * c, n1);
    lemma_scaled_root_of_square(l2.offset2 * b, n2);
    lemma_scaled_root_of_square(l1.offset2 * e, n1);
    let nx = meeting_numerator_x(l1, l2);
    let ny = meeting_numerator_y(l1, l2);
    assert(nx == k2 * a - k1 * c) by (nonlinear_arith)
        requires
            nx == 2 * (moment(l2) * a - moment(l1) * c) + (l2.offset2 * a) * n2 - (l1.offset2 * c)
                * n1,
            k1 == 2 * moment(l1) + l1.offset2 * n1,
            k2 == 2 * moment(l2) + l2.offset2 * n2,
    ;
    assert(ny == k2 * b - k1 * e) by (nonlinear_arith)
        requires
            ny == 2 * (moment(l2) * b - moment(l1) * e) + (l2.offset2 * b) * n2 - (l1.offset2 * e)
                * n1,
            k1 == 2 * moment(l1) + l1.offset2 * n1,
            k2 == 2 * moment(l2) + l2.offset2 * n2,
    ;
    assert(b * (k2 * a - k1 * c) - a * (k2 * b - k1 * e) == (a * e - b * c) * k1) by {
        assert(b * (k2 * a - k1 * c) == b * (k2 * a) - b * (k1 * c)) by (nonlinear_arith);
        assert(a * (k2 * b - k1 * e) == a * (k2 * b) - a * (k1 * e)) by (nonlinear_arith);
        assert(b * (k2 * a) == a * (k2 * b)) by (nonlinear_arith);
        assert((a * e - b * c) * k1 == a * (k1 * e) - b * (k1 * c)) by (nonlinear_arith);
    }
    assert(e * (k2 * a - k1 * c) - c * (k2 * b - k1 * e) == (a * e - b * c) * k2) by {
        assert(e * (k2 * a - k1 * c) == e * (k2 * a) - e * (k1 * c)) by (nonlinear_arith);
        assert(c * (k2 * b - k1 * e) == c * (k2 * b) - c * (k1 * e)) by (nonlinear_arith);
        assert(e * (k1 * c) == c * (k1 * e)) by (nonlinear_arith);
        assert((a * e - b * c) * k2 == e * (k2 * a) - c * (k2 * b)) by (nonlinear_arith);
    }
}

/// Two lines meet in the same point whichever of them is asked.
pub proof fn lemma_meeting_point_is_symmetric(l1: Line, l2: Line)
    ensures
        parallel(l1, l2) == parallel(l2, l1),
        !parallel(l1, l2) ==> meeting_point(l1, l2) == meeting_point(l2, l1),
{
    reveal(meeting_point);
    let d = cross(l1.direction, l2.direction);
    assert(cross(l2.direction, l1.direction) == -d) by (nonlinear_arith)
        requires
            d == cross(l1.direction, l2.direction),
    ;
    if d != 0 {
        assert(meeting_numerator_x(l2, l1) == -meeting_numerator_x(l1, l2));
        assert(meeting_numerator_y(l2, l1) == -meeting_numerator_y(l1, l2));
        lemma_round_div_signs(meeting_numerator_x(l1, l2), 2 * d);
        lemma_round_div_signs(meeting_numerator_y(l1, l2), 2 * d);
    }
}

/// Cramer's rule for the two equations `b * x - a * y = m1` and
/// `e * x - c * y = m2`, for either unknown.
proof fn lemma_cramer(a: int, b: int, c: int, e: int, x: int, y: int, k1: int, k2: int)
    requires
        k1 == a && k2 == c || k1 == b && k2 == e,
    ensures
        k1 == a && k2 == c ==> (e * x - c * y) * k1 - (b * x - a * y) * k2 == (a * e - b * c) * x,
        k1 == b && k2 == e ==> (e * x - c * y) * k1 - (b * x - a * y) * k2 == (a * e - b * c) * y,
{
    assert((e * x - c * y) * k1 == e * x * k1 - c * y * k1) by (nonlinear_arith);
    assert((b * x - a * y) * k2 == b * x * k2 - a * y * k2) by (nonlinear_arith);
    assert((a * e - b * c) * x == a * e * x - b * c * x) by (nonlinear_arith);
    assert((a * e - b * c) * y == a * e * y - b * c * y) by (nonlinear_arith);
    if k1 == a && k2 == c {
        assert(e * x * a == a * e * x) by (nonlinear_arith);
        assert(c * y * a == a * y * c) by (nonlinear_arith);
        assert(b * x * c == b * c * x) by (nonlinear_arith);
    }
    if k1 == b && k2 == e {
        assert(e * x * b == b * x * e) by (nonlinear_arith);
        assert(c * y * b == b * c * y) by (nonlinear_arith);
        assert(a * y * e == a * e * y) by (nonlinear_arith);
    }
}

/// A line without offset is its own centre line.
proof fn lemma_centre_line_needs_no_lift(line: Line, k: int)
    requires
        line.offset2 == 0,
    ensures
        lift(line, k) == 0,
{
    let q = norm2(line.direction);
    assert((0 * k) * (0 * k) * q == 0) by (nonlinear_arith);
    assert(floor_sqrt(0) == 0);
}

/// Two centre lines that pass through one lattice point and are not parallel
/// meet in that point, without any rounding.
pub proof fn lemma_centre_lines_meet_in_common_point(l1: Line, l2: Line, p: Point)
    requires
        l1.offset2 == 0,
        l2.offset2 == 0,
        on_centre_line(p, l1),
        on_centre_line(p, l2),
        !parallel(l1, l2),
    ensures
        meeting_point(l1, l2) == p,
{
    reveal(meeting_point);
    let d = cross(l1.direction, l2.direction);
    let (v1, v2) = (l1.direction, l2.direction);
    let (a1, a2) = (l1.anchor, l2.anchor);
    lemma_centre_line_needs_no_lift(l1, v2.x);
    lemma_centre_line_needs_no_lift(l1, v2.y);
    lemma_centre_line_needs_no_lift(l2, v1.x);
    lemma_centre_line_needs_no_lift(l2, v1.y);
    assert(moment(l1) == v1.y * p.x - v1.x * p.y) by (nonlinear_arith)
        requires
            v1.x * (p.y - a1.y) - v1.y * (p.x - a1.x) == 0,
            moment(l1) == v1.y * a1.x - v1.x * a1.y,
    ;
    assert(moment(l2) == v2.y * p.x - v2.x * p.y) by (nonlinear_arith)
        requires
            v2.x * (p.y - a2.y) - v2.y * (p.x - a2.x) == 0,
            moment(l2) == v2.y * a2.x - v2.x * a2.y,
    ;
    lemma_cramer(v1.x, v1.y, v2.x, v2.y, p.x, p.y, v1.x, v2.x);
    lemma_cramer(v1.x, v1.y, v2.x, v2.y, p.x, p.y, v1.y, v2.y);
    assert((2 * d) * p.x == 2 * (d * p.x)) by (nonlinear_arith);
    assert((2 * d) * p.y == 2 * (d * p.y)) by (nonlinear_arith);
    lemma_round_div_exact(p.x, 2 * d);
    lemma_round_div_exact(p.y, 2 * d);
}

/// The lattice point nearest to the point of `line` that lies `t` further
/// along the line than the foot of its anchor.
///
/// That point is the anchor moved by half of `offset2` along the right-hand
/// normal and by `t` along the direction, both of them taken at length one;
/// the length of the direction is the only root in it.
pub open spec fn point_at(line: Line, t: int) -> Point {
    let q = norm2(line.direction);
    let along = line.offset2 * line.direction.y + 2 * t * line.direction.x;
    let up = 2 * t * line.direction.y - line.offset2 * line.direction.x;
    Point {
        x: line.anchor.x + round_div(scaled_root(along, q), 2 * q),
        y: line.anchor.y + round_div(scaled_root(up, q), 2 * q),
    }
}

/// The point at parameter 0 of a centre line is its anchor.
pub proof fn lemma_point_at_start(line: Line)
    requires
        line.offset2 == 0,
        line.direction.x != 0 || line.direction.y != 0,
    ensures
        point_at(line, 0) == line.anchor,
{
    let q = norm2(line.direction);
    assert(0 * line.direction.y + 2 * 0 * line.direction.x == 0);
    assert(2 * 0 * line.direction.y - 0 * line.direction.x == 0);
    assert(0 * 0 * q == 0) by (nonlinear_arith);
    assert(floor_sqrt(0) == 0);
    assert(q > 0) by (nonlinear_arith)
        requires
            q == line.direction.x * line.direction.x + line.direction.y * line.direction.y,
            line.direction.x != 0 || line.direction.y != 0,
    ;
    assert((2 * q) * 0 == 0);
    lemma_round_div_exact(0, 2 * q);
}

/// Where the direction of a centre line has the whole length `n`, the point
/// at parameter `n` is the anchor moved by the direction: the line from `p`
/// to `q` comes to `q` at the distance of `q` from `p`.
pub proof fn lemma_point_at_whole_length(line: Line, n: int)
    requires
        line.offset2 == 0,
        n > 0,
        n * n == norm2(line.direction),
    ensures
        point_at(line, n) == (Point {
            x: line.anchor.x + line.direction.x,
            y: line.anchor.y + line.direction.y,
        }),
{
    lemma_whole_length_step(n, line.direction.x);
    lemma_whole_length_step(n, line.direction.y);
    assert(0 * line.direction.y + 2 * n * line.direction.x == 2 * n * line.direction.x);
    assert(2 * n * line.direction.y - 0 * line.direction.x == 2 * n * line.direction.y);
}

/// The line from `p` to `q` comes back to `q`, within two lattice units in
/// each coordinate, at the whole part of the distance from `p` to `q`: the
/// parameter is a whole number, so less than one unit of the way is
/// missing, and the rest is rounding.
pub proof fn lemma_point_at_distance(line: Line)
    requires
        line.offset2 == 0,
        line.direction.x != 0 || line.direction.y != 0,
    ensures
        ({
            let t = floor_sqrt(norm2(line.direction) as nat) as int;
            let p = point_at(line, t);
            &&& -2 <= p.x - (line.anchor.x + line.direction.x) <= 2
            &&& -2 <= p.y - (line.anchor.y + line.direction.y) <= 2
        }),
{
    let (vx, vy) = (line.direction.x, line.direction.y);
    let q = norm2(line.direction);
    assert(q >= 1 && vx * vx <= q && vy * vy <= q) by (nonlinear_arith)
        requires
            q == vx * vx + vy * vy,
            vx != 0 || vy != 0,
    ;
    let t = floor_sqrt(q as nat) as int;
    lemma_distance_step(q, vx);
    lemma_distance_step(q, vy);
    assert(0 * vy + 2 * t * vx == 2 * t * vx);
    assert(2 * t * vy - 0 * vx == 2 * t * vy);
}

/// At the whole part `t` of the root of `q`, a component `v` of a vector of
/// squared length `q` comes out within two units.
proof fn lemma_distance_step(q: int, v: int)
    requires
        q >= 1,
        v * v <= q,
    ensures
        ({
            let t = floor_sqrt(q as nat) as int;
            -2 <= round_div(scaled_root(2 * t * v, q), 2 * q) - v <= 2
        }),
{
    let t = floor_sqrt(q as nat) as int;
    lemma_floor_sqrt(q as nat);
    assert(t * t <= q < (t + 1) * (t + 1));
    assert(t >= 1) by (nonlinear_arith)
        requires
            q >= 1,
            q < (t + 1) * (t + 1),
            t >= 0,
    ;
    let a = if v < 0 { -v } else { v };
    assert(a * a == v * v) by (nonlinear_arith)
        requires
            a == v || a == -v,
    ;
    assert(a <= t) by (nonlinear_arith)
        requires
            a * a <= q,
            q < (t + 1) * (t + 1),
            a >= 0,
            t >= 0,
    ;
    let w = 2 * t * v;
    let big = 2 * t * a;
    assert(w * w == big * big && big >= 0 && (w < 0 <==> v < 0) && (w == big || w == -big))
        by (nonlinear_arith)
        requires
            w == 2 * t * v,
            big == 2 * t * a,
            a == if v < 0 { -v } else { v },
            t >= 1,
    ;
    let n = w * w * q;
    assert(n >= 0 && n == big * big * q) by (nonlinear_arith)
        requires
            n == w * w * q,
            w * w == big * big,
            q >= 1,
    ;
    let r = floor_sqrt(n as nat) as int;
    lemma_floor_sqrt(n as nat);
    assert(r * r <= n < (r + 1) * (r + 1));
    // the root lies between `big * t` and `big * (t + 1)`
    assert(big * t <= r) by (nonlinear_arith)
        requires
            n == big * big * q,
            t * t <= q,
            n < (r + 1) * (r + 1),
            big >= 0,
            t >= 0,
            r >= 0,
    ;
    assert(r <= big * (t + 1)) by (nonlinear_arith)
        requires
            n == big * big * q,
            q < (t + 1) * (t + 1),
            r * r <= n,
            big >= 0,
            t >= 0,
            r >= 0,
    ;
    // so it lies between `q * (2 * a - 5)` and `q * (2 * a + 3)`
    assert(r < q * (2 * a + 3)) by (nonlinear_arith)
        requires
            r <= big * (t + 1),
            big == 2 * t * a,
            t * t <= q,
            0 <= a <= t,
            t >= 1,
            q >= 1,
    ;
    assert(r >= q * (2 * a - 5)) by (nonlinear_arith)
        requires
            big * t <= r,
            big == 2 * t * a,
            q < (t + 1) * (t + 1),
            0 <= a <= t,
            t >= 1,
            q >= 1,
            r >= 0,
    ;
    let m = (2 * r + 2 * q) / (2 * (2 * q));
    assert(a - 2 <= m <= a + 1) by (nonlinear_arith)
        requires
            m == (2 * r + 2 * q) / (2 * (2 * q)),
            q * (2 * a - 5) <= r < q * (2 * a + 3),
            q >= 1,
            r >= 0,
    ;
    let root = scaled_root(w, q);
    assert(root == if v < 0 { -r } else { r });
    if r == 0 {
        assert(m == 0) by (nonlinear_arith)
            requires
                m == (2 * 0 + 2 * q) / (2 * (2 * q)),
                q >= 1,
        ;
    }
    assert(round_div(root, 2 * q) == if v < 0 { -m } else { m });
}

/// `2 * n * v` times the root of `n * n`, divided by `2 * n * n`, is `v`.
proof fn lemma_whole_length_step(n: int, v: int)
    requires
        n > 0,
    ensures
        round_div(scaled_root(2 * n * v, n * n), 2 * (n * n)) == v,
{
    let w = 2 * n * v;
    let q = n * n;
    let av = if v < 0 { -v } else { v };
    let base = 2 * q * av;
    assert(q > 0) by (nonlinear_arith)
        requires
            q == n * n,
            n > 0,
    ;
    assert(w * w * q == base * base) by (nonlinear_arith)
        requires
            w == 2 * n * v,
            q == n * n,
            base == 2 * q * av,
            av == v || av == -v,
    ;
    assert(base >= 0) by (nonlinear_arith)
        requires
            base == 2 * q * av,
            q > 0,
            av >= 0,
    ;
    lemma_floor_sqrt_of_square(base as nat);
    assert((w < 0) == (v < 0)) by (nonlinear_arith)
        requires
            w == 2 * n * v,
            n > 0,
    ;
    assert(scaled_root(w, q) == (2 * q) * v) by (nonlinear_arith)
        requires
            scaled_root(w, q) == if v < 0 { -base } else { base },
            base == 2 * q * av,
            av == if v < 0 { -v } else { v },
    ;
    lemma_round_div_exact(v, 2 * q);
}

/// The product of two numbers within `LINE_LIMIT`.
fn narrow_product(a: i64, b: i64) -> (r: i128)
    requires
        within_limit(a as int),
        within_limit(b as int),
    ensures
        r == a * b,
        -0x40_0000_0000 <= r <= 0x40_0000_0000,
{
    assert(-0x40_0000_0000 <= a * b <= 0x40_0000_0000) by (nonlinear_arith)
        requires
            -0x8_0000 <= a <= 0x8_0000,
            -0x8_0000 <= b <= 0x8_0000,
    ;
    (a as i128) * (b as i128)
}

/// The product of a sum of two narrow products with a number within
/// `LINE_LIMIT`.
fn wide_product(a: i128, b: i64) -> (r: i128)
    requires
        -0x80_0000_0000 <= a <= 0x80_0000_0000,
        within_limit(b as int),
    ensures
        r == a * b,
        -0x400_0000_0000_0000 <= r <= 0x400_0000_0000_0000,
{
    assert(-0x400_0000_0000_0000 <= a * b <= 0x400_0000_0000_0000) by (nonlinear_arith)
        requires
            -0x80_0000_0000 <= a <= 0x80_0000_0000,
            -0x8_0000 <= b <= 0x8_0000,
    ;
    a * (b as i128)
}

/// Whether `n` is a magnitude that a line can hold.
pub fn is_within_limit(n: i64) -> (fits: bool)
    ensures
        fits == within_limit(n as int),
{
    -LINE_LIMIT <= n && n <= LINE_LIMIT
}

/// An infinite, oriented line.
#[derive(Clone, Copy, Debug, PartialEq, Eq)]
pub struct InfiniteLine {
    /// A point by which passes the centre line
    point: Coord,
    /// A director vector
    uvec: Coord,
    /// Twice the distance to the right of the centre line
    shift2: i64,
}

impl View for InfiniteLine {
    type V = Line;

    closed spec fn view(&self) -> Line {
        Line { anchor: self.point@, direction: self.uvec@, offset2: self.shift2 as int }
    }
}

impl InfiniteLine {
    #[verifier::type_invariant]
    spec fn holds_a_line(self) -> bool {
        line_wf(self@)
    }

    /// The point of the centre line that the line was made with.
    pub fn anchor(&self) -> (point: Coord)
        ensures
            point@ == self@.anchor,
    {
        self.point
    }

    /// The vector along which the line runs, as it was given.
    pub fn direction(&self) -> (vec: Coord)
        ensures
            vec@ == self@.direction,
    {
        self.uvec
    }

    /// Twice the distance by which the line lies to the right of its centre
    /// line.
    pub fn offset2(&self) -> (twice: i64)
        ensures
            twice == self@.offset2,
    {
        self.shift2
    }

    /// Whether a line can hold `pt` as its anchor and `vec` as its
    /// direction: what `from_point_vec` asks of them.
    pub fn can_hold(pt: &Coord, vec: &Coord) -> (fits: bool)
        ensures
            fits == (within_limit(pt.x as int) && within_limit(pt.y as int) && within_limit(
                vec.x as int,
            ) && within_limit(vec.y as int)),
    {
        is_within_limit(pt.x) && is_within_limit(pt.y) && is_within_limit(vec.x)
            && is_within_limit(vec.y)
    }

    /// Whether a line can hold `p_from` as its anchor and the vector from
    /// `p_from` to `p_to` as its direction: what `from_to` asks of them.
    pub fn can_join(p_from: &Coord, p_to: &Coord) -> (fits: bool)
        ensures
            fits == (within_limit(p_from.x as int) && within_limit(p_from.y as int)
                && within_limit(p_to.x - p_from.x) && within_limit(p_to.y - p_from.y)),
    {
        let dx = p_to.x as i128 - p_from.x as i128;
        let dy = p_to.y as i128 - p_from.y as i128;
        let limit = LINE_LIMIT as i128;
        is_within_limit(p_from.x) && is_within_limit(p_from.y) && -limit <= dx && dx <= limit
            && -limit <= dy && dy <= limit
    }

    /// Whether the line can be moved by `d`: what `shift_by` asks of `d`.
    pub fn can_shift_by(&self, d: i64) -> (fits: bool)
        ensures
            fits == within_limit(self@.offset2 + 2 * d),
    {
        let moved = self.shift2 as i128 + 2 * (d as i128);
        let limit = LINE_LIMIT as i128;
        -limit <= moved && moved <= limit
    }

    /// Whether the line can be the centre line of a strip of the given
    /// width: what `LinesLR::new` asks of them.
    pub fn can_carry(&self, width: i64) -> (fits: bool)
        ensures
            fits == (within_limit(self@.offset2 - width) && within_limit(self@.offset2 + width)),
    {
        let left = self.shift2 as i128 - width as i128;
        let right = self.shift2 as i128 + width as i128;
        let limit = LINE_LIMIT as i128;
        -limit <= left && left <= limit && -limit <= right && right <= limit
    }

    /// The line through `pt` along `vec`. There is none along the null
    /// vector.
    pub fn from_point_vec(pt: &Coord, vec: &Coord) -> (line: Result<InfiniteLine, KernelError>)
        requires
            within_limit(pt.x as int),
            within_limit(pt.y as int),
            within_limit(vec.x as int),
            within_limit(vec.y as int),
        ensures
            line is Err <==> vec.x == 0 && vec.y == 0,
            line matches Err(e) ==> e == KernelError::DegenerateDirection,
            line matches Ok(l) ==> l@ == (Line { anchor: pt@, direction: vec@, offset2: 0 })
                && line_wf(l@),
    {
        if vec.x == 0 && vec.y == 0 {
            return Err(KernelError::DegenerateDirection);
        }
        Ok(InfiniteLine { point: *pt, uvec: *vec, shift2: 0 })
    }

    /// Yields the lines that passed through both points `p_from` and `p_to`,
    /// having the sense from `p_from` to `p_to`. There is none through a
    /// point and itself.
    pub fn from_to(p_from: &Coord, p_to: &Coord) -> (line: Result<InfiniteLine, KernelError>)
        requires
            within_limit(p_from.x as int),
            within_limit(p_from.y as int),
            within_limit(p_to.x - p_from.x),
            within_limit(p_to.y - p_from.y),
        ensures
            line is Err <==> p_from@ == p_to@,
            line matches Err(e) ==> e == KernelError::DegenerateDirection,
            line matches Ok(l) ==> l@ == (Line {
                anchor: p_from@,
                direction: Point { x: p_to.x - p_from.x, y: p_to.y - p_from.y },
                offset2: 0,
            }) && line_wf(l@),
    {
        let d = Coord { x: p_to.x - p_from.x, y: p_to.y - p_from.y };
        InfiniteLine::from_point_vec(p_from, &d)
    }

    /// Shifts the line by a given distance. Positive is to the right.
    /// ```text
    /// ^               ^
    /// | uvec  =>  (-) | (+)
    /// |               +---> v
    /// ```
    pub fn shift_by(&self, d: i64) -> (moved: InfiniteLine)
        requires
            within_limit(self@.offset2 + 2 * d),
        ensures
            moved@ == shifted(self@, d as int),
            line_wf(moved@),
    {
        proof {
            use_type_invariant(self);
        }
        InfiniteLine { point: self.point, uvec: self.uvec, shift2: self.shift2 + d + d }
    }

    /// One coordinate of the meeting point with `other`, times twice the
    /// cross product of the two directions: the abscissa if `k1` and `k2`
    /// are the first components of the directions, the ordinate if they are
    /// the second ones.
    fn meeting_numerator(&self, other: &Self, k1: i64, k2: i64) -> (n: i128)
        requires
            k1 == self@.direction.x && k2 == other@.direction.x || k1 == self@.direction.y && k2
                == other@.direction.y,
        ensures
            k1 == self@.direction.x && k2 == other@.direction.x ==> n == meeting_numerator_x(
                self@,
                other@,
            ),
            k1 == self@.direction.y && k2 == other@.direction.y ==> n == meeting_numerator_y(
                self@,
                other@,
            ),
            -0x3000_0000_0000_0000 <= n <= 0x3000_0000_0000_0000,
    {
        proof {
            use_type_invariant(self);
            use_type_invariant(other);
        }
        let c1 = narrow_product(self.uvec.y, self.point.x) - narrow_product(
            self.uvec.x,
            self.point.y,
        );
        let c2 = narrow_product(other.uvec.y, other.point.x) - narrow_product(
            other.uvec.x,
            other.point.y,
        );
        let q1 = narrow_product(self.uvec.x, self.uvec.x) + narrow_product(self.uvec.y, self.uvec.y);
        let q2 = narrow_product(other.uvec.x, other.uvec.x) + narrow_product(
            other.uvec.y,
            other.uvec.y,
        );
        assert(q1 >= 0 && q2 >= 0) by (nonlinear_arith)
            requires
                q1 == self.uvec.x * self.uvec.x + self.uvec.y * self.uvec.y,
                q2 == other.uvec.x * other.uvec.x + other.uvec.y * other.uvec.y,
        ;
        let exact = 2 * (wide_product(c2, k1) - wide_product(c1, k2));
        let lift2 = times_root(narrow_product(other.shift2, k1), q2);
        let lift1 = times_root(narrow_product(self.shift2, k2), q1);
        exact + lift2 - lift1
    }

    /// Calculates the intersection point of two infinite lines, rounded to
    /// the lattice. Parallel lines have none.
    pub fn intersection(&self, other: &Self) -> (point: Result<Coord, KernelError>)
        ensures
            point is Err <==> parallel(self@, other@),
            point matches Err(e) ==> e == KernelError::ParallelLines,
            point matches Ok(p) ==> p@ == meeting_point(self@, other@) && in_range(p@),
    {
        proof {
            use_type_invariant(self);
            use_type_invariant(other);
        }
        let d = narrow_product(self.uvec.x, other.uvec.y) - narrow_product(
            self.uvec.y,
            other.uvec.x,
        );
        if d == 0 {
            return Err(KernelError::ParallelLines);
        }
        let nx = self.meeting_numerator(other, self.uvec.x, other.uvec.x);
        let ny = self.meeting_numerator(other, self.uvec.y, other.uvec.y);
        let x = rounded_quotient(nx, 2 * d);
        let y = rounded_quotient(ny, 2 * d);
        proof {
            reveal(meeting_point);
        }
        Ok(Coord { x: x as i64, y: y as i64 })
    }

    /// Yields the point on the line for a given value of the parameter,
    /// rounded to the lattice.
    pub fn at_time(&self, time: i64) -> (point: Coord)
        requires
            within_limit(time as int),
        ensures
            point@ == point_at(self@, time as int),
            in_range(point@),
    {
        proof {
            use_type_invariant(self);
        }
        let q = narrow_product(self.uvec.x, self.uvec.x) + narrow_product(self.uvec.y, self.uvec.y);
        assert(q > 0) by (nonlinear_arith)
            requires
                q == self.uvec.x * self.uvec.x + self.uvec.y * self.uvec.y,
                self.uvec.x != 0 || self.uvec.y != 0,
        ;
        let tx = narrow_product(time, self.uvec.x);
        let ty = narrow_product(time, self.uvec.y);
        let along = narrow_product(self.shift2, self.uvec.y) + 2 * tx;
        let up = 2 * ty - narrow_product(self.shift2, self.uvec.x);
        proof {
            assert(2 * (time * self.uvec.x) == 2 * time * self.uvec.x) by (nonlinear_arith);
            assert(2 * (time * self.uvec.y) == 2 * time * self.uvec.y) by (nonlinear_arith);
        }
        let dx = rounded_quotient(times_root(along, q), 2 * q);
        let dy = rounded_quotient(times_root(up, q), 2 * q);
        Coord { x: (self.point.x as i128 + dx) as i64, y: (self.point.y as i128 + dy) as i64 }
    }

    /// Yields a vector of points on the line for some given values of the
    /// parameter.
    pub fn at_times(&self, times: Vec<i64>) -> (points: Vec<Coord>)
        requires
            forall|i: int| 0 <= i < times.len() ==> within_limit(#[trigger] times[i] as int),
        ensures
            points.len() == times.len(),
            forall|i: int|
                0 <= i < times.len() ==> (#[trigger] points[i])@ == point_at(
                    self@,
                    times[i] as int,
                ) && in_range(points[i]@),
    {
        let mut points: Vec<Coord> = Vec::new();
        let mut i: usize = 0;
        while i < times.len()
            invariant
                i <= times.len(),
                points.len() == i,
                forall|j: int| 0 <= j < times.len() ==> within_limit(#[trigger] times[j] as int),
                forall|j: int|
                    0 <= j < i ==> (#[trigger] points[j])@ == point_at(self@, times[j] as int)
                        && in_range(points[j]@),
            decreases times.len() - i,
        {
            points.push(self.at_time(times[i]));
            i += 1;
        }
        points
    }
}

/// Defines a pair of lines supposed to be on each side of a given line
#[derive(Clone, Copy, Debug, PartialEq, Eq)]
pub struct LinesLR {
    /// Line on the left
    pub l: InfiniteLine,
    /// Line on the right
    pub r: InfiniteLine,
}

impl LinesLR {
    /// Creates a new pair of lines separated by a given width: the two edges
    /// of the strip of that width whose centre line is `c`.
    pub fn new(c: &InfiniteLine, width: i64) -> (pair: LinesLR)
        requires
            within_limit(c@.offset2 - width),
            within_limit(c@.offset2 + width),
        ensures
            pair.l@ == shifted_by_half(c@, -width),
            pair.r@ == shifted_by_half(c@, width as int),
            line_wf(pair.l@),
            line_wf(pair.r@),
    {
        proof {
            use_type_invariant(c);
        }
        LinesLR {
            l: InfiniteLine { point: c.point, uvec: c.uvec, shift2: c.shift2 - width },
            r: InfiniteLine { point: c.point, uvec: c.uvec, shift2: c.shift2 + width },
        }
    }
}

/// The models of a sequence of lines.
pub open spec fn lines_of(lines: Seq<InfiniteLine>) -> Seq<Line> {
    Seq::new(lines.len(), |i: int| lines[i]@)
}

/// The models of a sequence of borrowed lines.
pub open spec fn lines_behind(lines: Seq<&InfiniteLine>) -> Seq<Line> {
    Seq::new(lines.len(), |i: int| (*lines[i])@)
}

/// Whether `lines`, taken as a cycle, bound a polygon: they are three or
/// more, and none is parallel to the one after it.
pub open spec fn valid_cycle(lines: Seq<Line>) -> bool {
    &&& lines.len() >= 3
    &&& forall|i: int|
        0 <= i < lines.len() ==> !parallel(
            lines[(#[trigger] cyclic_pairs(lines.len())[i]).0 as int],
            lines[cyclic_pairs(lines.len())[i].1 as int],
        )
}

/// The vertices of the polygon that `lines` bound: vertex `i` is where line
/// `i` meets the line after it, and the last line meets the first.
pub open spec fn cycle_vertices(lines: Seq<Line>) -> Seq<Point> {
    Seq::new(
        lines.len(),
        |i: int|
            meeting_point(
                lines[cyclic_pairs(lines.len())[i].0 as int],
                lines[cyclic_pairs(lines.len())[i].1 as int],
            ),
    )
}

/// The vertices of the polygon that `lines` bound, if they bound one.
fn vertices(lines: &Vec<InfiniteLine>) -> (corners: Result<Vec<Coord>, KernelError>)
    ensures
        corners is Err <==> !valid_cycle(lines_of(lines@)),
        corners matches Err(e) ==> e == KernelError::InvalidCycle,
        corners matches Ok(v) ==> points_of(v@) == cycle_vertices(lines_of(lines@))
            && ring_in_range(points_of(v@)),
{
    let ghost cycle = lines_of(lines@);
    let pairs = match cycle_pairs(lines.len()) {
        Ok(pairs) => pairs,
        Err(_) => {
            return Err(KernelError::InvalidCycle);
        },
    };
    let mut corners: Vec<Coord> = Vec::new();
    let mut i: usize = 0;
    while i < pairs.len()
        invariant
            cycle == lines_of(lines@),
            lines.len() >= 3,
            pairs@ == cyclic_pairs(lines.len() as nat),
            i <= pairs.len(),
            corners.len() == i,
            forall|j: int|
                0 <= j < i ==> !parallel(
                    cycle[(#[trigger] cyclic_pairs(cycle.len())[j]).0 as int],
                    cycle[cyclic_pairs(cycle.len())[j].1 as int],
                ),
            forall|j: int| 0 <= j < i ==> (#[trigger] corners[j])@ == cycle_vertices(cycle)[j],
            ring_in_range(points_of(corners@)),
        decreases pairs.len() - i,
    {
        let (a, b) = pairs[i];
        proof {
            let n = lines.len() as int;
            assert(a == i);
            if i + 1 == n {
                lemma_mod_self_0(n);
            } else {
                lemma_small_mod((i + 1) as nat, n as nat);
            }
            assert(0 <= b < n);
        }
        match lines[a].intersection(&lines[b]) {
            Ok(corner) => {
                let ghost before = points_of(corners@);
                corners.push(corner);
                assert(ring_in_range(points_of(corners@))) by {
                    assert(points_of(corners@) =~= before.push(corner@));
                    assert forall|k: int| 0 <= k < before.len() + 1 implies in_range(
                        #[trigger] before.push(corner@)[k],
                    ) by {
                        if k < before.len() {
                            assert(before.push(corner@)[k] == before[k]);
                        }
                    }
                }
            },
            Err(_) => {
                assert(parallel(
                    cycle[cyclic_pairs(cycle.len())[i as int].0 as int],
                    cycle[cyclic_pairs(cycle.len())[i as int].1 as int],
                ));
                return Err(KernelError::InvalidCycle);
            },
        }
        i += 1;
    }
    assert(points_of(corners@) =~= cycle_vertices(cycle));
    Ok(corners)
}

/// The three corners of the triangle whose sides lie on `la`, `lb` and `lc`:
/// where `la` meets `lb`, `lb` meets `lc` and `lc` meets `la`, in this
/// order.
pub open spec fn triangle_vertices(la: Line, lb: Line, lc: Line) -> Seq<Point> {
    seq![meeting_point(la, lb), meeting_point(lb, lc), meeting_point(lc, la)]
}

/// Yields a Polygon created by 3 lines: its vertices are where `la` meets
/// `lb`, `lb` meets `lc` and `lc` meets `la`, in this order. Where two of
/// the lines are parallel there is no such meeting point, and no triangle.
pub fn triangle(la: &InfiniteLine, lb: &InfiniteLine, lc: &InfiniteLine) -> (figure: Result<
    Polygon,
    KernelError,
>)
    ensures
        figure is Err <==> parallel(la@, lb@) || parallel(lb@, lc@) || parallel(lc@, la@),
        figure matches Err(e) ==> e == KernelError::ParallelLines,
        figure matches Ok(p) ==> p@.exterior == closed_ring(triangle_vertices(la@, lb@, lc@))
            && p@.interiors.len() == 0 && ring_in_range(p@.exterior),
{
    let ab = match la.intersection(lb) {
        Ok(corner) => corner,
        Err(e) => {
            return Err(e);
        },
    };
    let bc = match lb.intersection(lc) {
        Ok(corner) => corner,
        Err(e) => {
            return Err(e);
        },
    };
    let ca = match lc.intersection(la) {
        Ok(corner) => corner,
        Err(e) => {
            return Err(e);
        },
    };
    let mut corners: Vec<Coord> = Vec::new();
    corners.push(ab);
    corners.push(bc);
    corners.push(ca);
    proof {
        let ring = triangle_vertices(la@, lb@, lc@);
        assert(points_of(corners@) =~= ring);
        assert forall|i: int| 0 <= i < ring.len() implies in_range(#[trigger] ring[i]) by {
            assert(ring[0] == ab@ && ring[1] == bc@ && ring[2] == ca@);
        }
        lemma_closed_ring_in_range(ring);
    }
    Ok(Polygon::new(LineString::new(corners), Vec::new()))
}

/// A triangle is the polygon of its three lines: it exists where the three
/// lines make a valid cycle, and has the vertices of that cycle.
pub proof fn lemma_triangle_is_a_cycle(la: Line, lb: Line, lc: Line)
    ensures
        valid_cycle(seq![la, lb, lc]) <==> !(parallel(la, lb) || parallel(lb, lc) || parallel(
            lc,
            la,
        )),
        cycle_vertices(seq![la, lb, lc]) == triangle_vertices(la, lb, lc),
{
    let lines = seq![la, lb, lc];
    let pairs = cyclic_pairs(3);
    assert(pairs[0] == (0usize, 1usize));
    assert(pairs[1] == (1usize, 2usize));
    assert(pairs[2] == (2usize, 0usize));
    assert(cycle_vertices(lines) =~= triangle_vertices(la, lb, lc));
    if valid_cycle(lines) {
        assert(!parallel(lines[pairs[0].0 as int], lines[pairs[0].1 as int]));
        assert(!parallel(lines[pairs[1].0 as int], lines[pairs[1].1 as int]));
        assert(!parallel(lines[pairs[2].0 as int], lines[pairs[2].1 as int]));
    }
}

/// The polygon without holes that `lines` bound: vertex `i` is where line
/// `i` meets the line after it, and the last line meets the first.
pub fn polygon(lines: &[InfiniteLine]) -> (figure: Result<Polygon, KernelError>)
    ensures
        figure is Err <==> !valid_cycle(lines_of(lines@)),
        figure matches Err(e) ==> e == KernelError::InvalidCycle,
        figure matches Ok(p) ==> p@.exterior == closed_ring(cycle_vertices(lines_of(lines@)))
            && p@.interiors.len() == 0 && ring_in_range(p@.exterior),
{
    let mut copy: Vec<InfiniteLine> = Vec::new();
    let mut i: usize = 0;
    while i < lines.len()
        invariant
            i <= lines.len(),
            copy@ == lines@.take(i as int),
        decreases lines.len() - i,
    {
        copy.push(lines[i]);
        i += 1;
    }
    assert(copy@ == lines@);
    match vertices(&copy) {
        Ok(corners) => {
            proof {
                lemma_closed_ring_in_range(points_of(corners@));
            }
            Ok(Polygon::new(LineString::new(corners), Vec::new()))
        },
        Err(e) => Err(e),
    }
}

/// The ring of the vertices of the polygon that `lines` bound, not closed.
pub fn linestring_from_lines(lines: Vec<&InfiniteLine>) -> (ring: Result<LineString, KernelError>)
    ensures
        ring is Err <==> !valid_cycle(lines_behind(lines@)),
        ring matches Err(e) ==> e == KernelError::InvalidCycle,
        ring matches Ok(s) ==> s@ == cycle_vertices(lines_behind(lines@)) && ring_in_range(s@),
{
    let mut copy: Vec<InfiniteLine> = Vec::new();
    let mut i: usize = 0;
    while i < lines.len()
        invariant
            i <= lines.len(),
            copy.len() == i,
            forall|j: int| 0 <= j < i ==> (#[trigger] copy[j])@ == (*lines[j])@,
        decreases lines.len() - i,
    {
        copy.push(*lines[i]);
        i += 1;
    }
    assert(lines_of(copy@) =~= lines_behind(lines@));
    match vertices(&copy) {
        Ok(corners) => Ok(LineString::new(corners)),
        Err(e) => Err(e),
    }
}

/// The sum of the abscissae of `points`.
pub open spec fn sum_x(points: Seq<Point>) -> int
    decreases points.len(),
{
    if points.len() == 0 {
        0
    } else {
        sum_x(points.drop_last()) + points.last().x
    }
}

/// The sum of the ordinates of `points`.
pub open spec fn sum_y(points: Seq<Point>) -> int
    decreases points.len(),
{
    if points.len() == 0 {
        0
    } else {
        sum_y(points.drop_last()) + points.last().y
    }
}

/// The lattice point nearest to the mean of `points`.
pub open spec fn mean_of(points: Seq<Point>) -> Point {
    Point {
        x: round_div(sum_x(points), points.len() as int),
        y: round_div(sum_y(points), points.len() as int),
    }
}

/// The lattice point nearest to the mean of `pts`: the centre about which a
/// figure of several corners is turned.
pub fn mean_point_vec(pts: &[Coord]) -> (mean: Coord)
    requires
        pts.len() > 0,
        ring_in_range(points_of(pts@)),
    ensures
        mean@ == mean_of(points_of(pts@)),
        in_range(mean@),
{
    let ghost points = points_of(pts@);
    let mut x: i128 = 0;
    let mut y: i128 = 0;
    let mut i: usize = 0;
    assert(points.take(0) =~= Seq::<Point>::empty());
    while i < pts.len()
        invariant
            points == points_of(pts@),
            ring_in_range(points),
            i <= pts.len(),
            x == sum_x(points.take(i as int)),
            y == sum_y(points.take(i as int)),
            -i * COORD_LIMIT <= x <= i * COORD_LIMIT,
            -i * COORD_LIMIT <= y <= i * COORD_LIMIT,
        decreases pts.len() - i,
    {
        let pt = pts[i];
        proof {
            assert(in_range(points[i as int]));
            assert(points.take(i + 1).drop_last() =~= points.take(i as int));
            assert(points.take(i + 1).last() == pt@);
            assert(i * COORD_LIMIT <= 0xFFFF_FFFF_FFFF_FFFF
                * 0x3FFF_FFFF_FFFF_FFFF) by (nonlinear_arith)
                requires
                    0 <= i <= 0xFFFF_FFFF_FFFF_FFFF,
                    COORD_LIMIT == 0x3FFF_FFFF_FFFF_FFFF,
            ;
            assert((i + 1) * COORD_LIMIT == i * COORD_LIMIT
                + COORD_LIMIT) by (nonlinear_arith);
        }
        x = x + pt.x as i128;
        y = y + pt.y as i128;
        i += 1;
    }
    proof {
        assert(points.take(i as int) =~= points);
        assert(i * COORD_LIMIT <= 0xFFFF_FFFF_FFFF_FFFF * 0x3FFF_FFFF_FFFF_FFFF)
            by (nonlinear_arith)
            requires
                0 <= i <= 0xFFFF_FFFF_FFFF_FFFF,
                COORD_LIMIT == 0x3FFF_FFFF_FFFF_FFFF,
        ;
        lemma_mean_is_in_range(x as int, i as int);
        lemma_mean_is_in_range(y as int, i as int);
    }
    let count = pts.len() as i128;
    let mx = rounded_quotient(x, count);
    let my = rounded_quotient(y, count);
    Coord { x: mx as i64, y: my as i64 }
}

/// The mean of `n` numbers of magnitude `COORD_LIMIT` at most has that
/// magnitude at most.
proof fn lemma_mean_is_in_range(sum: int, n: int)
    requires
        n > 0,
        -n * COORD_LIMIT <= sum <= n * COORD_LIMIT,
    ensures
        -COORD_LIMIT <= round_div(sum, n) <= COORD_LIMIT,
{
    let limit = COORD_LIMIT as int;
    let an = if sum < 0 { -sum } else { sum };
    let q = (2 * an + n) / (2 * n);
    assert(q <= limit) by (nonlinear_arith)
        requires
            n > 0,
            0 <= an <= n * limit,
            q == (2 * an + n) / (2 * n),
    ;
    assert(q >= 0) by (nonlinear_arith)
        requires
            n > 0,
            0 <= an,
            q == (2 * an + n) / (2 * n),
    ;
}

} // verus!
