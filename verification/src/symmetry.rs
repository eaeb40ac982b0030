//! Rotational symmetry: turning a figure about a pivot, and the copies that
//! make a motif of a wedge.
//!
//! Angles are counted in twelfths of a full turn, counter-clockwise. Their
//! cosines and sines are halves of whole numbers and of whole multiples of
//! the root of three, so a turn needs no number that is not whole but that
//! root. Quarter turns are exact; thirds of a turn are rounded, and come
//! back to within four lattice units.

use vstd::prelude::*;
use crate::geometry::{in_range, ring_in_range, Coord, LineString, Point};
use crate::roots::{
    floor_sqrt, lemma_floor_sqrt, lemma_round_div_exact, lemma_round_div_is_nearest, round_div,
    rounded_quotient, scaled_root, times_root,
};

verus! {

/// Largest magnitude of a coordinate of a point that can be turned, and of
/// the pivot.
pub const TURN_LIMIT: i64 = 0x40_0000_0000;

/// Twice the cosine of `twelfths` twelfths of a full turn, as a whole number
/// and a whole multiple of the root of three.
pub open spec fn cos2(twelfths: int) -> (int, int) {
    let k = twelfths % 12;
    if k == 0 {
        (2, 0)
    } else if k == 1 || k == 11 {
        (0, 1)
    } else if k == 2 || k == 10 {
        (1, 0)
    } else if k == 3 || k == 9 {
        (0, 0)
    } else if k == 4 || k == 8 {
        (-1, 0)
    } else if k == 5 || k == 7 {
        (0, -1)
    } else {
        (-2, 0)
    }
}

/// Twice the sine of `twelfths` twelfths of a full turn: the cosine of the
/// angle a quarter turn less.
pub open spec fn sin2(twelfths: int) -> (int, int) {
    cos2(twelfths + 9)
}

/// Whether `p` and `pivot` are within the limit up to which points are
/// turned.
pub open spec fn turnable(p: Point, pivot: Point) -> bool {
    &&& -TURN_LIMIT <= p.x <= TURN_LIMIT
    &&& -TURN_LIMIT <= p.y <= TURN_LIMIT
    &&& -TURN_LIMIT <= pivot.x <= TURN_LIMIT
    &&& -TURN_LIMIT <= pivot.y <= TURN_LIMIT
}

/// Whether a figure can have `order` equal parts about a pivot: the full
/// turn must be a whole number of twelfths for each.
pub open spec fn symmetry_order(order: int) -> bool {
    order == 1 || order == 2 || order == 3 || order == 4 || order == 6 || order == 12
}

/// Whether every point of `ring` can be turned about `pivot`.
pub open spec fn ring_turnable(ring: Seq<Point>, pivot: Point) -> bool {
    forall|i: int| 0 <= i < ring.len() ==> turnable(#[trigger] ring[i], pivot)
}

/// The lattice point nearest to `p` turned about `pivot` by `twelfths`
/// twelfths of a full turn, counter-clockwise.
#[verifier::opaque]
pub open spec fn turned(p: Point, pivot: Point, twelfths: int) -> Point {
    let (cr, cs) = cos2(twelfths);
    let (sr, ss) = sin2(twelfths);
    let dx = p.x - pivot.x;
    let dy = p.y - pivot.y;
    Point {
        x: pivot.x + round_div(cr * dx - sr * dy + scaled_root(cs * dx - ss * dy, 3), 2),
        y: pivot.y + round_div(sr * dx + cr * dy + scaled_root(ss * dx + cs * dy, 3), 2),
    }
}

/// `ring` with every point turned about `pivot`.
pub open spec fn turned_ring(ring: Seq<Point>, pivot: Point, twelfths: int) -> Seq<Point> {
    Seq::new(ring.len(), |i: int| turned(ring[i], pivot, twelfths))
}

/// The root of three times nothing is nothing.
proof fn lemma_no_root()
    ensures
        scaled_root(0, 3) == 0,
{
    assert(0 * 0 * 3 == 0);
    assert(floor_sqrt(0) == 0);
}

/// Turning by no angle, or by a full turn, moves nothing.
pub proof fn lemma_full_turn(p: Point, pivot: Point)
    ensures
        turned(p, pivot, 0) == p,
        turned(p, pivot, 12) == p,
{
    reveal(turned);
    lemma_no_root();
    let dx = p.x - pivot.x;
    let dy = p.y - pivot.y;
    lemma_round_div_exact(dx, 2);
    lemma_round_div_exact(dy, 2);
    assert(cos2(0) == (2int, 0int) && sin2(0) == (0int, 0int));
    assert(cos2(12) == (2int, 0int) && sin2(12) == (0int, 0int));
    assert(2 * dx - 0 * dy + scaled_root(0 * dx - 0 * dy, 3) == 2 * dx);
    assert(0 * dx + 2 * dy + scaled_root(0 * dx + 0 * dy, 3) == 2 * dy);
}

/// Quarter turns are exact: a quarter turn takes `(dx, dy)` from the pivot
/// to `(-dy, dx)`, a half turn to `(-dx, -dy)`, three quarters to
/// `(dy, -dx)`.
pub proof fn lemma_quarter_turns(p: Point, pivot: Point)
    ensures
        turned(p, pivot, 3) == (Point {
            x: pivot.x - (p.y - pivot.y),
            y: pivot.y + (p.x - pivot.x),
        }),
        turned(p, pivot, 6) == (Point {
            x: pivot.x - (p.x - pivot.x),
            y: pivot.y - (p.y - pivot.y),
        }),
        turned(p, pivot, 9) == (Point {
            x: pivot.x + (p.y - pivot.y),
            y: pivot.y - (p.x - pivot.x),
        }),
{
    reveal(turned);
    lemma_no_root();
    let dx = p.x - pivot.x;
    let dy = p.y - pivot.y;
    lemma_round_div_exact(dx, 2);
    lemma_round_div_exact(dy, 2);
    lemma_round_div_exact(-dx, 2);
    lemma_round_div_exact(-dy, 2);
    assert(cos2(3) == (0int, 0int) && sin2(3) == (2int, 0int));
    assert(cos2(6) == (-2int, 0int) && sin2(6) == (0int, 0int));
    assert(cos2(9) == (0int, 0int) && sin2(9) == (-2int, 0int));
    assert(0 * dx - 2 * dy + scaled_root(0 * dx - 0 * dy, 3) == 2 * (-dy));
    assert(2 * dx + 0 * dy + scaled_root(0 * dx + 0 * dy, 3) == 2 * dx);
    assert((-2) * dx - 0 * dy + scaled_root(0 * dx - 0 * dy, 3) == 2 * (-dx));
    assert(0 * dx + (-2) * dy + scaled_root(0 * dx + 0 * dy, 3) == 2 * (-dy));
    assert(0 * dx - (-2) * dy + scaled_root(0 * dx - 0 * dy, 3) == 2 * dy);
    assert((-2) * dx + 0 * dy + scaled_root(0 * dx + 0 * dy, 3) == 2 * (-dx));
}

/// Four quarter turns, one after the other, bring every point back.
pub proof fn lemma_four_quarter_turns(p: Point, pivot: Point)
    ensures
        turned(turned(turned(turned(p, pivot, 3), pivot, 3), pivot, 3), pivot, 3) == p,
        turned(turned(p, pivot, 6), pivot, 6) == p,
        turned(turned(p, pivot, 3), pivot, 9) == p,
{
    lemma_quarter_turns(p, pivot);
    let p1 = turned(p, pivot, 3);
    lemma_quarter_turns(p1, pivot);
    let p2 = turned(p1, pivot, 3);
    lemma_quarter_turns(p2, pivot);
    let p3 = turned(p2, pivot, 3);
    lemma_quarter_turns(p3, pivot);
    lemma_quarter_turns(turned(p, pivot, 6), pivot);
}

/// The root of three, times `root3_scale()`, rounded down.
pub open spec fn root3_low() -> int {
    0x1bb6_7ae8_584c_aa73
}

/// The scale at which `root3_low()` holds the root of three: two to the
/// sixtieth.
pub open spec fn root3_scale() -> int {
    0x1000_0000_0000_0000
}

/// The root of three times `u`, rounded toward zero, lies between the two
/// fractions that hem in the root of three, times `u`, and misses the lower
/// one by less than one.
pub proof fn lemma_root3_bounds(u: int)
    ensures
        u >= 0 ==> 0x1bb6_7ae8_584c_aa73 * u - 0x1000_0000_0000_0000 < 0x1000_0000_0000_0000
            * scaled_root(u, 3) <= 0x1bb6_7ae8_584c_aa74 * u,
        u < 0 ==> 0x1bb6_7ae8_584c_aa74 * u <= 0x1000_0000_0000_0000 * scaled_root(u, 3)
            < 0x1bb6_7ae8_584c_aa73 * u + 0x1000_0000_0000_0000,
{
    let a = if u < 0 { -u } else { u };
    assert(u * u * 3 == 3 * (a * a) && a * a >= 0) by (nonlinear_arith)
        requires
            a == u || a == -u,
    ;
    let r = floor_sqrt((u * u * 3) as nat) as int;
    lemma_floor_sqrt((u * u * 3) as nat);
    assert(r * r <= 3 * (a * a) < (r + 1) * (r + 1));
    let k = root3_scale();
    let low = root3_low();
    lemma_between_squares(r, a, k, low);
    assert(low * a == 0x1bb6_7ae8_584c_aa73 * a);
    assert((low + 1) * a == 0x1bb6_7ae8_584c_aa74 * a);
    assert(k * r == 0x1000_0000_0000_0000 * r);
}

/// If `r` is the whole part of the root of three times `a`, then `k * r`
/// lies between `low * a - k` and `(low + 1) * a`, where `low / k` and
/// `(low + 1) / k` hem in the root of three.
proof fn lemma_between_squares(r: int, a: int, k: int, low: int)
    requires
        r >= 0,
        a >= 0,
        k == root3_scale(),
        low == root3_low(),
        r * r <= 3 * (a * a) < (r + 1) * (r + 1),
    ensures
        low * a - k < k * r <= (low + 1) * a,
{
    assert(low * low <= 3 * (k * k) < (low + 1) * (low + 1)) by (nonlinear_arith)
        requires
            k == 0x1000_0000_0000_0000,
            low == 0x1bb6_7ae8_584c_aa73,
    ;
    let x = k * r;
    let y = (low + 1) * a;
    let z = low * a;
    let w = k * (r + 1);
    assert(x * x == (k * k) * (r * r)) by (nonlinear_arith)
        requires
            x == k * r,
    ;
    assert(y * y == ((low + 1) * (low + 1)) * (a * a)) by (nonlinear_arith)
        requires
            y == (low + 1) * a,
    ;
    assert(z * z == (low * low) * (a * a)) by (nonlinear_arith)
        requires
            z == low * a,
    ;
    assert(w * w == (k * k) * ((r + 1) * (r + 1))) by (nonlinear_arith)
        requires
            w == k * (r + 1),
    ;
    let aa = a * a;
    let rr = r * r;
    let r1 = (r + 1) * (r + 1);
    let kk = k * k;
    assert(aa >= 0 && kk > 0) by (nonlinear_arith)
        requires
            aa == a * a,
            kk == k * k,
            k > 0,
    ;
    assert(kk * rr <= (3 * kk) * aa) by (nonlinear_arith)
        requires
            rr <= 3 * aa,
            kk > 0,
    ;
    assert((3 * kk) * aa <= ((low + 1) * (low + 1)) * aa) by (nonlinear_arith)
        requires
            3 * kk < (low + 1) * (low + 1),
            aa >= 0,
    ;
    assert(x * x <= y * y);
    assert((low * low) * aa <= (3 * kk) * aa) by (nonlinear_arith)
        requires
            low * low <= 3 * kk,
            aa >= 0,
    ;
    assert((3 * kk) * aa < kk * r1) by (nonlinear_arith)
        requires
            3 * aa < r1,
            kk > 0,
    ;
    assert(z * z < w * w);
    assert(x >= 0 && y >= 0 && z >= 0 && w > 0) by (nonlinear_arith)
        requires
            x == k * r,
            y == (low + 1) * a,
            z == low * a,
            w == k * (r + 1),
            k > 0,
            low > 0,
            r >= 0,
            a >= 0,
    ;
    assert(x <= y) by (nonlinear_arith)
        requires
            x * x <= y * y,
            x >= 0,
            y >= 0,
    ;
    assert(z < w) by (nonlinear_arith)
        requires
            z * z < w * w,
            z >= 0,
            w > 0,
    ;
    assert(w == k * r + k) by (nonlinear_arith)
        requires
            w == k * (r + 1),
    ;
}

/// Whether `a` lies within `tolerance` of `b` in each coordinate.
pub open spec fn near(a: Point, b: Point, tolerance: int) -> bool {
    &&& -tolerance <= a.x - b.x <= tolerance
    &&& -tolerance <= a.y - b.y <= tolerance
}

/// What a third of a turn does to a vector, in whole numbers: with
/// `(dx, dy)` the vector and `(ex, ey)` its image, `2 * ex + dx` misses the
/// root of three times `dy` by little more than one, and `2 * ey + dy` the
/// root of three times `dx`, with signs that tell a turn forward from a turn
/// backward. The root of three stands here as a fraction over two to the
/// sixtieth.
pub open spec fn third_of_a_turn(dx: int, dy: int, ex: int, ey: int, forward: bool) -> bool {
    let slack = 2 * 0x1000_0000_0000_0000 + 0x400_0000_0000;
    if forward {
        &&& -slack <= 0x1000_0000_0000_0000 * (2 * ex + dx) + 0x1bb6_7ae8_584c_aa73 * dy <= slack
        &&& -slack <= 0x1000_0000_0000_0000 * (2 * ey + dy) - 0x1bb6_7ae8_584c_aa73 * dx <= slack
    } else {
        &&& -slack <= 0x1000_0000_0000_0000 * (2 * ex + dx) - 0x1bb6_7ae8_584c_aa73 * dy <= slack
        &&& -slack <= 0x1000_0000_0000_0000 * (2 * ey + dy) + 0x1bb6_7ae8_584c_aa73 * dx <= slack
    }
}

/// Whether `s` is the root of three times `u`, rounded toward zero, as far
/// as the two fractions that hem in the root of three can tell.
pub open spec fn root3_hems(u: int, s: int) -> bool {
    if u >= 0 {
        0x1bb6_7ae8_584c_aa73 * u - 0x1000_0000_0000_0000 < 0x1000_0000_0000_0000 * s
            <= 0x1bb6_7ae8_584c_aa74 * u
    } else {
        0x1bb6_7ae8_584c_aa74 * u <= 0x1000_0000_0000_0000 * s < 0x1bb6_7ae8_584c_aa73 * u
            + 0x1000_0000_0000_0000
    }
}

/// A third of a turn in numbers alone: from the two roots and the two
/// halvings to what `third_of_a_turn` says.
proof fn lemma_third_of_numbers(
    dx: int,
    dy: int,
    sa: int,
    sb: int,
    ex: int,
    ey: int,
    forward: bool,
)
    requires
        -0x400_0000_0000 <= dx <= 0x400_0000_0000,
        -0x400_0000_0000 <= dy <= 0x400_0000_0000,
        root3_hems(if forward { -dy } else { dy }, sa),
        root3_hems(if forward { dx } else { -dx }, sb),
        -1 <= 2 * ex - (-dx + sa) <= 1,
        -1 <= 2 * ey - (-dy + sb) <= 1,
    ensures
        third_of_a_turn(dx, dy, ex, ey, forward),
{
}

/// A turn by a third of a full turn, or by two thirds, which is a third
/// backward, does to a point what `third_of_a_turn` says.
proof fn lemma_third_step(p: Point, pivot: Point, thirds: int)
    requires
        thirds == 1 || thirds == 2,
        -0x400_0000_0000 <= p.x - pivot.x <= 0x400_0000_0000,
        -0x400_0000_0000 <= p.y - pivot.y <= 0x400_0000_0000,
    ensures
        ({
            let q = turned(p, pivot, 4 * thirds);
            third_of_a_turn(
                p.x - pivot.x,
                p.y - pivot.y,
                q.x - pivot.x,
                q.y - pivot.y,
                thirds == 1,
            )
        }),
{
    let (dx, dy) = (p.x - pivot.x, p.y - pivot.y);
    let q = turned(p, pivot, 4 * thirds);
    let forward = thirds == 1;
    let sa = scaled_root(if forward { -dy } else { dy }, 3);
    let sb = scaled_root(if forward { dx } else { -dx }, 3);
    assert(q.x == pivot.x + round_div(-dx + sa, 2) && q.y == pivot.y + round_div(-dy + sb, 2)) by {
        reveal(turned);
        if forward {
            assert(cos2(4) == (-1int, 0int) && sin2(4) == (0int, 1int));
            assert(0 * dx - 1 * dy == -dy && 1 * dx + 0 * dy == dx);
            assert((-1) * dx - 0 * dy + scaled_root(-dy, 3) == -dx + sa);
            assert(0 * dx + (-1) * dy + scaled_root(dx, 3) == -dy + sb);
        } else {
            assert(cos2(8) == (-1int, 0int) && sin2(8) == (0int, -1int));
            assert(0 * dx - (-1) * dy == dy && (-1) * dx + 0 * dy == -dx);
            assert((-1) * dx - 0 * dy + scaled_root(dy, 3) == -dx + sa);
            assert(0 * dx + (-1) * dy + scaled_root(-dx, 3) == -dy + sb);
        }
    }
    lemma_root3_bounds(if forward { -dy } else { dy });
    lemma_root3_bounds(if forward { dx } else { -dx });
    lemma_round_div_is_nearest(-dx + sa, 2);
    lemma_round_div_is_nearest(-dy + sb, 2);
    lemma_third_of_numbers(dx, dy, sa, sb, q.x - pivot.x, q.y - pivot.y, forward);
}

/// Two thirds of a turn in the same sense make a third in the other sense,
/// and two in opposite senses make none, within four units: a fact of
/// numbers alone.
proof fn lemma_two_thirds(
    dx: int,
    dy: int,
    ex: int,
    ey: int,
    fx: int,
    fy: int,
    tx: int,
    ty: int,
    first: bool,
    second: bool,
)
    requires
        -0x80_0000_0000 <= dx <= 0x80_0000_0000,
        -0x80_0000_0000 <= dy <= 0x80_0000_0000,
        third_of_a_turn(dx, dy, ex, ey, first),
        third_of_a_turn(ex, ey, fx, fy, second),
        first != second ==> tx == dx && ty == dy,
        first == second ==> third_of_a_turn(dx, dy, tx, ty, !first),
    ensures
        -4 <= fx - tx <= 4,
        -4 <= fy - ty <= 4,
{
}

/// Three thirds of a turn in the same sense make none, within four units: a
/// fact of numbers alone.
proof fn lemma_three_thirds_of_numbers(
    dx: int,
    dy: int,
    ex: int,
    ey: int,
    fx: int,
    fy: int,
    gx: int,
    gy: int,
)
    requires
        -0x80_0000_0000 <= dx <= 0x80_0000_0000,
        -0x80_0000_0000 <= dy <= 0x80_0000_0000,
        third_of_a_turn(dx, dy, ex, ey, true),
        third_of_a_turn(ex, ey, fx, fy, true),
        third_of_a_turn(fx, fy, gx, gy, true),
    ensures
        -4 <= gx - dx <= 4,
        -4 <= gy - dy <= 4,
{
}

/// A third of a turn moves a point that is within reach of the pivot to a
/// point that is within reach of the pivot for a further turn.
proof fn lemma_third_stays_in_reach(dx: int, dy: int, ex: int, ey: int, forward: bool)
    requires
        -0x100_0000_0000 <= dx <= 0x100_0000_0000,
        -0x100_0000_0000 <= dy <= 0x100_0000_0000,
        third_of_a_turn(dx, dy, ex, ey, forward),
    ensures
        -0x200_0000_0000 <= ex <= 0x200_0000_0000,
        -0x200_0000_0000 <= ey <= 0x200_0000_0000,
{
}

/// Two turns by thirds of a full turn, one after the other, bring a point
/// to within four lattice units of where the turn by their sum brings it:
/// what the two roundings and the one rounding can differ by.
pub proof fn lemma_thirds_compose(p: Point, pivot: Point, first: int, second: int)
    requires
        first == 1 || first == 2,
        second == 1 || second == 2,
        turnable(p, pivot),
    ensures
        near(
            turned(turned(p, pivot, 4 * first), pivot, 4 * second),
            turned(p, pivot, 4 * (first + second)),
            4,
        ),
{
    let once = turned(p, pivot, 4 * first);
    let twice = turned(once, pivot, 4 * second);
    let sum = turned(p, pivot, 4 * (first + second));
    let (dx, dy) = (p.x - pivot.x, p.y - pivot.y);
    lemma_third_step(p, pivot, first);
    lemma_third_stays_in_reach(dx, dy, once.x - pivot.x, once.y - pivot.y, first == 1);
    lemma_third_step(once, pivot, second);
    if first + second == 3 {
        lemma_full_turn(p, pivot);
    } else if first + second == 2 {
        lemma_third_step(p, pivot, 2);
    } else {
        assert(sum == turned(p, pivot, 4)) by {
            reveal(turned);
            assert(cos2(16) == cos2(4) && sin2(16) == sin2(4));
        }
        lemma_third_step(p, pivot, 1);
    }
    lemma_two_thirds(
        dx,
        dy,
        once.x - pivot.x,
        once.y - pivot.y,
        twice.x - pivot.x,
        twice.y - pivot.y,
        sum.x - pivot.x,
        sum.y - pivot.y,
        first == 1,
        second == 1,
    );
}

/// Three thirds of a turn, one after the other, bring a point back to
/// within four lattice units of where it was.
pub proof fn lemma_three_thirds(p: Point, pivot: Point)
    requires
        turnable(p, pivot),
    ensures
        near(turned(turned(turned(p, pivot, 4), pivot, 4), pivot, 4), p, 4),
{
    let once = turned(p, pivot, 4);
    let twice = turned(once, pivot, 4);
    let thrice = turned(twice, pivot, 4);
    let (dx, dy) = (p.x - pivot.x, p.y - pivot.y);
    lemma_third_step(p, pivot, 1);
    lemma_third_stays_in_reach(dx, dy, once.x - pivot.x, once.y - pivot.y, true);
    lemma_third_step(once, pivot, 1);
    lemma_third_stays_in_reach(
        once.x - pivot.x,
        once.y - pivot.y,
        twice.x - pivot.x,
        twice.y - pivot.y,
        true,
    );
    lemma_third_step(twice, pivot, 1);
    lemma_three_thirds_of_numbers(
        dx,
        dy,
        once.x - pivot.x,
        once.y - pivot.y,
        twice.x - pivot.x,
        twice.y - pivot.y,
        thrice.x - pivot.x,
        thrice.y - pivot.y,
    );
}

/// The three copies of a wedge about a pivot have threefold symmetry within
/// four lattice units: every vertex of every copy, turned by a third of a
/// turn, comes to within four units of the same vertex of the next copy,
/// and turned by two thirds, of the copy after that.
pub proof fn lemma_threefold_symmetry(wedge: Seq<Point>, pivot: Point, k: int, i: int)
    requires
        0 <= k < 3,
        0 <= i < wedge.len(),
        turnable(wedge[i], pivot),
    ensures
        near(
            turned(turned_ring(wedge, pivot, 4 * k)[i], pivot, 4),
            turned_ring(wedge, pivot, 4 * ((k + 1) % 3))[i],
            4,
        ),
        near(
            turned(turned_ring(wedge, pivot, 4 * k)[i], pivot, 8),
            turned_ring(wedge, pivot, 4 * ((k + 2) % 3))[i],
            4,
        ),
{
    let v = wedge[i];
    let same = turned(v, pivot, 0);
    let third = turned(v, pivot, 4);
    let two_thirds = turned(v, pivot, 8);
    assert(turned_ring(wedge, pivot, 0)[i] == same);
    assert(turned_ring(wedge, pivot, 4)[i] == third);
    assert(turned_ring(wedge, pivot, 8)[i] == two_thirds);
    lemma_full_turn(v, pivot);
    if k == 1 {
        lemma_thirds_compose(v, pivot, 1, 1);
        lemma_thirds_compose(v, pivot, 1, 2);
        assert(turned(v, pivot, 12) == v);
    } else if k == 2 {
        lemma_thirds_compose(v, pivot, 2, 1);
        lemma_thirds_compose(v, pivot, 2, 2);
        assert(turned(v, pivot, 16) == third) by {
            reveal(turned);
            assert(cos2(16) == cos2(4) && sin2(16) == sin2(4));
        }
    }
}

/// Whether `p` can be turned about `pivot`: what `rotate_point` asks of them.
pub fn can_turn(p: &Coord, pivot: &Coord) -> (fits: bool)
    ensures
        fits == turnable(p@, pivot@),
{
    -TURN_LIMIT <= p.x && p.x <= TURN_LIMIT && -TURN_LIMIT <= p.y && p.y <= TURN_LIMIT
        && -TURN_LIMIT <= pivot.x && pivot.x <= TURN_LIMIT && -TURN_LIMIT <= pivot.y && pivot.y
        <= TURN_LIMIT
}

/// Whether every point of `ring` can be turned about `pivot`: what
/// `rotate_ring` and `replicate` ask of them.
pub fn ring_can_turn(ring: &LineString, pivot: &Coord) -> (fits: bool)
    ensures
        fits == ring_turnable(ring@, pivot@),
{
    let mut i: usize = 0;
    while i < ring.0.len()
        invariant
            i <= ring.0.len(),
            forall|j: int| 0 <= j < i ==> turnable(#[trigger] ring@[j], pivot@),
        decreases ring.0.len() - i,
    {
        if !can_turn(&ring.0[i], pivot) {
            assert(!turnable(ring@[i as int], pivot@));
            return false;
        }
        i += 1;
    }
    true
}

/// Whether a figure can have `order` equal parts about a pivot.
pub fn is_symmetry_order(order: u8) -> (fits: bool)
    ensures
        fits == symmetry_order(order as int),
{
    order == 1 || order == 2 || order == 3 || order == 4 || order == 6 || order == 12
}

/// Twice the cosine and twice the sine of `twelfths` twelfths of a full turn,
/// each as a whole number and a whole multiple of the root of three.
fn turn_parts(twelfths: u8) -> (parts: (i128, i128, i128, i128))
    requires
        twelfths < 12,
    ensures
        (parts.0 as int, parts.1 as int) == cos2(twelfths as int),
        (parts.2 as int, parts.3 as int) == sin2(twelfths as int),
        -2 <= parts.0 <= 2 && -1 <= parts.1 <= 1 && -2 <= parts.2 <= 2 && -1 <= parts.3 <= 1,
{
    if twelfths == 0 {
        (2, 0, 0, 0)
    } else if twelfths == 1 {
        (0, 1, 1, 0)
    } else if twelfths == 2 {
        (1, 0, 0, 1)
    } else if twelfths == 3 {
        (0, 0, 2, 0)
    } else if twelfths == 4 {
        (-1, 0, 0, 1)
    } else if twelfths == 5 {
        (0, -1, 1, 0)
    } else if twelfths == 6 {
        (-2, 0, 0, 0)
    } else if twelfths == 7 {
        (0, -1, -1, 0)
    } else if twelfths == 8 {
        (-1, 0, 0, -1)
    } else if twelfths == 9 {
        (0, 0, -2, 0)
    } else if twelfths == 10 {
        (1, 0, 0, -1)
    } else {
        (0, 1, -1, 0)
    }
}

/// A part of twice a cosine or sine, times a distance from the pivot.
fn part_of(part: i128, d: i128) -> (r: i128)
    requires
        -2 <= part <= 2,
        -0x80_0000_0000 <= d <= 0x80_0000_0000,
    ensures
        r == part * d,
        -0x100_0000_0000 <= r <= 0x100_0000_0000,
        -1 <= part <= 1 ==> -0x80_0000_0000 <= r <= 0x80_0000_0000,
{
    assert(-0x100_0000_0000 <= part * d <= 0x100_0000_0000) by (nonlinear_arith)
        requires
            -2 <= part <= 2,
            -0x80_0000_0000 <= d <= 0x80_0000_0000,
    ;
    assert(-1 <= part <= 1 ==> -0x80_0000_0000 <= part * d <= 0x80_0000_0000) by (nonlinear_arith)
        requires
            -0x80_0000_0000 <= d <= 0x80_0000_0000,
    ;
    part * d
}

/// `p` turned about `pivot` by `twelfths` twelfths of a full turn,
/// counter-clockwise, rounded to the lattice.
pub fn rotate_point(p: &Coord, pivot: &Coord, twelfths: u8) -> (image: Coord)
    requires
        twelfths < 12,
        turnable(p@, pivot@),
    ensures
        image@ == turned(p@, pivot@, twelfths as int),
        in_range(image@),
{
    proof {
        reveal(turned);
    }
    let (cr, cs, sr, ss) = turn_parts(twelfths);
    let dx: i128 = p.x as i128 - pivot.x as i128;
    let dy: i128 = p.y as i128 - pivot.y as i128;
    let along = part_of(cr, dx) - part_of(sr, dy) + times_root(part_of(cs, dx) - part_of(ss, dy), 3);
    let up = part_of(sr, dx) + part_of(cr, dy) + times_root(part_of(ss, dx) + part_of(cs, dy), 3);
    let x = pivot.x as i128 + rounded_quotient(along, 2);
    let y = pivot.y as i128 + rounded_quotient(up, 2);
    Coord { x: x as i64, y: y as i64 }
}

/// `ring` turned about `pivot` by `twelfths` twelfths of a full turn,
/// counter-clockwise, every point rounded to the lattice.
pub fn rotate_ring(ring: &LineString, pivot: &Coord, twelfths: u8) -> (image: LineString)
    requires
        twelfths < 12,
        ring_turnable(ring@, pivot@),
    ensures
        image@ == turned_ring(ring@, pivot@, twelfths as int),
        ring_in_range(image@),
{
    let mut coords: Vec<Coord> = Vec::new();
    let mut i: usize = 0;
    while i < ring.0.len()
        invariant
            twelfths < 12,
            ring_turnable(ring@, pivot@),
            i <= ring.0.len(),
            coords.len() == i,
            forall|j: int|
                0 <= j < i ==> (#[trigger] coords[j])@ == turned(
                    ring@[j],
                    pivot@,
                    twelfths as int,
                ) && in_range(coords[j]@),
        decreases ring.0.len() - i,
    {
        assert(turnable(ring@[i as int], pivot@));
        coords.push(rotate_point(&ring.0[i], pivot, twelfths));
        i += 1;
    }
    let image = LineString::new(coords);
    assert(image@ =~= turned_ring(ring@, pivot@, twelfths as int));
    image
}

/// The `order` copies of `wedge` that make a motif with rotational symmetry
/// of that order about `pivot`: copy `k` is the wedge turned by `k` parts of
/// the full turn. The wedge itself is copy 0, and it is there once.
pub fn replicate(wedge: &LineString, pivot: &Coord, order: u8) -> (copies: Vec<LineString>)
    requires
        symmetry_order(order as int),
        ring_turnable(wedge@, pivot@),
    ensures
        copies.len() == order,
        forall|k: int|
            0 <= k < order ==> (#[trigger] copies[k])@ == turned_ring(
                wedge@,
                pivot@,
                k * (12int / (order as int)),
            ),
        copies[0]@ == wedge@,
{
    let step: u8 = 12 / order;
    proof {
        if order == 1 {
            assert(step == 12);
        } else if order == 2 {
            assert(step == 6);
        } else if order == 3 {
            assert(step == 4);
        } else if order == 4 {
            assert(step == 3);
        } else if order == 6 {
            assert(step == 2);
        } else {
            assert(step == 1);
        }
    }
    let mut copies: Vec<LineString> = Vec::new();
    let mut k: u8 = 0;
    while k < order
        invariant
            symmetry_order(order as int),
            step == 12int / (order as int),
            step * order == 12,
            step > 0,
            ring_turnable(wedge@, pivot@),
            k <= order,
            copies.len() == k,
            forall|j: int|
                0 <= j < k ==> (#[trigger] copies[j])@ == turned_ring(wedge@, pivot@, j * step),
        decreases order - k,
    {
        assert(k * step < 12) by (nonlinear_arith)
            requires
                0 <= k < order,
                step * order == 12,
                step > 0,
        ;
        copies.push(rotate_ring(wedge, pivot, k * step));
        k += 1;
    }
    proof {
        assert forall|i: int| 0 <= i < wedge@.len() implies #[trigger] turned_ring(
            wedge@,
            pivot@,
            0,
        )[i] == wedge@[i] by {
            lemma_full_turn(wedge@[i], pivot@);
        }
        assert(0 * step == 0);
        assert(copies[0]@ =~= wedge@);
    }
    copies
}

} // verus!
