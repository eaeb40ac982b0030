//! The base of a figure: the frame of reference in which it is drawn.

use vstd::prelude::*;
use crate::geometry::{in_range, Coord, Point, COORD_LIMIT};
use crate::roots::{round_div, rounded_quotient};

verus! {

/// An origin and two spanning vectors. The vectors need neither be at right
/// angles nor of the same length: a hexagonal figure stands on two vectors
/// that are 60 degrees apart.
#[derive(Clone, Copy, Debug, PartialEq, Eq, Structural)]
pub struct Base {
    pub origin: Coord,
    pub u: Coord,
    pub v: Coord,
}

impl Base {
    /// The base at `origin` spanned by `pu` and `pv`, as they are given.
    pub fn new(origin: Coord, pu: Coord, pv: Coord) -> (base: Base)
        ensures
            base.origin == origin,
            base.u == pu,
            base.v == pv,
    {
        Base { origin, u: pu, v: pv }
    }
}

/// Half of the vector from `pa` to `pb`, rounded to the lattice, halves away
/// from zero.
pub open spec fn half_way(pa: Point, pb: Point) -> Point {
    Point { x: round_div(pb.x - pa.x, 2), y: round_div(pb.y - pa.y, 2) }
}

/// Half of the vector from `pa` to `pb`, rounded to the lattice.
pub fn mean_point(pa: &Coord, pb: &Coord) -> (half: Coord)
    requires
        in_range(pa@),
        in_range(pb@),
    ensures
        half@ == half_way(pa@, pb@),
        in_range(half@),
{
    let dx = rounded_quotient(pb.x as i128 - pa.x as i128, 2);
    let dy = rounded_quotient(pb.y as i128 - pa.y as i128, 2);
    proof {
        lemma_half_fits(pb.x as int - pa.x as int);
        lemma_half_fits(pb.y as int - pa.y as int);
    }
    Coord { x: dx as i64, y: dy as i64 }
}

/// Half of the difference of two coordinates in range is in range.
proof fn lemma_half_fits(n: int)
    requires
        -2 * COORD_LIMIT <= n <= 2 * COORD_LIMIT,
    ensures
        -COORD_LIMIT <= round_div(n, 2) <= COORD_LIMIT,
{
    let an = if n < 0 { -n } else { n };
    assert(round_div(n, 2) == (2 * an + 2) / 4 || round_div(n, 2) == -((2 * an + 2) / 4));
    assert(0 <= (2 * an + 2) / 4 <= COORD_LIMIT);
}

} // verus!
