//! Lattice geometry: coordinates, rings and polygons with holes.
//!
//! Every length in this crate is a whole number of lattice units. The lattice
//! is the integer grid on which the clipping stage computes, so a figure that
//! has been brought onto the lattice passes through tiling, framing and
//! clipping without any further rounding.

use vstd::prelude::*;

verus! {

/// The number of lattice units in one unit of a drawing.
pub const LATTICE_SCALE: i64 = 1000;

/// Largest magnitude of a coordinate that the clipping stage accepts.
pub const COORD_LIMIT: i64 = 0x3FFF_FFFF_FFFF_FFFF;

/// A point of the plane with whole coordinates: the mathematical model of a
/// [`Coord`].
pub struct Point {
    pub x: int,
    pub y: int,
}

/// A lattice coordinate.
#[derive(Clone, Copy, Debug, PartialEq, Eq, Structural)]
pub struct Coord {
    pub x: i64,
    pub y: i64,
}

impl Coord {
    /// Whether the coordinate lies in the square that the clipping stage
    /// accepts.
    pub fn is_in_range(&self) -> (fits: bool)
        ensures
            fits == in_range(self@),
    {
        -COORD_LIMIT <= self.x && self.x <= COORD_LIMIT && -COORD_LIMIT <= self.y && self.y
            <= COORD_LIMIT
    }
}

impl View for Coord {
    type V = Point;

    open spec fn view(&self) -> Point {
        Point { x: self.x as int, y: self.y as int }
    }
}

/// Whether `p` lies in the square that the clipping stage accepts.
pub open spec fn in_range(p: Point) -> bool {
    &&& -COORD_LIMIT <= p.x <= COORD_LIMIT
    &&& -COORD_LIMIT <= p.y <= COORD_LIMIT
}

/// Whether every point of `ring` lies in the square that the clipping stage
/// accepts.
pub open spec fn ring_in_range(ring: Seq<Point>) -> bool {
    forall|i: int| 0 <= i < ring.len() ==> in_range(#[trigger] ring[i])
}

/// Whether `p` moved by `(dx, dy)` still has coordinates that fit a machine
/// word.
pub open spec fn shift_fits(p: Point, dx: int, dy: int) -> bool {
    &&& i64::MIN <= p.x + dx <= i64::MAX
    &&& i64::MIN <= p.y + dy <= i64::MAX
}

/// Whether every point of `ring` moved by `(dx, dy)` still has coordinates
/// that fit a machine word.
pub open spec fn ring_shift_fits(ring: Seq<Point>, dx: int, dy: int) -> bool {
    forall|i: int| 0 <= i < ring.len() ==> shift_fits(#[trigger] ring[i], dx, dy)
}

/// `p` moved by `(dx, dy)`.
pub open spec fn displaced(p: Point, dx: int, dy: int) -> Point {
    Point { x: p.x + dx, y: p.y + dy }
}

/// `ring` with every point moved by `(dx, dy)`.
pub open spec fn translated(ring: Seq<Point>, dx: int, dy: int) -> Seq<Point> {
    Seq::new(ring.len(), |i: int| displaced(ring[i], dx, dy))
}

/// A ring is closed when it is empty or ends where it starts.
pub open spec fn is_closed_ring(ring: Seq<Point>) -> bool {
    ring.len() == 0 || ring.first() == ring.last()
}

/// `ring` itself when it is closed, else `ring` followed by its first point.
pub open spec fn closed_ring(ring: Seq<Point>) -> Seq<Point> {
    if is_closed_ring(ring) {
        ring
    } else {
        ring.push(ring[0])
    }
}

/// The points of a sequence of coordinates.
pub open spec fn points_of(coords: Seq<Coord>) -> Seq<Point> {
    Seq::new(coords.len(), |i: int| coords[i]@)
}

/// The point sequences of a sequence of line strings.
pub open spec fn rings_of(strings: Seq<LineString>) -> Seq<Seq<Point>> {
    Seq::new(strings.len(), |i: int| strings[i]@)
}

/// `rings` with every ring closed.
pub open spec fn closed_rings(rings: Seq<Seq<Point>>) -> Seq<Seq<Point>> {
    Seq::new(rings.len(), |i: int| closed_ring(rings[i]))
}

/// `rings` with every point of every ring moved by `(dx, dy)`.
pub open spec fn translated_rings(rings: Seq<Seq<Point>>, dx: int, dy: int) -> Seq<Seq<Point>> {
    Seq::new(rings.len(), |i: int| translated(rings[i], dx, dy))
}

/// An ordered sequence of lattice coordinates: an open path, or a ring whose
/// closing edge runs from the last coordinate back to the first.
#[derive(Debug, PartialEq, Eq)]
pub struct LineString(pub Vec<Coord>);

impl View for LineString {
    type V = Seq<Point>;

    open spec fn view(&self) -> Seq<Point> {
        points_of(self.0@)
    }
}

impl Clone for LineString {
    fn clone(&self) -> (copy: Self)
        ensures
            copy@ == self@,
            copy.0@ == self.0@,
    {
        let mut coords: Vec<Coord> = Vec::new();
        let mut i: usize = 0;
        while i < self.0.len()
            invariant
                i <= self.0.len(),
                coords@ == self.0@.take(i as int),
            decreases self.0.len() - i,
        {
            coords.push(self.0[i]);
            i += 1;
        }
        assert(coords@ == self.0@);
        LineString(coords)
    }
}

impl LineString {
    /// A line string through `coords`, in order.
    pub fn new(coords: Vec<Coord>) -> (string: LineString)
        ensures
            string.0 == coords,
            string@ == points_of(coords@),
    {
        LineString(coords)
    }

    /// The coordinates, in order.
    pub fn into_inner(self) -> (coords: Vec<Coord>)
        ensures
            coords == self.0,
    {
        self.0
    }

    /// Whether the line string is empty or ends where it starts.
    pub fn is_closed(&self) -> (closed: bool)
        ensures
            closed == is_closed_ring(self@),
    {
        let n = self.0.len();
        if n == 0 {
            return true;
        }
        let first = self.0[0];
        let last = self.0[n - 1];
        assert(self@.first() == first@ && self@.last() == last@);
        first.x == last.x && first.y == last.y
    }

    /// Appends the first coordinate unless the line string is closed already.
    pub fn close(&mut self)
        ensures
            final(self)@ == closed_ring(old(self)@),
    {
        if !self.is_closed() {
            let first = self.0[0];
            self.0.push(first);
            assert(self@ =~= old(self)@.push(old(self)@[0]));
        }
    }

    /// Whether every coordinate lies in the square that the clipping stage
    /// accepts.
    pub fn is_in_range(&self) -> (fits: bool)
        ensures
            fits == ring_in_range(self@),
    {
        let mut i: usize = 0;
        while i < self.0.len()
            invariant
                i <= self.0.len(),
                forall|j: int| 0 <= j < i ==> in_range(#[trigger] self@[j]),
            decreases self.0.len() - i,
        {
            if !self.0[i].is_in_range() {
                assert(!in_range(self@[i as int]));
                return false;
            }
            i += 1;
        }
        true
    }

    /// Whether the line string can be moved by `(dx, dy)` with coordinates
    /// that fit a machine word.
    pub fn translation_fits(&self, dx: i64, dy: i64) -> (fits: bool)
        ensures
            fits == ring_shift_fits(self@, dx as int, dy as int),
    {
        let mut i: usize = 0;
        while i < self.0.len()
            invariant
                i <= self.0.len(),
                forall|j: int| 0 <= j < i ==> shift_fits(#[trigger] self@[j], dx as int, dy as int),
            decreases self.0.len() - i,
        {
            let c = self.0[i];
            if c.x.checked_add(dx).is_none() || c.y.checked_add(dy).is_none() {
                assert(!shift_fits(self@[i as int], dx as int, dy as int));
                return false;
            }
            i += 1;
        }
        true
    }

    /// The line string moved by `(dx, dy)`.
    pub fn translate(&self, dx: i64, dy: i64) -> (moved: LineString)
        requires
            ring_shift_fits(self@, dx as int, dy as int),
        ensures
            moved@ == translated(self@, dx as int, dy as int),
    {
        let mut coords: Vec<Coord> = Vec::new();
        let mut i: usize = 0;
        while i < self.0.len()
            invariant
                i <= self.0.len(),
                coords.len() == i,
                ring_shift_fits(self@, dx as int, dy as int),
                forall|j: int| 0 <= j < i ==> (#[trigger] coords[j])@ == displaced(self@[j], dx as int, dy as int),
            decreases self.0.len() - i,
        {
            let c = self.0[i];
            assert(shift_fits(self@[i as int], dx as int, dy as int));
            coords.push(Coord { x: c.x + dx, y: c.y + dy });
            i += 1;
        }
        assert(points_of(coords@) =~= translated(self@, dx as int, dy as int));
        LineString(coords)
    }
}

/// The mathematical model of a [`Polygon`]: its outer ring and its holes.
pub struct PolygonView {
    pub exterior: Seq<Point>,
    pub interiors: Seq<Seq<Point>>,
}

/// Whether every ring of `rings` is closed.
pub open spec fn all_closed(rings: Seq<Seq<Point>>) -> bool {
    forall|i: int| 0 <= i < rings.len() ==> is_closed_ring(#[trigger] rings[i])
}

/// Whether every point of every ring of `rings` lies in the square that the
/// clipping stage accepts.
pub open spec fn rings_in_range(rings: Seq<Seq<Point>>) -> bool {
    forall|i: int| 0 <= i < rings.len() ==> ring_in_range(#[trigger] rings[i])
}

/// Whether every ring of `rings` can be moved by `(dx, dy)` with coordinates
/// that fit a machine word.
pub open spec fn rings_shift_fit(rings: Seq<Seq<Point>>, dx: int, dy: int) -> bool {
    forall|i: int| 0 <= i < rings.len() ==> ring_shift_fits(#[trigger] rings[i], dx, dy)
}

/// Closing a ring yields a closed ring, and leaves a closed ring as it is.
pub proof fn lemma_closed_ring_is_closed(ring: Seq<Point>)
    ensures
        is_closed_ring(closed_ring(ring)),
        closed_ring(closed_ring(ring)) == closed_ring(ring),
        is_closed_ring(ring) ==> closed_ring(ring) == ring,
{
    if !is_closed_ring(ring) {
        let c = ring.push(ring[0]);
        assert(c.first() == ring[0]);
        assert(c.last() == ring[0]);
    }
}

/// Closing a ring keeps it in range.
pub proof fn lemma_closed_ring_in_range(ring: Seq<Point>)
    requires
        ring_in_range(ring),
    ensures
        ring_in_range(closed_ring(ring)),
{
    if !is_closed_ring(ring) {
        let closed = ring.push(ring[0]);
        assert forall|i: int| 0 <= i < closed.len() implies in_range(#[trigger] closed[i]) by {
            if i < ring.len() {
                assert(closed[i] == ring[i]);
            } else {
                assert(closed[i] == ring[0]);
            }
        }
    }
}

/// Moving a ring commutes with closing it.
pub proof fn lemma_translated_closed(ring: Seq<Point>, dx: int, dy: int)
    ensures
        is_closed_ring(translated(ring, dx, dy)) == is_closed_ring(ring),
        closed_ring(translated(ring, dx, dy)) == translated(closed_ring(ring), dx, dy),
{
    let moved = translated(ring, dx, dy);
    if ring.len() > 0 {
        assert(moved.first() == displaced(ring.first(), dx, dy));
        assert(moved.last() == displaced(ring.last(), dx, dy));
    }
    if !is_closed_ring(ring) {
        assert(moved.push(moved[0]) =~= translated(ring.push(ring[0]), dx, dy));
    }
}

/// Moving a ring there and back gives the ring, and two moves add up.
pub proof fn lemma_translation_is_invertible(ring: Seq<Point>, dx: int, dy: int, ex: int, ey: int)
    ensures
        translated(translated(ring, dx, dy), -dx, -dy) == ring,
        translated(translated(ring, dx, dy), ex, ey) == translated(ring, dx + ex, dy + ey),
        translated(ring, 0, 0) == ring,
{
    assert(translated(translated(ring, dx, dy), -dx, -dy) =~= ring);
    assert(translated(translated(ring, dx, dy), ex, ey) =~= translated(ring, dx + ex, dy + ey));
    assert(translated(ring, 0, 0) =~= ring);
}

/// A filled region with holes: an outer ring and any number of inner rings.
/// Every ring of a polygon is closed.
#[derive(Debug, PartialEq, Eq)]
pub struct Polygon {
    pub(crate) exterior: LineString,
    pub(crate) interiors: Vec<LineString>,
}

impl View for Polygon {
    type V = PolygonView;

    closed spec fn view(&self) -> PolygonView {
        PolygonView { exterior: self.exterior@, interiors: rings_of(self.interiors@) }
    }
}

impl Clone for Polygon {
    fn clone(&self) -> (copy: Self)
        ensures
            copy@ == self@,
    {
        proof {
            use_type_invariant(self);
        }
        let exterior = self.exterior.clone();
        let interiors = clone_strings(&self.interiors);
        Polygon { exterior, interiors }
    }
}

/// A copy of `strings`.
pub fn clone_strings(strings: &Vec<LineString>) -> (copy: Vec<LineString>)
    ensures
        rings_of(copy@) == rings_of(strings@),
{
    let mut copy: Vec<LineString> = Vec::new();
    let mut i: usize = 0;
    while i < strings.len()
        invariant
            i <= strings.len(),
            copy.len() == i,
            forall|j: int| 0 <= j < i ==> (#[trigger] copy[j])@ == strings[j]@,
        decreases strings.len() - i,
    {
        copy.push(strings[i].clone());
        i += 1;
    }
    assert(rings_of(copy@) =~= rings_of(strings@));
    copy
}

impl Polygon {
    #[verifier::type_invariant]
    spec fn rings_are_closed(self) -> bool {
        &&& is_closed_ring(self.exterior@)
        &&& all_closed(rings_of(self.interiors@))
    }

    /// The polygon with outer ring `exterior` and holes `interiors`, each of
    /// them closed if it was not.
    pub fn new(exterior: LineString, interiors: Vec<LineString>) -> (polygon: Polygon)
        ensures
            polygon@.exterior == closed_ring(exterior@),
            polygon@.interiors == closed_rings(rings_of(interiors@)),
    {
        let mut exterior = exterior;
        let mut interiors = interiors;
        let ghost given = rings_of(interiors@);
        let ghost outer = exterior@;
        exterior.close();
        let mut i: usize = 0;
        while i < interiors.len()
            invariant
                i <= interiors.len(),
                interiors.len() == given.len(),
                forall|j: int| 0 <= j < i ==> (#[trigger] interiors[j])@ == closed_ring(given[j]),
                forall|j: int| i <= j < interiors.len() ==> (#[trigger] interiors[j])@ == given[j],
            decreases interiors.len() - i,
        {
            let mut ring = interiors[i].clone();
            ring.close();
            interiors.set(i, ring);
            i += 1;
        }
        proof {
            lemma_closed_ring_is_closed(outer);
            assert forall|j: int| 0 <= j < interiors.len() implies is_closed_ring(
                #[trigger] rings_of(interiors@)[j],
            ) by {
                lemma_closed_ring_is_closed(given[j]);
            }
            assert(rings_of(interiors@) =~= closed_rings(given));
        }
        Polygon { exterior, interiors }
    }

    /// The outer ring.
    pub fn exterior(&self) -> (ring: &LineString)
        ensures
            ring@ == self@.exterior,
            is_closed_ring(ring@),
    {
        proof {
            use_type_invariant(self);
        }
        &self.exterior
    }

    /// The holes, in order.
    pub fn interiors(&self) -> (rings: &Vec<LineString>)
        ensures
            rings_of(rings@) == self@.interiors,
            all_closed(rings_of(rings@)),
    {
        proof {
            use_type_invariant(self);
        }
        &self.interiors
    }

    /// Whether the polygon can be moved by `(dx, dy)` with coordinates that
    /// fit a machine word.
    pub fn translation_fits(&self, dx: i64, dy: i64) -> (fits: bool)
        ensures
            fits == (ring_shift_fits(self@.exterior, dx as int, dy as int) && rings_shift_fit(
                self@.interiors,
                dx as int,
                dy as int,
            )),
    {
        if !self.exterior.translation_fits(dx, dy) {
            return false;
        }
        let mut i: usize = 0;
        while i < self.interiors.len()
            invariant
                i <= self.interiors.len(),
                forall|j: int|
                    0 <= j < i ==> ring_shift_fits(
                        #[trigger] rings_of(self.interiors@)[j],
                        dx as int,
                        dy as int,
                    ),
            decreases self.interiors.len() - i,
        {
            if !self.interiors[i].translation_fits(dx, dy) {
                assert(!ring_shift_fits(rings_of(self.interiors@)[i as int], dx as int, dy as int));
                return false;
            }
            i += 1;
        }
        true
    }

    /// The polygon moved by `(dx, dy)`.
    pub fn translate(&self, dx: i64, dy: i64) -> (moved: Polygon)
        requires
            ring_shift_fits(self@.exterior, dx as int, dy as int),
            rings_shift_fit(self@.interiors, dx as int, dy as int),
        ensures
            moved@.exterior == translated(self@.exterior, dx as int, dy as int),
            moved@.interiors == translated_rings(self@.interiors, dx as int, dy as int),
    {
        proof {
            use_type_invariant(self);
        }
        let exterior = self.exterior.translate(dx, dy);
        let mut interiors: Vec<LineString> = Vec::new();
        let mut i: usize = 0;
        while i < self.interiors.len()
            invariant
                i <= self.interiors.len(),
                interiors.len() == i,
                rings_shift_fit(rings_of(self.interiors@), dx as int, dy as int),
                forall|j: int| 0 <= j < i ==> (#[trigger] interiors[j])@ == translated(self.interiors[j]@, dx as int, dy as int),
            decreases self.interiors.len() - i,
        {
            assert(ring_shift_fits(rings_of(self.interiors@)[i as int], dx as int, dy as int));
            interiors.push(self.interiors[i].translate(dx, dy));
            i += 1;
        }
        proof {
            lemma_translated_closed(self.exterior@, dx as int, dy as int);
            assert forall|j: int| 0 <= j < interiors.len() implies is_closed_ring(
                #[trigger] rings_of(interiors@)[j],
            ) by {
                lemma_translated_closed(self.interiors[j]@, dx as int, dy as int);
                assert(is_closed_ring(rings_of(self.interiors@)[j]));
            }
            assert(rings_of(interiors@) =~= translated_rings(rings_of(self.interiors@), dx as int, dy as int));
        }
        Polygon { exterior, interiors }
    }
}

} // verus!
