//! The clipping stage: bounds a set of rings to a frame.
//!
//! Each ring is intersected with the clipping ring by the Clipper library.
//! Of every piece that comes back only the outer boundary is kept; the kept
//! boundaries become the holes of one polygon whose outer ring is the
//! contour. A ring of which nothing is left inside the frame is reported by
//! its index.

use vstd::prelude::*;
use crate::error::KernelError;
use crate::geometry::{
    all_closed, closed_ring, closed_rings, is_closed_ring, lemma_closed_ring_is_closed,
    ring_in_range, rings_in_range, rings_of, Coord, LineString, Point, Polygon, PolygonView,
};

verus! {

/// The polygons that the Clipper library returns as the intersection of the
/// region bounded by `subject` with the region bounded by `clip`, both taken
/// as polygons without holes.
pub uninterp spec fn clipper_intersection(subject: Seq<Point>, clip: Seq<Point>) -> Seq<
    PolygonView,
>;

/// The models of a sequence of polygons.
pub open spec fn polygon_views(polygons: Seq<Polygon>) -> Seq<PolygonView> {
    Seq::new(polygons.len(), |i: int| polygons[i]@)
}

/// The outer rings of `pieces`, in order.
pub open spec fn exteriors(pieces: Seq<PolygonView>) -> Seq<Seq<Point>> {
    Seq::new(pieces.len(), |i: int| pieces[i].exterior)
}

/// The boundaries that clipping keeps of `rings`: for each ring in turn, the
/// outer rings of the pieces that the clipping library returns for it.
pub open spec fn kept_boundaries(rings: Seq<Seq<Point>>, clip: Seq<Point>) -> Seq<Seq<Point>>
    decreases rings.len(),
{
    if rings.len() == 0 {
        Seq::empty()
    } else {
        kept_boundaries(rings.drop_last(), clip) + exteriors(
            clipper_intersection(rings.last(), clip),
        )
    }
}

/// The indices, in rising order, of the rings of `rings` for which the
/// clipping library returns no piece.
pub open spec fn dropped_rings(rings: Seq<Seq<Point>>, clip: Seq<Point>) -> Seq<int>
    decreases rings.len(),
{
    if rings.len() == 0 {
        Seq::empty()
    } else if clipper_intersection(rings.last(), clip).len() == 0 {
        dropped_rings(rings.drop_last(), clip).push(rings.len() - 1)
    } else {
        dropped_rings(rings.drop_last(), clip)
    }
}

/// Rings are clipped one by one: what is kept of two lots of rings is what
/// is kept of the first lot followed by what is kept of the second.
pub proof fn lemma_kept_boundaries_of_lots(
    first: Seq<Seq<Point>>,
    second: Seq<Seq<Point>>,
    clip: Seq<Point>,
)
    ensures
        kept_boundaries(first + second, clip) == kept_boundaries(first, clip) + kept_boundaries(
            second,
            clip,
        ),
    decreases second.len(),
{
    if second.len() == 0 {
        assert(first + second =~= first);
        assert(kept_boundaries(first, clip) + kept_boundaries(second, clip) =~= kept_boundaries(
            first,
            clip,
        ));
    } else {
        let fewer = second.drop_last();
        lemma_kept_boundaries_of_lots(first, fewer, clip);
        assert((first + second).drop_last() =~= first + fewer);
        assert((first + second).last() == second.last());
        let tail = exteriors(clipper_intersection(second.last(), clip));
        assert((kept_boundaries(first, clip) + kept_boundaries(fewer, clip)) + tail
            =~= kept_boundaries(first, clip) + (kept_boundaries(fewer, clip) + tail));
    }
}

/// A ring of which the clipping library returns nothing leaves no hole, and
/// is reported; a ring of which it returns a piece is not reported.
pub proof fn lemma_single_ring(ring: Seq<Point>, clip: Seq<Point>)
    ensures
        kept_boundaries(seq![ring], clip) == exteriors(clipper_intersection(ring, clip)),
        clipper_intersection(ring, clip).len() == 0 ==> kept_boundaries(seq![ring], clip).len() == 0
            && dropped_rings(seq![ring], clip) == seq![0int],
        clipper_intersection(ring, clip).len() > 0 ==> dropped_rings(seq![ring], clip).len() == 0,
{
    let one = seq![ring];
    assert(one.drop_last() =~= Seq::<Seq<Point>>::empty());
    assert(one.last() == ring);
    assert(kept_boundaries(one.drop_last(), clip) =~= Seq::<Seq<Point>>::empty());
    assert(kept_boundaries(one, clip) =~= exteriors(clipper_intersection(ring, clip)));
    assert(dropped_rings(one.drop_last(), clip) =~= Seq::<int>::empty());
    if clipper_intersection(ring, clip).len() == 0 {
        assert(dropped_rings(one, clip) =~= seq![0int]);
    }
}

/// Calls `geo_clipper::ClipperInt::intersection` on two polygons without
/// holes, built with `geo_types::Polygon::new` from the two rings.
///
/// Trusted, not proved: the pieces are those that the library returns for
/// these two rings, each piece with its rings in the library's order and
/// coordinate for coordinate; the same two rings always give the same
/// pieces; and every ring of every piece is closed, because the library
/// builds each piece with `geo_types::Polygon::new`. The library aborts on a
/// coordinate beyond `COORD_LIMIT`, which the precondition excludes.
#[verifier::external_body]
fn clipper_pieces(subject: &LineString, clip: &LineString) -> (pieces: Vec<Polygon>)
    requires
        ring_in_range(subject@),
        ring_in_range(clip@),
    ensures
        polygon_views(pieces@) == clipper_intersection(subject@, clip@),
        forall|i: int|
            0 <= i < pieces.len() ==> is_closed_ring((#[trigger] pieces[i])@.exterior)
                && all_closed(pieces[i]@.interiors),
{
    let there = |s: &LineString| geo_types::LineString::from_iter(s.0.iter().map(|c| (c.x, c.y)));
    let back = |r: &geo_types::LineString<i64>| LineString(r.0.iter().map(|c| Coord { x: c.x, y: c.y }).collect());
    let subject = geo_types::Polygon::new(there(subject), vec![]);
    let clip = geo_types::Polygon::new(there(clip), vec![]);
    geo_clipper::ClipperInt::intersection(&subject, &clip).iter().map(|p| Polygon {
        exterior: back(p.exterior()),
        interiors: p.interiors().iter().map(back).collect(),
    }).collect()
}

/// The outer rings of `pieces`, in order: what clipping keeps of the pieces
/// of one ring.
pub fn exterior_rings(pieces: &Vec<Polygon>) -> (rings: Vec<LineString>)
    ensures
        rings_of(rings@) == exteriors(polygon_views(pieces@)),
        all_closed(rings_of(rings@)),
{
    let mut rings: Vec<LineString> = Vec::new();
    let mut i: usize = 0;
    while i < pieces.len()
        invariant
            i <= pieces.len(),
            rings.len() == i,
            forall|j: int| 0 <= j < i ==> (#[trigger] rings[j])@ == pieces[j]@.exterior,
            forall|j: int| 0 <= j < i ==> is_closed_ring((#[trigger] rings[j])@),
        decreases pieces.len() - i,
    {
        rings.push(pieces[i].exterior().clone());
        i += 1;
    }
    assert(rings_of(rings@) =~= exteriors(polygon_views(pieces@)));
    rings
}

/// The outcome of clipping a set of rings to a frame.
#[derive(Debug)]
pub struct Clipping {
    /// The contour, with the kept boundaries as its holes.
    pub figure: Polygon,
    /// The indices of the rings of which nothing was left, in rising order.
    pub dropped: Vec<usize>,
}

impl Clipping {
    /// The failure to report if the caller does not want to lose a ring:
    /// none if every ring left something, else how many left nothing.
    pub fn failure(&self) -> (failure: Option<KernelError>)
        ensures
            failure == if self.dropped@.len() == 0 {
                None::<KernelError>
            } else {
                Some(KernelError::ClippingFailure { dropped: self.dropped.len() })
            },
    {
        if self.dropped.len() == 0 {
            None
        } else {
            Some(KernelError::ClippingFailure { dropped: self.dropped.len() })
        }
    }
}

/// The indices held by `indices`, as mathematical integers.
pub open spec fn index_values(indices: Seq<usize>) -> Seq<int> {
    Seq::new(indices.len(), |i: int| indices[i] as int)
}

/// Clips every ring of `interiors` to the region bounded by `clipping_line`
/// and reports the rings of which nothing is left.
///
/// The figure has `contour_line`, closed, as its outer ring. Its holes are,
/// for each ring of `interiors` in turn, the outer boundaries of the pieces
/// that the clipping library returns for that ring; holes inside a piece are
/// not kept. A ring of which nothing is left contributes no hole and is
/// listed by its index, so that none is lost without trace.
pub fn intersect(
    interiors: &[LineString],
    contour_line: LineString,
    clipping_line: LineString,
) -> (outcome: Clipping)
    requires
        rings_in_range(rings_of(interiors@)),
        ring_in_range(clipping_line@),
    ensures
        outcome.figure@.exterior == closed_ring(contour_line@),
        outcome.figure@.interiors == kept_boundaries(rings_of(interiors@), clipping_line@),
        index_values(outcome.dropped@) == dropped_rings(rings_of(interiors@), clipping_line@),
{
    let ghost rings = rings_of(interiors@);
    let ghost clip = clipping_line@;
    let mut lines: Vec<LineString> = Vec::new();
    let mut dropped: Vec<usize> = Vec::new();
    let mut i: usize = 0;
    proof {
        assert(rings.take(0) =~= Seq::<Seq<Point>>::empty());
        assert(rings_of(lines@) =~= kept_boundaries(rings.take(0), clip));
        assert(index_values(dropped@) =~= dropped_rings(rings.take(0), clip));
    }
    while i < interiors.len()
        invariant
            i <= interiors.len(),
            rings == rings_of(interiors@),
            clip == clipping_line@,
            rings_in_range(rings),
            ring_in_range(clip),
            rings_of(lines@) == kept_boundaries(rings.take(i as int), clip),
            all_closed(rings_of(lines@)),
            index_values(dropped@) == dropped_rings(rings.take(i as int), clip),
        decreases interiors.len() - i,
    {
        assert(ring_in_range(rings[i as int]));
        let pieces = clipper_pieces(&interiors[i], &clipping_line);
        let mut kept = exterior_rings(&pieces);
        let ghost before = rings_of(lines@);
        let ghost added = rings_of(kept@);
        if pieces.len() == 0 {
            dropped.push(i);
        }
        lines.append(&mut kept);
        proof {
            let upto = rings.take(i + 1);
            assert(upto.drop_last() =~= rings.take(i as int));
            assert(upto.last() == rings[i as int]);
            assert(rings_of(lines@) =~= before + added);
            assert(index_values(dropped@) =~= dropped_rings(upto, clip));
        }
        i += 1;
    }
    proof {
        assert(rings.take(i as int) =~= rings);
        assert forall|j: int| 0 <= j < lines.len() implies closed_ring(
            #[trigger] rings_of(lines@)[j],
        ) == rings_of(lines@)[j] by {
            lemma_closed_ring_is_closed(rings_of(lines@)[j]);
        }
        assert(closed_rings(rings_of(lines@)) =~= rings_of(lines@));
    }
    Clipping { figure: Polygon::new(contour_line, lines), dropped }
}

} // verus!
