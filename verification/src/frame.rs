//! Frames: the pair of rings that bounds a tiling.
//!
//! The inner ring is the region to which the tiling is clipped; the outer
//! ring, a margin further out, is the contour of the finished figure. A
//! simple frame has a rectangle for either; a zigzag frame has its lower and
//! upper outer sides cut in teeth.

use vstd::prelude::*;
use crate::geometry::{
    closed_ring, points_of, ring_in_range, rings_in_range, rings_of, Coord, LineString, Point,
};
use crate::operations::{dropped_rings, index_values, intersect, kept_boundaries, Clipping};

verus! {

/// The four corners of the rectangle with lower left corner `origin` and the
/// given `width` and `height`, widened by `margin` on every side: lower
/// left, lower right, upper right, upper left.
pub open spec fn rectangle_corners(origin: Point, width: int, height: int, margin: int) -> Seq<
    Point,
> {
    let xmin = origin.x - margin;
    let xmax = origin.x + width + margin;
    let ymin = origin.y - margin;
    let ymax = origin.y + height + margin;
    seq![
        Point { x: xmin, y: ymin },
        Point { x: xmax, y: ymin },
        Point { x: xmax, y: ymax },
        Point { x: xmin, y: ymax },
    ]
}

/// Whether the corners of that rectangle, and the sums on the way to them,
/// have coordinates that fit a machine word.
pub open spec fn rectangle_fits(origin: Point, width: int, height: int, margin: int) -> bool {
    &&& i64::MIN <= origin.x - margin <= i64::MAX
    &&& i64::MIN <= origin.y - margin <= i64::MAX
    &&& i64::MIN <= origin.x + width <= i64::MAX
    &&& i64::MIN <= origin.y + height <= i64::MAX
    &&& i64::MIN <= origin.x + width + margin <= i64::MAX
    &&& i64::MIN <= origin.y + height + margin <= i64::MAX
}

/// Whether `n` fits a machine word.
pub open spec fn word_fits(n: int) -> bool {
    i64::MIN <= n <= i64::MAX
}

/// Whether `n` fits a machine word.
fn fits_word(n: i128) -> (fits: bool)
    ensures
        fits == word_fits(n as int),
{
    -0x8000_0000_0000_0000 <= n && n <= 0x7FFF_FFFF_FFFF_FFFF
}

/// Whether the corners of the rectangle, and the sums on the way to them,
/// fit a machine word: what `rectangular_contour_vertices` asks of its
/// arguments.
pub fn rectangle_is_representable(origin: &Coord, width: i64, height: i64, margin: i64) -> (fits:
    bool)
    ensures
        fits == rectangle_fits(origin@, width as int, height as int, margin as int),
{
    let (x, y) = (origin.x as i128, origin.y as i128);
    let (w, h, m) = (width as i128, height as i128, margin as i128);
    fits_word(x - m) && fits_word(y - m) && fits_word(x + w) && fits_word(y + h) && fits_word(
        x + w + m,
    ) && fits_word(y + h + m)
}

/// The corners of the rectangle with lower left corner `origin` and the given
/// `width` and `height`, widened by `margin` on every side.
pub fn rectangular_contour_vertices(origin: Coord, width: i64, height: i64, margin: i64) -> (corners:
    Vec<Coord>)
    requires
        rectangle_fits(origin@, width as int, height as int, margin as int),
    ensures
        points_of(corners@) == rectangle_corners(
            origin@,
            width as int,
            height as int,
            margin as int,
        ),
{
    let xmin = origin.x - margin;
    let xmax = origin.x + width + margin;
    let ymin = origin.y - margin;
    let ymax = origin.y + height + margin;
    let mut corners: Vec<Coord> = Vec::new();
    corners.push(Coord { x: xmin, y: ymin });
    corners.push(Coord { x: xmax, y: ymin });
    corners.push(Coord { x: xmax, y: ymax });
    corners.push(Coord { x: xmin, y: ymax });
    assert(points_of(corners@) =~= rectangle_corners(
        origin@,
        width as int,
        height as int,
        margin as int,
    ));
    corners
}

/// A frame about a rectangle: the inner rectangle has its lower left corner
/// at the origin of the frame, and the width and height of the frame.
pub trait RectangularFrame {
    /// The lower left corner of the inner rectangle.
    spec fn corner(&self) -> Point;

    /// The width and the height of the inner rectangle.
    spec fn span(&self) -> (int, int);

    fn origin(&self) -> (origin: Coord)
        ensures
            origin@ == self.corner(),
    ;

    fn width(&self) -> (width: i64)
        ensures
            width == self.span().0,
    ;

    fn height(&self) -> (height: i64)
        ensures
            height == self.span().1,
    ;

    /// The corners of the inner rectangle widened by `margin` on every
    /// side: lower left, lower right, upper right, upper left.
    fn rectangular_contour_vertices(&self, margin: i64) -> (corners: Vec<Coord>)
        requires
            rectangle_fits(self.corner(), self.span().0, self.span().1, margin as int),
        ensures
            points_of(corners@) == rectangle_corners(
                self.corner(),
                self.span().0,
                self.span().1,
                margin as int,
            ),
    {
        rectangular_contour_vertices(self.origin(), self.width(), self.height(), margin)
    }
}

/// A frame: an inner ring to clip to, and an outer ring that becomes the
/// contour of the framed figure.
pub trait Frame {
    /// The inner ring.
    spec fn inner_ring(&self) -> Seq<Point>;

    /// The outer ring.
    spec fn outer_ring(&self) -> Seq<Point>;

    /// Whether both rings can be drawn: every side comes to an end, and
    /// all coordinates fit a machine word.
    spec fn representable(&self) -> bool;

    /// Whether both rings can be drawn: what the contours ask of the frame.
    fn is_representable(&self) -> (fits: bool)
        ensures
            fits == self.representable(),
    ;

    /// The ring to which a tiling is clipped.
    fn inner_contour(&self) -> (ring: LineString)
        requires
            self.representable(),
        ensures
            ring@ == self.inner_ring(),
    ;

    /// The contour of the framed figure.
    fn outer_contour(&self) -> (ring: LineString)
        requires
            self.representable(),
        ensures
            ring@ == self.outer_ring(),
    ;

    /// Clips `interiors` to the inner ring, sets what is kept of them, as
    /// holes, into the outer ring, and reports the rings of which nothing is
    /// left.
    fn frame(&self, interiors: &[LineString]) -> (outcome: Clipping)
        requires
            self.representable(),
            ring_in_range(self.inner_ring()),
            rings_in_range(rings_of(interiors@)),
        ensures
            outcome.figure@.exterior == closed_ring(self.outer_ring()),
            outcome.figure@.interiors == kept_boundaries(rings_of(interiors@), self.inner_ring()),
            index_values(outcome.dropped@) == dropped_rings(
                rings_of(interiors@),
                self.inner_ring(),
            ),
    {
        let contour_line = self.outer_contour();
        let clipping_line = self.inner_contour();
        intersect(interiors, contour_line, clipping_line)
    }
}

/// A rectangular frame.
pub struct SimpleFrame {
    /// Origin of the inner frame (lower left corner)
    origin: Coord,
    /// Width of the inner frame
    width: i64,
    /// Height of the inner frame
    height: i64,
    /// Margin around the inner frame
    margin: i64,
}

/// The mathematical model of a rectangular frame: the lower left corner,
/// the width and the height of its inner rectangle, and the distance from
/// there to its outer rectangle.
pub struct RectangleView {
    pub origin: Point,
    pub width: int,
    pub height: int,
    pub margin: int,
}

impl View for SimpleFrame {
    type V = RectangleView;

    closed spec fn view(&self) -> RectangleView {
        RectangleView {
            origin: self.origin@,
            width: self.width as int,
            height: self.height as int,
            margin: self.margin as int,
        }
    }
}

impl SimpleFrame {
    /// The frame whose inner rectangle has lower left corner `origin` and the
    /// given `width` and `height`, and whose outer rectangle lies `margin`
    /// further out on every side.
    pub fn new(origin: Coord, width: i64, height: i64, margin: i64) -> (frame: SimpleFrame)
        ensures
            frame@.origin == origin@,
            frame@.width == width,
            frame@.height == height,
            frame@.margin == margin,
    {
        SimpleFrame { origin, width, height, margin }
    }
}

impl RectangularFrame for SimpleFrame {
    open spec fn corner(&self) -> Point {
        self@.origin
    }

    open spec fn span(&self) -> (int, int) {
        (self@.width, self@.height)
    }

    fn origin(&self) -> (origin: Coord) {
        self.origin
    }

    fn width(&self) -> (width: i64) {
        self.width
    }

    fn height(&self) -> (height: i64) {
        self.height
    }
}

impl Frame for SimpleFrame {
    open spec fn inner_ring(&self) -> Seq<Point> {
        rectangle_corners(self@.origin, self@.width, self@.height, 0)
    }

    open spec fn outer_ring(&self) -> Seq<Point> {
        rectangle_corners(self@.origin, self@.width, self@.height, self@.margin)
    }

    open spec fn representable(&self) -> bool {
        rectangle_fits(self@.origin, self@.width, self@.height, self@.margin)
    }

    fn is_representable(&self) -> (fits: bool) {
        rectangle_is_representable(&self.origin, self.width, self.height, self.margin)
    }

    fn inner_contour(&self) -> (ring: LineString) {
        LineString::new(self.rectangular_contour_vertices(0))
    }

    fn outer_contour(&self) -> (ring: LineString) {
        LineString::new(self.rectangular_contour_vertices(self.margin))
    }
}

/// A countdown that bounds the number of teeth of a zigzag: `Some(n)` lets
/// `n` more steps pass, `None` any number.
#[derive(Debug)]
pub struct Iter {
    n: Option<u16>,
}

impl Iter {
    /// The number of steps that may still be taken, if it is bounded.
    pub closed spec fn remaining(&self) -> Option<u16> {
        self.n
    }

    /// A countdown from `n`.
    pub fn new(n: &Option<u16>) -> (iter: Iter)
        ensures
            iter.remaining() == *n,
    {
        Iter { n: *n }
    }

    /// Takes one step.
    pub fn next(&mut self)
        requires
            old(self).remaining() != Some(0u16),
        ensures
            final(self).remaining() == match old(self).remaining() {
                Some(n) => Some((n - 1) as u16),
                None => None,
            },
    {
        if let Some(nn) = self.n {
            self.n = Some(nn - 1);
        }
    }

    /// Whether no step may be taken any more.
    pub fn is_done(&self) -> (done: bool)
        ensures
            done == (self.remaining() == Some(0u16)),
    {
        if let Some(n) = self.n {
            n == 0
        } else {
            false
        }
    }
}

/// How one side of a zigzag frame is cut.
#[derive(Debug)]
pub struct SideParams {
    /// Length of the first run along the side.
    pub phi: i64,
    /// Length of every further run.
    pub delta: i64,
    /// The largest number of teeth, if it is bounded.
    pub n: Option<u16>,
    /// Whether the side starts on its inner level.
    pub inverse: bool,
}

/// How the four sides of a zigzag frame are cut, and how deep.
pub struct FrameParams<'a> {
    pub bottom: &'a SideParams,
    pub right: &'a SideParams,
    pub top: &'a SideParams,
    pub left: &'a SideParams,
    /// Distance between the two levels of a side.
    pub depth: i64,
}

/// The number of teeth of a zigzag that has `gap` left to cover after its
/// first run, covers `stride` with every tooth, and may have at most `limit`
/// teeth: the least number of strides that covers the gap, capped by the
/// limit.
pub open spec fn zigzag_steps(gap: int, stride: int, limit: Option<u16>) -> nat {
    if gap <= 0 {
        0
    } else if stride > 0 {
        let need = ((gap + stride - 1) / stride) as nat;
        match limit {
            Some(n) => if (n as nat) < need { n as nat } else { need },
            None => need,
        }
    } else {
        match limit {
            Some(n) => n as nat,
            None => 0,
        }
    }
}

/// Whether such a zigzag comes to an end: the gap is covered from the start,
/// or every tooth makes headway, or the number of teeth is bounded.
pub open spec fn zigzag_ends(gap: int, stride: int, limit: Option<u16>) -> bool {
    gap <= 0 || stride > 0 || limit is Some
}

/// The `i`-th point of the zigzag that starts at `start`, runs rightward or
/// leftward, first by `phi` and then by `delta` at a time, and before every
/// run but the first changes level, first by `rise` and then back.
pub open spec fn zigzag_point(
    start: Point,
    rightward: bool,
    phi: int,
    delta: int,
    rise: int,
    i: int,
) -> Point {
    if i <= 0 {
        start
    } else {
        let run = phi + ((i - 1) / 2) * delta;
        Point {
            x: if rightward { start.x + run } else { start.x - run },
            y: if (i / 2) % 2 == 1 { start.y + rise } else { start.y },
        }
    }
}

/// The zigzag of `steps` teeth, with its last point moved along its run to
/// `end`.
pub open spec fn zigzag_string(
    start: Point,
    rightward: bool,
    phi: int,
    delta: int,
    rise: int,
    steps: nat,
    end: int,
) -> Seq<Point> {
    Seq::new(
        2 * steps + 2,
        |i: int|
            if i == 2 * steps + 1 {
                Point { x: end, y: zigzag_point(start, rightward, phi, delta, rise, i).y }
            } else {
                zigzag_point(start, rightward, phi, delta, rise, i)
            },
    )
}

/// Whether every point of the zigzag of `steps` teeth has coordinates that
/// fit a machine word.
pub open spec fn zigzag_fits(
    start: Point,
    rightward: bool,
    phi: int,
    delta: int,
    rise: int,
    steps: nat,
) -> bool {
    forall|i: int|
        0 <= i <= 2 * steps + 1 ==> point_fits(
            #[trigger] zigzag_point(start, rightward, phi, delta, rise, i),
        )
}

/// The number of teeth is the first count at which the gap is covered or the
/// limit is reached.
pub proof fn lemma_zigzag_steps_is_first(gap: int, stride: int, limit: Option<u16>)
    requires
        zigzag_ends(gap, stride, limit),
    ensures
        ({
            let k = zigzag_steps(gap, stride, limit) as int;
            &&& gap - k * stride <= 0 || limit == Some(k as u16)
            &&& forall|j: int|
                0 <= j < k ==> gap - #[trigger] (j * stride) > 0 && limit != Some(j as u16)
        }),
{
    let k = zigzag_steps(gap, stride, limit) as int;
    if gap > 0 && stride > 0 {
        let need = (gap + stride - 1) / stride;
        assert((need - 1) * stride < gap <= need * stride) by (nonlinear_arith)
            requires
                gap > 0,
                stride > 0,
                need == (gap + stride - 1) / stride,
        ;
        assert(k <= need);
        assert forall|j: int| 0 <= j < k implies gap - #[trigger] (j * stride) > 0 && limit
            != Some(j as u16) by {
            assert(j * stride <= (need - 1) * stride) by (nonlinear_arith)
                requires
                    0 <= j <= need - 1,
                    stride > 0,
            ;
        }
    } else if gap > 0 {
        assert forall|j: int| 0 <= j < k implies gap - #[trigger] (j * stride) > 0 && limit
            != Some(j as u16) by {
            assert(j * stride <= 0) by (nonlinear_arith)
                requires
                    0 <= j,
                    stride <= 0,
            ;
        }
    }
}

/// Whether the coordinates of `p` fit a machine word.
pub open spec fn point_fits(p: Point) -> bool {
    i64::MIN <= p.x <= i64::MAX && i64::MIN <= p.y <= i64::MAX
}

/// The abscissa of a zigzag after its first run and `j` teeth.
pub open spec fn zigzag_x(start: Point, rightward: bool, phi: int, delta: int, j: int) -> int {
    if rightward {
        start.x + (phi + j * delta)
    } else {
        start.x - (phi + j * delta)
    }
}

/// A zigzag fits when its start, the ends of its first and last runs and,
/// if it has a tooth, its second level fit.
pub proof fn lemma_zigzag_fits_at_its_ends(
    start: Point,
    rightward: bool,
    phi: int,
    delta: int,
    rise: int,
    steps: nat,
)
    ensures
        zigzag_fits(start, rightward, phi, delta, rise, steps) <==> {
            &&& point_fits(start)
            &&& i64::MIN <= zigzag_x(start, rightward, phi, delta, 0) <= i64::MAX
            &&& i64::MIN <= zigzag_x(start, rightward, phi, delta, steps as int) <= i64::MAX
            &&& steps >= 1 ==> i64::MIN <= start.y + rise <= i64::MAX
        },
{
    let k = steps as int;
    let at = |i: int| zigzag_point(start, rightward, phi, delta, rise, i);
    assert(0 * delta == 0);
    if zigzag_fits(start, rightward, phi, delta, rise, steps) {
        assert(at(0) == start);
        assert(at(1).x == zigzag_x(start, rightward, phi, delta, 0));
        assert(((2 * k + 1) - 1) / 2 == k);
        assert(at(2 * k + 1).x == zigzag_x(start, rightward, phi, delta, k));
        if steps >= 1 {
            assert(at(2).y == start.y + rise);
        }
    }
    if point_fits(start) && i64::MIN <= zigzag_x(start, rightward, phi, delta, 0) <= i64::MAX
        && i64::MIN <= zigzag_x(start, rightward, phi, delta, k) <= i64::MAX && (steps >= 1
        ==> i64::MIN <= start.y + rise <= i64::MAX) {
        assert forall|i: int| 0 <= i <= 2 * steps + 1 implies point_fits(
            #[trigger] zigzag_point(start, rightward, phi, delta, rise, i),
        ) by {
            if i > 0 {
                let j = (i - 1) / 2;
                assert(0 <= j <= k);
                assert((0 <= j * delta <= k * delta) || (k * delta <= j * delta <= 0))
                    by (nonlinear_arith)
                    requires
                        0 <= j <= k,
                ;
                if (i / 2) % 2 == 1 {
                    assert(i >= 2);
                }
            }
        }
    }
}

/// The number of teeth of a zigzag that comes to an end.
fn count_steps(gap: i128, stride: i64, limit: Option<u16>) -> (steps: i128)
    requires
        -0x4_0000_0000_0000_0000 <= gap <= 0x4_0000_0000_0000_0000,
        zigzag_ends(gap as int, stride as int, limit),
    ensures
        steps == zigzag_steps(gap as int, stride as int, limit),
        0 <= steps <= 0x8_0000_0000_0000_0000,
        -0x8000_0000_0000_0000_0000 <= steps * stride <= 0x8000_0000_0000_0000_0000,
{
    if gap <= 0 {
        assert(0 * stride == 0);
        0
    } else if stride > 0 {
        let need = (gap + stride as i128 - 1) / (stride as i128);
        assert(0 <= need * stride <= gap + stride - 1 && need <= gap + stride - 1)
            by (nonlinear_arith)
            requires
                gap > 0,
                stride > 0,
                need == (gap + stride - 1) / (stride as int),
        ;
        let steps = match limit {
            Some(n) => if (n as i128) < need { n as i128 } else { need },
            None => need,
        };
        assert(0 <= steps * stride <= need * stride) by (nonlinear_arith)
            requires
                0 <= steps <= need,
                stride > 0,
        ;
        steps
    } else {
        let steps = match limit {
            Some(n) => n as i128,
            None => 0,
        };
        assert(-0xFFFF * 0x8000_0000_0000_0000 <= steps * stride <= 0) by (nonlinear_arith)
            requires
                0 <= steps <= 0xFFFF,
                -0x8000_0000_0000_0000 <= stride <= 0,
        ;
        steps
    }
}

/// Whether the zigzag from `start` towards `end` comes to an end and all its
/// coordinates fit a machine word.
fn zigzag_is_representable(
    start: &Coord,
    rightward: bool,
    phi: i64,
    delta: i64,
    rise: i128,
    end: i64,
    limit: Option<u16>,
) -> (fits: bool)
    requires
        -0x8000_0000_0000_0000 <= rise <= 0x8000_0000_0000_0000,
    ensures
        ({
            let gap = if rightward { end - start.x - phi } else { start.x - end - phi };
            fits == (zigzag_ends(gap, delta as int, limit) && zigzag_fits(
                start@,
                rightward,
                phi as int,
                delta as int,
                rise as int,
                zigzag_steps(gap, delta as int, limit),
            ))
        }),
{
    let x = start.x as i128;
    let gap: i128 = if rightward { end as i128 - x - phi as i128 } else { x - end as i128 - phi as i128 };
    if !(gap <= 0 || delta > 0 || limit.is_some()) {
        return false;
    }
    let steps = count_steps(gap, delta, limit);
    let first = if rightward { x + phi as i128 } else { x - phi as i128 };
    let run = phi as i128 + steps * (delta as i128);
    let last = if rightward { x + run } else { x - run };
    proof {
        lemma_zigzag_fits_at_its_ends(
            start@,
            rightward,
            phi as int,
            delta as int,
            rise as int,
            steps as nat,
        );
        assert(0 * (delta as int) == 0);
    }
    fits_word(first) && fits_word(last) && (steps < 1 || fits_word(start.y as i128 + rise))
}

/// Whether a run that has come to `x` has reached or passed `end`.
fn is_past_end(x: i64, end: i64, rightward: bool) -> (past: bool)
    ensures
        past == if rightward { x >= end } else { x <= end },
{
    if rightward {
        x >= end
    } else {
        x <= end
    }
}

/// A frame whose lower and upper sides are cut in a zigzag.
pub struct ZigZagFrame<'a> {
    /// Origin of the inner frame (lower left corner)
    origin: Coord,
    /// Width of the inner frame
    width: i64,
    /// Height of the inner frame
    height: i64,
    /// Margin around the inner frame
    margin: i64,
    /// Parameters for zig-zagging the frame
    params: FrameParams<'a>,
}

/// The mathematical model of a zigzag frame: its rectangle, how its lower
/// and upper sides are cut, and the distance between the two levels of a
/// side.
pub struct ZigZagView {
    pub origin: Point,
    pub width: int,
    pub height: int,
    pub margin: int,
    pub bottom: SideParams,
    pub top: SideParams,
    pub depth: int,
}

impl<'a> View for ZigZagFrame<'a> {
    type V = ZigZagView;

    closed spec fn view(&self) -> ZigZagView {
        ZigZagView {
            origin: self.origin@,
            width: self.width as int,
            height: self.height as int,
            margin: self.margin as int,
            bottom: *self.params.bottom,
            top: *self.params.top,
            depth: self.params.depth as int,
        }
    }
}

impl<'a> ZigZagFrame<'a> {
    /// The frame whose inner rectangle has lower left corner `origin` and the
    /// given `width` and `height`, and whose sides lie `margin` further out
    /// and are cut as `params` says.
    pub fn new(origin: Coord, width: i64, height: i64, margin: i64, params: FrameParams<'a>) -> (frame:
        ZigZagFrame<'a>)
        ensures
            frame@.origin == origin@,
            frame@.width == width,
            frame@.height == height,
            frame@.margin == margin,
            frame@.bottom == *params.bottom,
            frame@.top == *params.top,
            frame@.depth == params.depth,
    {
        ZigZagFrame { origin, width, height, margin, params }
    }

    /// Where the lower side starts: the lower left outer corner, raised by
    /// the depth if the side is inverse.
    pub open spec fn lower_start(&self) -> Point {
        Point {
            x: self@.origin.x - self@.margin,
            y: if self@.bottom.inverse {
                self@.origin.y - self@.margin + self@.depth
            } else {
                self@.origin.y - self@.margin
            },
        }
    }

    /// The abscissa at which the lower side ends: that of the right outer
    /// corners.
    pub open spec fn lower_end(&self) -> int {
        self@.origin.x + self@.width + self@.margin
    }

    /// The first change of level of the lower side.
    pub open spec fn lower_rise(&self) -> int {
        if self@.bottom.inverse {
            -self@.depth
        } else {
            self@.depth
        }
    }

    /// What the lower side has left to cover after its first run.
    pub open spec fn lower_gap(&self) -> int {
        self.lower_end() - self.lower_start().x - self@.bottom.phi
    }

    /// The number of teeth of the lower side.
    pub open spec fn lower_steps(&self) -> nat {
        zigzag_steps(self.lower_gap(), self@.bottom.delta as int, self@.bottom.n)
    }

    /// Whether the lower side comes to an end and all its coordinates fit a
    /// machine word.
    pub open spec fn lower_representable(&self) -> bool {
        &&& zigzag_ends(self.lower_gap(), self@.bottom.delta as int, self@.bottom.n)
        &&& i64::MIN <= self@.origin.x - self@.margin <= i64::MAX
        &&& i64::MIN <= self@.origin.y - self@.margin <= i64::MAX
        &&& i64::MIN <= self@.origin.x + self@.width <= i64::MAX
        &&& i64::MIN <= self.lower_end() <= i64::MAX
        &&& zigzag_fits(
            self.lower_start(),
            true,
            self@.bottom.phi as int,
            self@.bottom.delta as int,
            self.lower_rise(),
            self.lower_steps(),
        )
    }

    /// The lower side, from left to right.
    pub open spec fn lower_ring(&self) -> Seq<Point> {
        zigzag_string(
            self.lower_start(),
            true,
            self@.bottom.phi as int,
            self@.bottom.delta as int,
            self.lower_rise(),
            self.lower_steps(),
            self.lower_end(),
        )
    }

    /// Where the upper side starts: the upper right outer corner, raised by
    /// the depth if the side is inverse.
    pub open spec fn upper_start(&self) -> Point {
        Point {
            x: self@.origin.x + self@.width + self@.margin,
            y: if self@.top.inverse {
                self@.origin.y + self@.height + self@.margin + self@.depth
            } else {
                self@.origin.y + self@.height + self@.margin
            },
        }
    }

    /// The abscissa at which the upper side ends: that of the left outer
    /// corners.
    pub open spec fn upper_end(&self) -> int {
        self@.origin.x - self@.margin
    }

    /// The first change of level of the upper side.
    pub open spec fn upper_rise(&self) -> int {
        if self@.top.inverse {
            self@.depth
        } else {
            -self@.depth
        }
    }

    /// What the upper side has left to cover after its first run.
    pub open spec fn upper_gap(&self) -> int {
        self.upper_start().x - self.upper_end() - self@.top.phi
    }

    /// The number of teeth of the upper side.
    pub open spec fn upper_steps(&self) -> nat {
        zigzag_steps(self.upper_gap(), self@.top.delta as int, self@.top.n)
    }

    /// Whether the upper side comes to an end and all its coordinates fit a
    /// machine word.
    pub open spec fn upper_representable(&self) -> bool {
        &&& zigzag_ends(self.upper_gap(), self@.top.delta as int, self@.top.n)
        &&& i64::MIN <= self@.origin.x + self@.width <= i64::MAX
        &&& i64::MIN <= self@.origin.y + self@.height <= i64::MAX
        &&& i64::MIN <= self@.origin.x + self@.width + self@.margin <= i64::MAX
        &&& i64::MIN <= self@.origin.y + self@.height + self@.margin <= i64::MAX
        &&& i64::MIN <= self.upper_end() <= i64::MAX
        &&& zigzag_fits(
            self.upper_start(),
            false,
            self@.top.phi as int,
            self@.top.delta as int,
            self.upper_rise(),
            self.upper_steps(),
        )
    }

    /// The upper side, from right to left.
    pub open spec fn upper_ring(&self) -> Seq<Point> {
        zigzag_string(
            self.upper_start(),
            false,
            self@.top.phi as int,
            self@.top.delta as int,
            self.upper_rise(),
            self.upper_steps(),
            self.upper_end(),
        )
    }

    /// Whether the lower side comes to an end and all its coordinates fit a
    /// machine word: what `lower_string` asks of the frame.
    pub fn lower_is_representable(&self) -> (fits: bool)
        ensures
            fits == self.lower_representable(),
    {
        let sp = self.params.bottom;
        let (ox, oy) = (self.origin.x as i128, self.origin.y as i128);
        let m = self.margin as i128;
        let depth = self.params.depth as i128;
        let y = if sp.inverse { oy - m + depth } else { oy - m };
        let end = ox + self.width as i128 + m;
        if !(fits_word(ox - m) && fits_word(oy - m) && fits_word(ox + self.width as i128)
            && fits_word(end) && fits_word(y)) {
            proof {
                if !word_fits(y as int) {
                    // the start is the first point of the side
                    assert(zigzag_point(
                        self.lower_start(),
                        true,
                        sp.phi as int,
                        sp.delta as int,
                        self.lower_rise(),
                        0,
                    ) == self.lower_start());
                }
            }
            return false;
        }
        let start = Coord { x: (ox - m) as i64, y: y as i64 };
        let rise = if sp.inverse { -depth } else { depth };
        zigzag_is_representable(&start, true, sp.phi, sp.delta, rise, end as i64, sp.n)
    }

    /// Whether the upper side comes to an end and all its coordinates fit a
    /// machine word: what `upper_string` asks of the frame.
    pub fn upper_is_representable(&self) -> (fits: bool)
        ensures
            fits == self.upper_representable(),
    {
        let sp = self.params.top;
        let (ox, oy) = (self.origin.x as i128, self.origin.y as i128);
        let m = self.margin as i128;
        let depth = self.params.depth as i128;
        let x = ox + self.width as i128 + m;
        let level = oy + self.height as i128 + m;
        let y = if sp.inverse { level + depth } else { level };
        let end = ox - m;
        if !(fits_word(ox + self.width as i128) && fits_word(oy + self.height as i128)
            && fits_word(x) && fits_word(level) && fits_word(end) && fits_word(y)) {
            proof {
                if !word_fits(y as int) {
                    assert(zigzag_point(
                        self.upper_start(),
                        false,
                        sp.phi as int,
                        sp.delta as int,
                        self.upper_rise(),
                        0,
                    ) == self.upper_start());
                }
            }
            return false;
        }
        let start = Coord { x: x as i64, y: y as i64 };
        let rise = if sp.inverse { depth } else { -depth };
        zigzag_is_representable(&start, false, sp.phi, sp.delta, rise, end as i64, sp.n)
    }

    /// The lower side of the frame, from the lower left outer corner to the
    /// abscissa of the right outer corners.
    pub fn lower_string(&self) -> (string: LineString)
        requires
            self.lower_representable(),
        ensures
            string@ == self.lower_ring(),
    {
        let sp = self.params.bottom;
        let m = self.margin;
        let x = self.origin.x - m;
        let mut y = self.origin.y - m;
        let xmax: i64 = self.origin.x + self.width + m;
        proof {
            let start = self.lower_start();
            assert(zigzag_point(start, true, sp.phi as int, sp.delta as int, self.lower_rise(), 0)
                == start);
        }
        if sp.inverse {
            y = y + self.params.depth;
        }
        let iter = Iter::new(&sp.n);
        self.hor_string(Coord { x, y }, sp.phi, sp.delta, !sp.inverse, xmax, iter, true)
    }

    /// The upper side of the frame, from the upper right outer corner to the
    /// abscissa of the left outer corners.
    pub fn upper_string(&self) -> (string: LineString)
        requires
            self.upper_representable(),
        ensures
            string@ == self.upper_ring(),
    {
        let sp = self.params.top;
        let m = self.margin;
        let x = self.origin.x + self.width + m;
        let mut y = self.origin.y + self.height + m;
        let xmin: i64 = self.origin.x - m;
        proof {
            let start = self.upper_start();
            assert(zigzag_point(start, false, sp.phi as int, sp.delta as int, self.upper_rise(), 0)
                == start);
        }
        if sp.inverse {
            y = y + self.params.depth;
        }
        let iter = Iter::new(&sp.n);
        self.hor_string(Coord { x, y }, sp.phi, sp.delta, sp.inverse, xmin, iter, false)
    }

    /// The zigzag from `c` towards `end`: a first run of `phi`, then teeth of
    /// width `delta` whose first change of level goes up or down by the
    /// depth, until `end` is reached or passed or `iter` is done; the last
    /// point is set to `end`.
    fn hor_string(
        &self,
        c: Coord,
        phi: i64,
        delta: i64,
        up: bool,
        end: i64,
        iter: Iter,
        rightward: bool,
    ) -> (string: LineString)
        requires
            ({
                let gap = if rightward { end - c.x - phi } else { c.x - end - phi };
                let rise = if up { self@.depth } else { -self@.depth };
                &&& zigzag_ends(gap, delta as int, iter.remaining())
                &&& zigzag_fits(
                    c@,
                    rightward,
                    phi as int,
                    delta as int,
                    rise,
                    zigzag_steps(gap, delta as int, iter.remaining()),
                )
            }),
        ensures
            ({
                let gap = if rightward { end - c.x - phi } else { c.x - end - phi };
                let rise = if up { self@.depth } else { -self@.depth };
                string@ == zigzag_string(
                    c@,
                    rightward,
                    phi as int,
                    delta as int,
                    rise,
                    zigzag_steps(gap, delta as int, iter.remaining()),
                    end as int,
                )
            }),
    {
        let ghost gap = if rightward { end - c.x - phi } else { c.x - end - phi };
        let ghost rise = if up { self@.depth } else { -self@.depth };
        let ghost limit = iter.remaining();
        let ghost steps = zigzag_steps(gap, delta as int, limit) as int;
        let depth = self.params.depth;
        let mut iter = iter;
        let ghost up0 = up;
        let mut up = up;
        let mut cs: Vec<Coord> = Vec::new();
        cs.push(c);
        proof {
            lemma_zigzag_steps_is_first(gap, delta as int, limit);
            let first = zigzag_point(c@, rightward, phi as int, delta as int, rise, 1);
            assert(0 * (delta as int) == 0);
            assert(first.x == if rightward { c.x + phi } else { c.x - phi });
        }
        let mut x: i64 = if rightward { c.x + phi } else { c.x - phi };
        let mut y: i64 = c.y;
        cs.push(Coord { x, y });
        let ghost mut j: int = 0;
        while !is_past_end(x, end, rightward) && !iter.is_done()
            invariant
                gap == if rightward { end - c.x - phi } else { c.x - end - phi },
                rise == if up0 { self@.depth } else { -self@.depth },
                up == if j % 2 == 0 { up0 } else { !up0 },
                depth == self@.depth,
                steps == zigzag_steps(gap, delta as int, limit),
                zigzag_fits(c@, rightward, phi as int, delta as int, rise, steps as nat),
                gap - steps * delta <= 0 || limit == Some(steps as u16),
                forall|i: int|
                    0 <= i < steps ==> gap - #[trigger] (i * delta) > 0 && limit != Some(i as u16),
                0 <= j <= steps,
                cs.len() == 2 * j + 2,
                forall|i: int|
                    0 <= i < cs.len() ==> (#[trigger] cs[i])@ == zigzag_point(
                        c@,
                        rightward,
                        phi as int,
                        delta as int,
                        rise,
                        i,
                    ),
                x == if rightward { c.x + phi + j * delta } else { c.x - phi - j * delta },
                y == if j % 2 == 1 { c.y + rise } else { c.y as int },
                limit is Some ==> iter.remaining() == Some((limit.unwrap() - j) as u16),
                limit is None ==> iter.remaining() is None,
                limit is Some ==> j <= limit.unwrap(),
            decreases steps - j,
        {
            proof {
                // the loop goes on, so neither the gap is covered nor the limit reached
                assert(gap - j * delta > 0);
                assert(limit != Some(j as u16));
                assert(j < steps);
                assert((j + 1) * delta == j * delta + delta) by (nonlinear_arith);
                let low = zigzag_point(c@, rightward, phi as int, delta as int, rise, 2 * j + 2);
                let high = zigzag_point(c@, rightward, phi as int, delta as int, rise, 2 * j + 3);
                assert(((2 * j + 2) - 1) / 2 == j);
                assert(((2 * j + 3) - 1) / 2 == j + 1);
                assert((2 * j + 2) / 2 == j + 1);
                assert((2 * j + 3) / 2 == j + 1);
            }
            iter.next();
            // Move y
            y = if up { y + depth } else { y - depth };
            up = !up;
            cs.push(Coord { x, y });
            // Move x
            x = if rightward { x + delta } else { x - delta };
            cs.push(Coord { x, y });
            proof {
                j = j + 1;
            }
        }
        proof {
            // the loop has ended, so the gap is covered or the limit reached
            if j < steps {
                assert(gap - j * delta > 0);
                assert(limit != Some(j as u16));
            }
            assert(j == steps);
        }
        let last = cs.len() - 1;
        let lastc = cs[last];
        cs.set(last, Coord { x: end, y: lastc.y });
        let string = LineString::new(cs);
        assert(string@ =~= zigzag_string(
            c@,
            rightward,
            phi as int,
            delta as int,
            rise,
            steps as nat,
            end as int,
        ));
        string
    }
}

impl<'a> RectangularFrame for ZigZagFrame<'a> {
    open spec fn corner(&self) -> Point {
        self@.origin
    }

    open spec fn span(&self) -> (int, int) {
        (self@.width, self@.height)
    }

    fn origin(&self) -> (origin: Coord) {
        self.origin
    }

    fn width(&self) -> (width: i64) {
        self.width
    }

    fn height(&self) -> (height: i64) {
        self.height
    }
}

/// The inner ring of a zigzag frame is its inner rectangle. Its outer ring
/// is the lower side, from left to right, followed by the upper side, from
/// right to left: the straight right and left sides are the edges that join
/// the two, the left one being the edge that closes the ring.
impl<'a> Frame for ZigZagFrame<'a> {
    open spec fn inner_ring(&self) -> Seq<Point> {
        rectangle_corners(self@.origin, self@.width, self@.height, 0)
    }

    open spec fn outer_ring(&self) -> Seq<Point> {
        self.lower_ring() + self.upper_ring()
    }

    open spec fn representable(&self) -> bool {
        &&& rectangle_fits(self@.origin, self@.width, self@.height, 0)
        &&& self.lower_representable()
        &&& self.upper_representable()
    }

    fn is_representable(&self) -> (fits: bool) {
        rectangle_is_representable(&self.origin, self.width, self.height, 0)
            && self.lower_is_representable() && self.upper_is_representable()
    }

    fn inner_contour(&self) -> (ring: LineString) {
        LineString::new(self.rectangular_contour_vertices(0))
    }

    fn outer_contour(&self) -> (ring: LineString) {
        let mut coords = self.lower_string().into_inner();
        let mut upper = self.upper_string().into_inner();
        let ghost lower = points_of(coords@);
        let ghost above = points_of(upper@);
        coords.append(&mut upper);
        let ring = LineString::new(coords);
        assert(ring@ =~= lower + above);
        ring
    }
}

} // verus!
