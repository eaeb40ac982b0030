//! The honeycomb grid: where the copies of a unit figure go.
//!
//! ```text
//! o | * | * | *   -      even
//!  ´ ` ´ ` ´ `     dy
//! | * | * | * |   -      odd
//!  ` ´ ` ´ ` ´
//! * | * | * | *          even
//!    <->
//!     dx
//! 0   2   4   6
//!   1   3   5
//! nx = 4 / ny = 3
//! ```

use vstd::prelude::*;
use crate::frame::{
    rectangle_corners, rectangle_fits, rectangle_is_representable, rectangular_contour_vertices,
};
use crate::geometry::{
    points_of, ring_shift_fits, rings_of, rings_shift_fit, translated, translated_rings, Coord,
    LineString, Point, Polygon,
};

verus! {

/// The number of nodes of row `j` of a grid that is `nx` figures wide: `nx`
/// in an even row, one less in an odd row, and none in any row of a grid
/// that is no figure wide.
pub open spec fn row_len(nx: nat, j: nat) -> nat {
    if j % 2 == 0 || nx == 0 {
        nx
    } else {
        (nx - 1) as nat
    }
}

/// The node in place `i` of row `j`: rows lie `dy` apart, the nodes of a row
/// `2 * dx` apart, and an odd row starts `dx` further right than an even one.
pub open spec fn honeycomb_node(dx: int, dy: int, j: nat, i: nat) -> Point {
    Point { x: (2 * i + j % 2) * dx, y: j * dy }
}

/// The nodes of row `j`, from left to right.
pub open spec fn honeycomb_row(dx: int, dy: int, nx: nat, j: nat) -> Seq<Point> {
    Seq::new(row_len(nx, j), |i: int| honeycomb_node(dx, dy, j, i as nat))
}

/// The nodes of the first `ny` rows, row after row.
pub open spec fn honeycomb_nodes(dx: int, dy: int, nx: nat, ny: nat) -> Seq<Point>
    decreases ny,
{
    if ny == 0 {
        Seq::empty()
    } else {
        honeycomb_nodes(dx, dy, nx, (ny - 1) as nat) + honeycomb_row(dx, dy, nx, (ny - 1) as nat)
    }
}

/// The number of nodes of the first `ny` rows: the even rows hold `nx` each,
/// the odd rows one less; a grid that is no figure wide holds none.
pub open spec fn node_count(nx: nat, ny: nat) -> nat {
    if nx == 0 {
        0
    } else {
        (nx * ((ny + 1) / 2) + (nx - 1) * (ny / 2)) as nat
    }
}

/// Whether the coordinates of the grid fit a machine word: the abscissa of
/// the last node of an even row, and the ordinate of the last row. A grid
/// without rows or without columns has no coordinates.
pub open spec fn grid_fits(dx: int, dy: int, nx: nat, ny: nat) -> bool {
    nx >= 1 && ny >= 1 ==> {
        &&& i64::MIN <= (2 * nx - 2) * dx <= i64::MAX
        &&& i64::MIN <= (ny - 1) * dy <= i64::MAX
    }
}

/// The abscissa of the last node of an even row; 0 in a grid without nodes.
pub open spec fn grid_width(dx: int, nx: nat, ny: nat) -> int {
    if nx == 0 || ny == 0 {
        0
    } else {
        (2 * nx - 2) * dx
    }
}

/// The ordinate of the last row; 0 in a grid without nodes.
pub open spec fn grid_height(dy: int, nx: nat, ny: nat) -> int {
    if nx == 0 || ny == 0 {
        0
    } else {
        (ny - 1) * dy
    }
}

/// The rings that filling a grid with a figure yields: for each node in turn,
/// the holes of the figure moved to that node.
pub open spec fn filled(nodes: Seq<Point>, holes: Seq<Seq<Point>>) -> Seq<Seq<Point>>
    decreases nodes.len(),
{
    if nodes.len() == 0 {
        Seq::empty()
    } else {
        filled(nodes.drop_last(), holes) + translated_rings(
            holes,
            nodes.last().x,
            nodes.last().y,
        )
    }
}

/// Whether every hole can be moved to every node with coordinates that fit a
/// machine word.
pub open spec fn fill_fits(nodes: Seq<Point>, holes: Seq<Seq<Point>>) -> bool {
    forall|k: int| 0 <= k < nodes.len() ==> rings_shift_fit(holes, (#[trigger] nodes[k]).x, nodes[k].y)
}

/// A grid of `ny` rows has `node_count(nx, ny)` nodes.
pub proof fn lemma_node_count(dx: int, dy: int, nx: nat, ny: nat)
    ensures
        honeycomb_nodes(dx, dy, nx, ny).len() == node_count(nx, ny),
        nx == 0 ==> honeycomb_nodes(dx, dy, nx, ny) == Seq::<Point>::empty(),
    decreases ny,
{
    if ny > 0 {
        let rows = (ny - 1) as nat;
        lemma_node_count(dx, dy, nx, rows);
        if nx >= 1 {
            assert(node_count(nx, ny) == node_count(nx, rows) + row_len(nx, rows))
                by (nonlinear_arith)
                requires
                    nx >= 1,
                    ny >= 1,
                    rows == ny - 1,
                    node_count(nx, ny) == nx * ((ny + 1) / 2) + (nx - 1) * (ny / 2),
                    node_count(nx, rows) == nx * ((rows + 1) / 2) + (nx - 1) * (rows / 2),
                    row_len(nx, rows) == if rows % 2 == 0 { nx as int } else { nx - 1 },
            ;
        } else {
            assert(honeycomb_nodes(dx, dy, nx, ny) =~= Seq::<Point>::empty());
        }
    } else if nx >= 1 {
        assert(nx * 0 + (nx - 1) * 0 == 0) by (nonlinear_arith);
    }
}

/// The node in place `i` of row `j` stands behind all nodes of the rows
/// before it and the `i` nodes to its left.
pub proof fn lemma_node_at(dx: int, dy: int, nx: nat, ny: nat, j: nat, i: nat)
    requires
        j < ny,
        i < row_len(nx, j),
    ensures
        node_count(nx, j) + i < honeycomb_nodes(dx, dy, nx, ny).len(),
        honeycomb_nodes(dx, dy, nx, ny)[(node_count(nx, j) + i) as int] == honeycomb_node(
            dx,
            dy,
            j,
            i,
        ),
    decreases ny,
{
    let rows = (ny - 1) as nat;
    lemma_node_count(dx, dy, nx, rows);
    lemma_node_count(dx, dy, nx, ny);
    if j < rows {
        lemma_node_at(dx, dy, nx, rows, j, i);
    }
}

/// The first node of a grid is the origin, and the first node of its second
/// row, which stands behind the `nx` nodes of the first, is `(dx, dy)`.
pub proof fn lemma_first_nodes(dx: int, dy: int, nx: nat, ny: nat)
    requires
        nx >= 1,
        ny >= 1,
    ensures
        honeycomb_nodes(dx, dy, nx, ny)[0] == (Point { x: 0, y: 0 }),
        nx >= 2 && ny >= 2 ==> honeycomb_nodes(dx, dy, nx, ny)[nx as int] == (Point { x: dx, y: dy }),
{
    lemma_node_at(dx, dy, nx, ny, 0, 0);
    assert(node_count(nx, 0) == 0) by (nonlinear_arith)
        requires
            node_count(nx, 0) == nx * ((0nat + 1) / 2) + (nx - 1) * (0nat / 2),
    ;
    assert(honeycomb_node(dx, dy, 0, 0) == (Point { x: 0, y: 0 })) by {
        assert((2 * 0nat + 0nat % 2) * dx == 0) by (nonlinear_arith);
        assert(0nat * dy == 0) by (nonlinear_arith);
    }
    if nx >= 2 && ny >= 2 {
        lemma_node_at(dx, dy, nx, ny, 1, 0);
        assert(node_count(nx, 1) == nx) by (nonlinear_arith)
            requires
                node_count(nx, 1) == nx * ((1nat + 1) / 2) + (nx - 1) * (1nat / 2),
        ;
        assert(honeycomb_node(dx, dy, 1, 0) == (Point { x: dx, y: dy })) by {
            assert((2 * 0nat + 1nat % 2) * dx == dx) by (nonlinear_arith);
            assert(1nat * dy == dy) by (nonlinear_arith);
        }
    }
}

/// Filling a grid yields one ring for each node and hole.
pub proof fn lemma_filled_len(nodes: Seq<Point>, holes: Seq<Seq<Point>>)
    ensures
        filled(nodes, holes).len() == nodes.len() * holes.len(),
    decreases nodes.len(),
{
    if nodes.len() > 0 {
        lemma_filled_len(nodes.drop_last(), holes);
        assert(nodes.len() * holes.len() == (nodes.len() - 1) * holes.len() + holes.len())
            by (nonlinear_arith);
    } else {
        assert(0 * holes.len() == 0);
    }
}

/// The ring that stands for node `k` and hole `r` is hole `r` moved to node
/// `k`; the rings of one node stand together, in the order of the holes.
pub proof fn lemma_filled_at(nodes: Seq<Point>, holes: Seq<Seq<Point>>, k: int, r: int)
    requires
        0 <= k < nodes.len(),
        0 <= r < holes.len(),
    ensures
        0 <= k * holes.len() + r < filled(nodes, holes).len(),
        filled(nodes, holes)[k * holes.len() + r] == translated(holes[r], nodes[k].x, nodes[k].y),
    decreases nodes.len(),
{
    let m = holes.len() as int;
    let before = nodes.drop_last();
    lemma_filled_len(nodes, holes);
    lemma_filled_len(before, holes);
    assert(0 <= k * m + r < nodes.len() * m) by (nonlinear_arith)
        requires
            0 <= k < nodes.len(),
            0 <= r < m,
    ;
    if k < before.len() {
        lemma_filled_at(before, holes, k, r);
        assert(k * m + r < before.len() * m) by (nonlinear_arith)
            requires
                0 <= k < before.len(),
                0 <= r < m,
        ;
    }
}

/// If `b * d` fits a machine word, so does `a * d` for every `a` from 0 to
/// `b`.
proof fn lemma_multiple_fits(a: int, b: int, d: int)
    requires
        0 <= a <= b,
        i64::MIN <= b * d <= i64::MAX,
    ensures
        i64::MIN <= a * d <= i64::MAX,
{
    assert(i64::MIN <= a * d <= i64::MAX) by (nonlinear_arith)
        requires
            0 <= a <= b,
            i64::MIN <= b * d <= i64::MAX,
    ;
}

/// Whether `count` times `step` fits a machine word.
fn multiple_fits(count: u128, step: i64) -> (fits: bool)
    requires
        count <= 0x1_FFFF_FFFF_FFFF_FFFE,
    ensures
        fits == (i64::MIN <= count * step <= i64::MAX),
{
    if step >= 0 {
        let size = step as u128;
        assert(count * size <= 0x1_FFFF_FFFF_FFFF_FFFE * 0x7FFF_FFFF_FFFF_FFFF) by (nonlinear_arith)
            requires
                0 <= count <= 0x1_FFFF_FFFF_FFFF_FFFE,
                0 <= size <= 0x7FFF_FFFF_FFFF_FFFF,
        ;
        assert(count * size >= 0) by (nonlinear_arith)
            requires
                0 <= count,
                0 <= size,
        ;
        count * size <= 0x7FFF_FFFF_FFFF_FFFF
    } else {
        let size = (-(step as i128)) as u128;
        assert(count * size <= 0x1_FFFF_FFFF_FFFF_FFFE * 0x8000_0000_0000_0000) by (nonlinear_arith)
            requires
                0 <= count <= 0x1_FFFF_FFFF_FFFF_FFFE,
                0 <= size <= 0x8000_0000_0000_0000,
        ;
        assert(count * step == -(count * size)) by (nonlinear_arith)
            requires
                size == -step,
        ;
        count * size <= 0x8000_0000_0000_0000
    }
}

/// A honeycomb grid: the places at which copies of a unit figure go so that
/// they tile the plane.
pub struct HoneycombGrid {
    /// horizontal distance from one figure to the next
    dx: i64,
    /// vertical distance from one row of figures to the next
    dy: i64,
    /// number of copies horizontally
    nx: usize,
    /// number of copies vertically
    ny: usize,
    /// abscissa of the last node of an even row
    width: i64,
    /// ordinate of the last row
    height: i64,
    /// Keeps track of where to place each unit in the grid
    pub nodes: Vec<Coord>,
}

impl View for HoneycombGrid {
    type V = Seq<Point>;

    /// The nodes, in order.
    closed spec fn view(&self) -> Seq<Point> {
        points_of(self.nodes@)
    }
}

impl HoneycombGrid {
    /// Half the distance between two nodes of a row.
    pub closed spec fn dx(&self) -> int {
        self.dx as int
    }

    /// The distance between two rows.
    pub closed spec fn dy(&self) -> int {
        self.dy as int
    }

    /// The number of nodes of an even row.
    pub closed spec fn nx(&self) -> nat {
        self.nx as nat
    }

    /// The number of rows.
    pub closed spec fn ny(&self) -> nat {
        self.ny as nat
    }

    /// The abscissa of the last node of an even row; 0 in a grid without
    /// nodes.
    pub closed spec fn width(&self) -> int {
        self.width as int
    }

    /// The ordinate of the last row; 0 in a grid without nodes.
    pub closed spec fn height(&self) -> int {
        self.height as int
    }

    /// Whether a grid with these steps and counts can be made: what `new`
    /// asks of them.
    pub fn can_hold(dx: i64, dy: i64, nx: usize, ny: usize) -> (fits: bool)
        ensures
            fits == grid_fits(dx as int, dy as int, nx as nat, ny as nat),
    {
        if nx == 0 || ny == 0 {
            return true;
        }
        multiple_fits(2 * (nx as u128) - 2, dx) && multiple_fits(ny as u128 - 1, dy)
    }

    /// Whether every hole of `unit` can be moved to every node: what
    /// `fill_with_unit` asks of the figure.
    pub fn can_fill(&self, unit: &Polygon) -> (fits: bool)
        ensures
            fits == fill_fits(self@, unit@.interiors),
    {
        let holes = unit.interiors();
        let mut k: usize = 0;
        while k < self.nodes.len()
            invariant
                rings_of(holes@) == unit@.interiors,
                k <= self.nodes.len(),
                forall|j: int|
                    0 <= j < k ==> rings_shift_fit(
                        unit@.interiors,
                        (#[trigger] self@[j]).x,
                        self@[j].y,
                    ),
            decreases self.nodes.len() - k,
        {
            let origin = self.nodes[k];
            assert(self@[k as int] == origin@);
            let mut r: usize = 0;
            while r < holes.len()
                invariant
                    rings_of(holes@) == unit@.interiors,
                    0 <= k < self@.len(),
                    self@[k as int] == origin@,
                    r <= holes.len(),
                    forall|j: int|
                        0 <= j < r ==> ring_shift_fits(
                            #[trigger] unit@.interiors[j],
                            origin.x as int,
                            origin.y as int,
                        ),
                decreases holes.len() - r,
            {
                if !holes[r].translation_fits(origin.x, origin.y) {
                    assert(!ring_shift_fits(
                        unit@.interiors[r as int],
                        origin.x as int,
                        origin.y as int,
                    ));
                    assert(!rings_shift_fit(unit@.interiors, self@[k as int].x, self@[k as int].y));
                    return false;
                }
                r += 1;
            }
            k += 1;
        }
        true
    }

    /// Whether the rectangle that reaches `margin` beyond the outermost
    /// nodes fits a machine word: what `contour_large` asks of `margin`, and
    /// `contour_small` of its opposite.
    pub fn can_contour(&self, margin: i64) -> (fits: bool)
        ensures
            fits == rectangle_fits(Point { x: 0, y: 0 }, self.width(), self.height(), margin as int),
    {
        rectangle_is_representable(&Coord { x: 0, y: 0 }, self.width, self.height, margin)
    }

    /// The upper right corner of the rectangle that the nodes span from the
    /// origin: the last node of an even row, at the height of the last row.
    pub fn extent(&self) -> (corner: Coord)
        ensures
            corner@ == (Point { x: self.width(), y: self.height() }),
    {
        Coord { x: self.width, y: self.height }
    }

    /// The nodes, in order.
    pub fn nodes(&self) -> (nodes: &Vec<Coord>)
        ensures
            points_of(nodes@) == self@,
    {
        &self.nodes
    }

    /// The grid of `ny` rows, `dy` apart, whose even rows hold `nx` nodes,
    /// `2 * dx` apart from the origin on, and whose odd rows hold the `nx - 1`
    /// nodes halfway between those. A grid that is no figure wide has no
    /// nodes, however many rows it has.
    pub fn new(dx: i64, dy: i64, nx: usize, ny: usize) -> (grid: HoneycombGrid)
        requires
            grid_fits(dx as int, dy as int, nx as nat, ny as nat),
        ensures
            grid.width() == grid_width(dx as int, nx as nat, ny as nat),
            grid.height() == grid_height(dy as int, nx as nat, ny as nat),
            grid.dx() == dx,
            grid.dy() == dy,
            grid.nx() == nx,
            grid.ny() == ny,
            grid@ == honeycomb_nodes(dx as int, dy as int, nx as nat, ny as nat),
            grid@.len() == node_count(nx as nat, ny as nat),
    {
        if nx == 0 {
            proof {
                lemma_node_count(dx as int, dy as int, nx as nat, ny as nat);
            }
            return HoneycombGrid { dx, dy, nx, ny, width: 0, height: 0, nodes: Vec::new() };
        }
        let mut nodes: Vec<Coord> = Vec::new();
        let mut evenrow = true;
        let mut y: i64 = 0;
        let mut width: i64 = 0;
        let mut j: usize = 0;
        while j < ny
            invariant
                nx >= 1,
                grid_fits(dx as int, dy as int, nx as nat, ny as nat),
                j <= ny,
                evenrow == (j % 2 == 0),
                j < ny ==> y == j * dy,
                j == ny && ny >= 1 ==> y == (ny - 1) * dy,
                j == 0 ==> y == 0 && width == 0,
                j >= 1 ==> width == (2 * nx - 2) * dx,
                points_of(nodes@) == honeycomb_nodes(dx as int, dy as int, nx as nat, j as nat),
            decreases ny - j,
        {
            let len = if evenrow { nx } else { nx - 1 };
            let mut x: i64 = if evenrow { 0 } else { dx };
            let mut i: usize = 0;
            let ghost above = points_of(nodes@);
            let ghost row = honeycomb_row(dx as int, dy as int, nx as nat, j as nat);
            proof {
                assert(row.take(0) =~= Seq::<Point>::empty());
                assert(above + row.take(0) =~= above);
                assert((2 * 0 + 1) * dx == dx) by (nonlinear_arith);
                assert((2 * 0 + 0) * dx == 0) by (nonlinear_arith);
            }
            while i < len
                invariant
                    nx >= 1,
                    grid_fits(dx as int, dy as int, nx as nat, ny as nat),
                    j < ny,
                    len == row_len(nx as nat, j as nat),
                    row == honeycomb_row(dx as int, dy as int, nx as nat, j as nat),
                    i <= len,
                    y == j * dy,
                    i < len ==> x == (2 * i + j % 2) * dx,
                    i == len && len >= 1 ==> x == (2 * (len - 1) + j % 2) * dx,
                    points_of(nodes@) == above + row.take(i as int),
                decreases len - i,
            {
                let ghost placed = points_of(nodes@);
                nodes.push(Coord { x, y });
                proof {
                    assert(row[i as int] == honeycomb_node(dx as int, dy as int, j as nat, i as nat));
                    assert(points_of(nodes@) =~= placed.push(row[i as int]));
                    assert(row.take(i + 1) =~= row.take(i as int).push(row[i as int]));
                    assert(points_of(nodes@) =~= above + row.take(i + 1));
                }
                i += 1;
                if i < len {
                    proof {
                        let a = 2 * (i - 1) + j % 2;
                        lemma_multiple_fits(a + 1, 2 * nx - 2, dx as int);
                        lemma_multiple_fits(a + 2, 2 * nx - 2, dx as int);
                        assert((a + 1) * dx == a * dx + dx) by (nonlinear_arith);
                        assert((a + 2) * dx == a * dx + dx + dx) by (nonlinear_arith);
                    }
                    x = x + dx + dx;
                }
            }
            proof {
                assert(row.take(len as int) =~= row);
            }
            if j == 0 {
                width = x;
            }
            j += 1;
            evenrow = !evenrow;
            if j < ny {
                proof {
                    lemma_multiple_fits(j as int, ny - 1, dy as int);
                    assert(j * dy == (j - 1) * dy + dy) by (nonlinear_arith);
                }
                y = y + dy;
            }
        }
        proof {
            lemma_node_count(dx as int, dy as int, nx as nat, ny as nat);
        }
        HoneycombGrid { dx, dy, nx, ny, width, height: y, nodes }
    }

    /// The holes of `unit` moved to every node of the grid: for each node in
    /// turn, every hole in turn. The outer ring of `unit` plays no part.
    pub fn fill_with_unit(&mut self, unit: &Polygon) -> (interiors: Vec<LineString>)
        requires
            fill_fits(old(self)@, unit@.interiors),
        ensures
            *final(self) == *old(self),
            rings_of(interiors@) == filled(old(self)@, unit@.interiors),
            interiors@.len() == old(self)@.len() * unit@.interiors.len(),
    {
        let mut interiors: Vec<LineString> = Vec::new();
        let holes = unit.interiors();
        let ghost origins = points_of(self.nodes@);
        let ghost rings = unit@.interiors;
        let mut k: usize = 0;
        proof {
            assert(origins.take(0) =~= Seq::<Point>::empty());
        }
        while k < self.nodes.len()
            invariant
                origins == points_of(self.nodes@),
                rings == rings_of(holes@),
                fill_fits(origins, rings),
                k <= self.nodes.len(),
                rings_of(interiors@) == filled(origins.take(k as int), rings),
            decreases self.nodes.len() - k,
        {
            let origin = self.nodes[k];
            let ghost before = rings_of(interiors@);
            let ghost moved = translated_rings(rings, origin.x as int, origin.y as int);
            let mut r: usize = 0;
            proof {
                assert(origins[k as int] == origin@);
                assert(rings_shift_fit(rings, origin.x as int, origin.y as int));
            }
            while r < holes.len()
                invariant
                    rings == rings_of(holes@),
                    rings_shift_fit(rings, origin.x as int, origin.y as int),
                    moved == translated_rings(rings, origin.x as int, origin.y as int),
                    r <= holes.len(),
                    rings_of(interiors@) == before + moved.take(r as int),
                decreases holes.len() - r,
            {
                assert(ring_shift_fits(rings[r as int], origin.x as int, origin.y as int));
                let ghost collected = rings_of(interiors@);
                interiors.push(holes[r].translate(origin.x, origin.y));
                proof {
                    assert(rings_of(interiors@) =~= collected.push(moved[r as int]));
                    assert(moved.take(r + 1) =~= moved.take(r as int).push(moved[r as int]));
                    assert(rings_of(interiors@) =~= before + moved.take(r + 1));
                }
                r += 1;
            }
            proof {
                let upto = origins.take(k + 1);
                assert(moved.take(holes.len() as int) =~= moved);
                assert(upto.drop_last() =~= origins.take(k as int));
                assert(upto.last() == origin@);
            }
            k += 1;
        }
        proof {
            assert(origins.take(k as int) =~= origins);
            lemma_filled_len(origins, rings);
        }
        interiors
    }

    /// The rectangle that reaches `margin` beyond the outermost nodes on
    /// every side: the contour of a framed tiling.
    pub fn contour_large(&self, margin: i64) -> (ring: LineString)
        requires
            rectangle_fits(Point { x: 0, y: 0 }, self.width(), self.height(), margin as int),
        ensures
            ring@ == rectangle_corners(Point { x: 0, y: 0 }, self.width(), self.height(), margin as int),
    {
        LineString::new(
            rectangular_contour_vertices(Coord { x: 0, y: 0 }, self.width, self.height, margin),
        )
    }

    /// The rectangle that stays `margin` inside the outermost nodes on every
    /// side: the ring to which a tiling is clipped.
    pub fn contour_small(&self, margin: i64) -> (ring: LineString)
        requires
            margin > i64::MIN,
            rectangle_fits(Point { x: 0, y: 0 }, self.width(), self.height(), -margin),
        ensures
            ring@ == rectangle_corners(Point { x: 0, y: 0 }, self.width(), self.height(), -margin),
    {
        LineString::new(
            rectangular_contour_vertices(Coord { x: 0, y: 0 }, self.width, self.height, -margin),
        )
    }
}

} // verus!
