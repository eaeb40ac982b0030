use kumiko::error::KernelError;
use kumiko::geometry::{Coord, LineString, Polygon};
use kumiko::operations::{exterior_rings, intersect};

fn make_linestring(xys: Vec<(i64, i64)>) -> LineString {
    LineString::new(xys.iter().map(|(x, y)| Coord { x: *x, y: *y }).collect())
}

#[test]
fn clip_triangles() {
    // Given
    //
    //  O                 O
    //     X           X
    //     |        C
    //     |      / |
    //     X    /   |  X
    // -O--+--A--+--B--+--O--+--
    //
    let interiors = make_linestring(vec![(1, 0), (3, 0), (3, 3)]);
    let clipping_line = make_linestring(vec![(0, 1), (4, 1), (4, 4), (0, 4)]);
    let contour_line = make_linestring(vec![(-1, 0), (5, 0), (5, 5), (-1, 5)]);

    // When
    let clipped = intersect(&vec![interiors], contour_line, clipping_line);

    // Then
    assert!(clipped.dropped.is_empty());
    let clipped_interiors = clipped.figure.interiors();
    let clipped_interior = clipped_interiors.get(0).unwrap();
    let clipped_coords = clipped_interior.clone().into_inner();
    let c0 = Coord { x: 3, y: 3 };
    assert_eq!(c0, *clipped_coords.get(0).unwrap());
}

#[test]
fn clip_triangles_at_fine_scale() {
    let interiors = make_linestring(vec![(1000, 0), (3000, 0), (3000, 3000)]);
    let clipping_line = make_linestring(vec![(0, 1000), (4000, 1000), (4000, 4000), (0, 4000)]);
    let contour_line = make_linestring(vec![(-1000, 0), (5000, 0), (5000, 5000), (-1000, 5000)]);

    let outcome = intersect(&vec![interiors], contour_line, clipping_line);

    assert!(outcome.dropped.is_empty());
    let holes = outcome.figure.interiors();
    assert_eq!(holes.len(), 1);
    println!("{:?}", holes[0]);
    let mut corners = holes[0].clone().into_inner();
    assert_eq!(corners.first(), corners.last());
    corners.pop();
    corners.sort_by_key(|c| (c.x, c.y));
    assert_eq!(
        corners,
        vec![Coord { x: 1667, y: 1000 }, Coord { x: 3000, y: 1000 }, Coord { x: 3000, y: 3000 }]
    );
    let outer = outcome.figure.exterior().clone().into_inner();
    assert_eq!(
        outer,
        vec![
            Coord { x: -1000, y: 0 },
            Coord { x: 5000, y: 0 },
            Coord { x: 5000, y: 5000 },
            Coord { x: -1000, y: 5000 },
            Coord { x: -1000, y: 0 },
        ]
    );
}

#[test]
fn ring_outside_the_frame_contributes_nothing() {
    let outside = make_linestring(vec![(10, 10), (12, 10), (12, 12)]);
    let clipping_line = make_linestring(vec![(0, 1), (4, 1), (4, 4), (0, 4)]);
    let contour_line = make_linestring(vec![(-1, 0), (5, 0), (5, 5), (-1, 5)]);

    let outcome = intersect(&vec![outside], contour_line, clipping_line);

    assert_eq!(outcome.figure.interiors().len(), 0);
    assert_eq!(outcome.dropped, vec![0]);
}

#[test]
fn dropped_rings_are_counted_by_index() {
    let inside = make_linestring(vec![(1, 2), (3, 2), (3, 3)]);
    let outside = make_linestring(vec![(10, 10), (12, 10), (12, 12)]);
    let flat = make_linestring(vec![(1, 2), (3, 2)]);
    let clipping_line = make_linestring(vec![(0, 1), (4, 1), (4, 4), (0, 4)]);
    let contour_line = make_linestring(vec![(-1, 0), (5, 0), (5, 5), (-1, 5)]);

    let rings = vec![outside.clone(), inside.clone(), flat, inside, outside];
    let outcome = intersect(&rings, contour_line.clone(), clipping_line.clone());

    assert_eq!(outcome.dropped, vec![0, 2, 4]);
    assert_eq!(outcome.figure.interiors().len(), 2);
    assert_eq!(outcome.figure.interiors()[0], outcome.figure.interiors()[1]);

    let again = intersect(&rings, contour_line, clipping_line);
    assert_eq!(again.figure, outcome.figure);
    assert_eq!(again.dropped, outcome.dropped);
}

#[test]
fn no_rings_give_the_bare_contour() {
    let clipping_line = make_linestring(vec![(0, 1), (4, 1), (4, 4), (0, 4)]);
    let contour_line = make_linestring(vec![(-1, 0), (5, 0), (5, 5), (-1, 5)]);
    let outcome = intersect(&[], contour_line, clipping_line);
    assert!(outcome.dropped.is_empty());
    assert!(outcome.figure.interiors().is_empty());
    assert_eq!(outcome.figure.exterior().0.len(), 5);
}

#[test]
fn exterior_rings_keeps_outer_boundaries_only() {
    let outer_a = make_linestring(vec![(0, 0), (10, 0), (10, 10), (0, 10)]);
    let hole_a = make_linestring(vec![(2, 2), (4, 2), (4, 4)]);
    let outer_b = make_linestring(vec![(20, 0), (30, 0), (30, 10), (20, 0)]);
    let pieces = vec![
        Polygon::new(outer_a, vec![hole_a]),
        Polygon::new(outer_b.clone(), vec![]),
    ];

    let rings = exterior_rings(&pieces);

    assert_eq!(
        rings,
        vec![make_linestring(vec![(0, 0), (10, 0), (10, 10), (0, 10), (0, 0)]), outer_b]
    );
    assert!(exterior_rings(&vec![]).is_empty());
}

#[test]
fn clipping_failure_counts_the_dropped_rings() {
    let inside = make_linestring(vec![(1, 2), (3, 2), (3, 3)]);
    let outside = make_linestring(vec![(10, 10), (12, 10), (12, 12)]);
    let clipping_line = make_linestring(vec![(0, 1), (4, 1), (4, 4), (0, 4)]);
    let contour_line = make_linestring(vec![(-1, 0), (5, 0), (5, 5), (-1, 5)]);

    let clean = intersect(&[inside.clone()], contour_line.clone(), clipping_line.clone());
    assert_eq!(clean.failure(), None);

    let lossy = intersect(
        &[outside.clone(), inside, outside],
        contour_line,
        clipping_line,
    );
    assert_eq!(lossy.failure(), Some(KernelError::ClippingFailure { dropped: 2 }));
}

#[test]
fn holes_of_a_piece_are_not_kept() {
    // a ring that winds around a hole: the clipping library gives the hole
    // back as an inner ring of the piece, and only the outer boundary is kept
    let ring = make_linestring(vec![
        (0, 0),
        (10, 0),
        (10, 10),
        (0, 10),
        (0, 0),
        (3, 3),
        (3, 7),
        (7, 7),
        (7, 3),
        (3, 3),
    ]);
    let clipping_line = make_linestring(vec![(-5, -5), (15, -5), (15, 15), (-5, 15)]);
    let contour_line = make_linestring(vec![(-6, -6), (16, -6), (16, 16), (-6, 16)]);

    let outcome = intersect(&[ring], contour_line, clipping_line);

    assert!(outcome.dropped.is_empty());
    for hole in outcome.figure.interiors().iter() {
        assert!(hole.is_closed());
        let xs: Vec<i64> = hole.0.iter().map(|c| c.x).collect();
        assert_eq!(xs.iter().min(), Some(&0));
        assert_eq!(xs.iter().max(), Some(&10));
    }
    assert_eq!(outcome.figure.interiors().len(), 1);
}
