use kumiko::error::KernelError;
use kumiko::geometry::{Coord, LineString};
use kumiko::oglines::{
    is_within_limit, linestring_from_lines, mean_point_vec, polygon, triangle, InfiniteLine,
    LinesLR, LINE_LIMIT,
};

fn pt(x: i64, y: i64) -> Coord {
    Coord { x, y }
}

fn line(anchor: (i64, i64), vec: (i64, i64)) -> InfiniteLine {
    InfiniteLine::from_point_vec(&pt(anchor.0, anchor.1), &pt(vec.0, vec.1)).unwrap()
}

#[test]
fn internal() {
    println!("Testing");
    let center = pt(0, 0);
    let beam = InfiniteLine::from_point_vec(&center, &pt(1, 0)).unwrap();
    println!("{:?}", beam);
    assert_eq!(beam.direction().x, 1);
    assert_eq!(beam.direction().y, 0);

    let beam2 = beam.shift_by(1);
    println!("{:?}", beam2);
    assert_eq!(beam2.at_time(0), pt(0, -1));
}

#[test]
fn intersection() {
    let pta = pt(0, 0);
    let la = InfiniteLine::from_point_vec(&pta, &pt(1, 1)).unwrap();
    let ptb = pt(2, 0);
    let lb = InfiniteLine::from_point_vec(&ptb, &pt(-1, 1)).unwrap();
    let intersection = la.intersection(&lb);
    println!("{:?}", intersection);
    assert_eq!(intersection, Ok(pt(1, 1)));
}

#[test]
fn from_to_starts_at_its_first_point_and_reaches_its_second() {
    let p = pt(1, 2);
    let q = pt(4, 6);
    let l = InfiniteLine::from_to(&p, &q).unwrap();
    assert_eq!(l.anchor(), p);
    assert_eq!(l.direction(), pt(3, 4));
    assert_eq!(l.offset2(), 0);
    assert_eq!(l.at_time(0), p);
    assert_eq!(l.at_time(5), q);
    assert_eq!(l.at_time(10), pt(7, 10));
    assert_eq!(l.at_time(-5), pt(-2, -2));
    assert_eq!(l.at_times(vec![0, 5, 10]), vec![p, q, pt(7, 10)]);
    assert!(l.at_times(vec![]).is_empty());
}

#[test]
fn lines_along_the_null_vector_are_refused() {
    assert_eq!(
        InfiniteLine::from_to(&pt(3, -4), &pt(3, -4)),
        Err(KernelError::DegenerateDirection)
    );
    assert_eq!(
        InfiniteLine::from_point_vec(&pt(3, -4), &pt(0, 0)),
        Err(KernelError::DegenerateDirection)
    );
    assert!(InfiniteLine::from_point_vec(&pt(3, -4), &pt(0, 1)).is_ok());
    assert!(InfiniteLine::from_point_vec(&pt(LINE_LIMIT, -LINE_LIMIT), &pt(-LINE_LIMIT, 0)).is_ok());
}

#[test]
fn at_time_rounds_to_the_lattice() {
    assert_eq!(line((0, 0), (1, 1)).at_time(1000), pt(707, 707));
    assert_eq!(line((5, 5), (-2, 0)).at_time(7), pt(-2, 5));
    assert_eq!(line((1, 2), (3, 4)).shift_by(5).at_time(0), pt(5, -1));
    assert_eq!(line((1, 2), (3, 4)).shift_by(-5).at_time(5), pt(0, 9));
}

#[test]
fn shift_by_is_invertible_and_adds_up() {
    let l = line((10, 20), (3, -7));
    for d in [-1000, -1, 0, 1, 17, 1000] {
        assert_eq!(l.shift_by(d).shift_by(-d), l);
        assert_eq!(l.shift_by(d).anchor(), l.anchor());
        assert_eq!(l.shift_by(d).direction(), l.direction());
        assert_eq!(l.shift_by(d).offset2(), 2 * d);
        assert_eq!(l.shift_by(d).shift_by(5), l.shift_by(d + 5));
    }
}

#[test]
fn shifted_lines_meet_where_geometry_says() {
    // the x axis moved 5 down and the y axis moved 3 to the right
    let east = line((0, 0), (1, 0)).shift_by(5);
    let north = line((0, 0), (0, 1)).shift_by(3);
    assert_eq!(east.intersection(&north), Ok(pt(3, -5)));
    // the diagonal moved 7 to its right cuts the x axis at 7 * sqrt(2)
    let diagonal = line((0, 0), (1, 1)).shift_by(7);
    assert_eq!(diagonal.intersection(&line((0, 0), (1, 0))), Ok(pt(10, 0)));
    // the length of the direction does not matter
    let long_diagonal = line((0, 0), (500, 500)).shift_by(7);
    assert_eq!(long_diagonal.intersection(&line((-9, 0), (-3, 0))), Ok(pt(10, 0)));
}

#[test]
fn intersection_is_symmetric() {
    let lines = [
        line((0, 0), (3464, 2000)).shift_by(-75),
        line((3464, 2000), (-3464, 2000)).shift_by(-75),
        line((0, 4000), (0, -4000)).shift_by(200),
        line((17, -5), (1, 0)),
        line((0, 1000), (-500, -866)).shift_by(-825),
    ];
    for a in lines.iter() {
        for b in lines.iter() {
            assert_eq!(a.intersection(b), b.intersection(a));
        }
    }
    assert_eq!(lines[0].intersection(&lines[1]), Ok(pt(3314, 2000)));
    assert_eq!(lines[0].shift_by(-750).intersection(&lines[1]), Ok(pt(2564, 2433)));
}

#[test]
fn parallel_lines_do_not_meet() {
    let l = line((0, 0), (2, 3));
    assert_eq!(l.intersection(&l), Err(KernelError::ParallelLines));
    assert_eq!(l.intersection(&l.shift_by(4)), Err(KernelError::ParallelLines));
    assert_eq!(l.intersection(&line((5, 5), (4, 6))), Err(KernelError::ParallelLines));
    assert_eq!(l.intersection(&line((5, 5), (-2, -3))), Err(KernelError::ParallelLines));
    assert!(l.intersection(&line((5, 5), (2, 4))).is_ok());
}

#[test]
fn meeting_points_stay_in_range_at_the_limit() {
    let m = LINE_LIMIT;
    let a = line((m, m), (m, m - 1)).shift_by(m / 2);
    let b = line((-m, -m), (m - 1, m)).shift_by(-m / 2);
    let p = a.intersection(&b).unwrap();
    assert!(p.x.abs() <= (1i64 << 62) && p.y.abs() <= (1i64 << 62));
    assert_eq!(a.intersection(&b), b.intersection(&a));
}

#[test]
fn lines_lr_are_the_edges_of_a_strip() {
    let c = line((0, 0), (0, 5)).shift_by(10);
    let pair = LinesLR::new(&c, 6);
    assert_eq!(pair.l.anchor(), c.anchor());
    assert_eq!(pair.r.direction(), c.direction());
    assert_eq!(pair.l.offset2(), c.offset2() - 6);
    assert_eq!(pair.r.offset2(), c.offset2() + 6);
    assert_eq!(pair.l, c.shift_by(-3));
    assert_eq!(pair.r, c.shift_by(3));
    // the strip runs north, so its right edge lies further east
    let axis = line((0, 0), (1, 0));
    assert_eq!(pair.l.intersection(&axis), Ok(pt(7, 0)));
    assert_eq!(pair.r.intersection(&axis), Ok(pt(13, 0)));
    // an odd width is halved exactly
    let odd = LinesLR::new(&c, 5);
    assert_eq!(odd.r.offset2() - odd.l.offset2(), 10);
}

#[test]
fn triangle_of_three_lines() {
    // sides at 0, 120 and 240 degrees
    let la = line((0, 0), (1000, 0));
    let lb = line((1000, 0), (-500, 866));
    let lc = line((0, 1000), (-500, -866));
    let figure = triangle(&la, &lb, &lc).unwrap();
    assert_eq!(
        figure.exterior(),
        &LineString::new(vec![pt(1000, 0), pt(211, 1366), pt(-577, 0), pt(1000, 0)])
    );
    assert!(figure.interiors().is_empty());
}

#[test]
fn triangle_with_two_sides_in_opposite_directions_is_refused() {
    // directions at 0, 120 and -60 degrees: the last two are opposite
    let la = line((0, 0), (1000, 0));
    let lb = line((1000, 0), (-500, 866));
    let lc = line((0, 1000), (500, -866));
    assert_eq!(triangle(&la, &lb, &lc), Err(KernelError::ParallelLines));
    assert_eq!(triangle(&lc, &la, &lb), Err(KernelError::ParallelLines));
    assert_eq!(triangle(&la, &la, &lb), Err(KernelError::ParallelLines));
    // the two lines that do meet the first one meet it where they should
    assert_eq!(la.intersection(&lb), Ok(pt(1000, 0)));
    assert_eq!(lc.intersection(&la), Ok(pt(577, 0)));
    // a polygon asked for from the same three lines is no valid cycle
    assert_eq!(polygon(&[la, lb, lc]), Err(KernelError::InvalidCycle));
}

#[test]
fn polygon_from_a_cycle_of_lines() {
    let south = line((0, 0), (1, 0));
    let east = line((10, 0), (0, 1));
    let north = line((10, 6), (-1, 0));
    let west = line((0, 6), (0, -1));
    let square = polygon(&[south, east, north, west]).unwrap();
    assert_eq!(
        square.exterior(),
        &LineString::new(vec![pt(10, 0), pt(10, 6), pt(0, 6), pt(0, 0), pt(10, 0)])
    );
    assert!(square.interiors().is_empty());

    let ring = linestring_from_lines(vec![&south, &east, &north, &west]).unwrap();
    assert_eq!(ring, LineString::new(vec![pt(10, 0), pt(10, 6), pt(0, 6), pt(0, 0)]));

    // the inner edges of four strips, two units wide, walked counter-clockwise
    let inner = linestring_from_lines(vec![
        &LinesLR::new(&south, 2).l,
        &LinesLR::new(&east, 2).l,
        &LinesLR::new(&north, 2).l,
        &LinesLR::new(&west, 2).l,
    ])
    .unwrap();
    assert_eq!(inner, LineString::new(vec![pt(9, 1), pt(9, 5), pt(1, 5), pt(1, 1)]));
}

#[test]
fn cycles_that_bound_nothing_are_refused() {
    let south = line((0, 0), (1, 0));
    let east = line((10, 0), (0, 1));
    let north = line((10, 6), (-1, 0));
    let west = line((0, 6), (0, -1));
    assert_eq!(polygon(&[]), Err(KernelError::InvalidCycle));
    assert_eq!(polygon(&[south]), Err(KernelError::InvalidCycle));
    assert_eq!(polygon(&[south, east]), Err(KernelError::InvalidCycle));
    assert_eq!(linestring_from_lines(vec![]), Err(KernelError::InvalidCycle));
    assert_eq!(linestring_from_lines(vec![&south, &east]), Err(KernelError::InvalidCycle));
    // neighbours must not be parallel, whether in the middle or across the end
    assert_eq!(polygon(&[south, north, east, west]), Err(KernelError::InvalidCycle));
    assert_eq!(polygon(&[south, east, west, north]), Err(KernelError::InvalidCycle));
    assert_eq!(polygon(&[south, east, north]), Err(KernelError::InvalidCycle));
    assert!(polygon(&[south, east, line((10, 6), (-5, -3))]).is_ok());
}

#[test]
fn mean_point_vec_is_the_rounded_centroid() {
    assert_eq!(mean_point_vec(&[pt(0, 0), pt(3464, 2000), pt(0, 4000)]), pt(1155, 2000));
    assert_eq!(mean_point_vec(&[pt(7, -7)]), pt(7, -7));
    assert_eq!(mean_point_vec(&[pt(0, 0), pt(1, -1)]), pt(1, -1));
    assert_eq!(mean_point_vec(&[pt(0, 0), pt(0, 0), pt(1, -1)]), pt(0, 0));
    let big = (1i64 << 62) - 1;
    assert_eq!(mean_point_vec(&[pt(big, -big), pt(big, -big), pt(big, -big)]), pt(big, -big));
}

/// Where two lines meet, worked out with fractions.
fn meet(a: &InfiniteLine, b: &InfiniteLine) -> (f64, f64) {
    let unit = |l: &InfiniteLine| {
        let (vx, vy) = (l.direction().x as f64, l.direction().y as f64);
        let norm = (vx * vx + vy * vy).sqrt();
        let (ux, uy) = (vx / norm, vy / norm);
        let o = l.offset2() as f64 / 2.0;
        ((l.anchor().x as f64 + uy * o, l.anchor().y as f64 - ux * o), (ux, uy))
    };
    let ((p1x, p1y), (u1x, u1y)) = unit(a);
    let ((p2x, p2y), (u2x, u2y)) = unit(b);
    let (a1, b1, c1) = (u1x, -u2x, p2x - p1x);
    let (a2, b2, c2) = (u1y, -u2y, p2y - p1y);
    let d = a1 * b2 - b1 * a2;
    let dk = c1 * b2 - c2 * b1;
    let k = dk / d;
    (p1x + k * u1x, p1y + k * u1y)
}

#[test]
fn meeting_points_are_the_nearest_lattice_points() {
    let anchors = [(0, 0), (3464, 2000), (-1200, 77), (5, -4000)];
    let directions = [(1, 0), (0, -1), (3464, 2000), (-3464, 2000), (1, 1), (-7, 3), (500, -866)];
    let offsets = [0, 1, -75, 200, 1999];
    let mut lines = Vec::new();
    for (i, a) in anchors.iter().enumerate() {
        for (j, d) in directions.iter().enumerate() {
            let o = offsets[(i + j) % offsets.len()];
            lines.push(line(*a, *d).shift_by(o));
        }
    }
    let mut met = 0;
    for a in lines.iter() {
        for b in lines.iter() {
            match a.intersection(b) {
                Ok(p) => {
                    let (x, y) = meet(a, b);
                    assert!((p.x as f64 - x).abs() <= 0.75, "{:?} {:?} {:?} {}", a, b, p, x);
                    assert!((p.y as f64 - y).abs() <= 0.75, "{:?} {:?} {:?} {}", a, b, p, y);
                    assert_eq!(b.intersection(a), Ok(p));
                    met += 1;
                }
                Err(e) => {
                    assert_eq!(e, KernelError::ParallelLines);
                    let (u, v) = (a.direction(), b.direction());
                    assert_eq!(u.x * v.y - u.y * v.x, 0);
                }
            }
        }
    }
    assert!(met > 500);
}

#[test]
fn points_along_a_line_are_the_nearest_lattice_points() {
    for (a, d, o) in [((0, 0), (1, 0), 0), ((7, -3), (3464, 2000), 150), ((-50, 9), (-1, 5), -33)] {
        let l = line(a, d).shift_by(o);
        let norm = ((d.0 * d.0 + d.1 * d.1) as f64).sqrt();
        let (ux, uy) = (d.0 as f64 / norm, d.1 as f64 / norm);
        for t in [-1000, -1, 0, 1, 2, 999, 4000] {
            let p = l.at_time(t);
            let x = a.0 as f64 + uy * o as f64 + ux * t as f64;
            let y = a.1 as f64 - ux * o as f64 + uy * t as f64;
            assert!((p.x as f64 - x).abs() <= 0.75 && (p.y as f64 - y).abs() <= 0.75);
        }
    }
}

#[test]
fn guards_tell_what_a_line_can_hold() {
    let m = LINE_LIMIT;
    assert!(is_within_limit(m) && is_within_limit(-m) && is_within_limit(0));
    assert!(!is_within_limit(m + 1) && !is_within_limit(-m - 1) && !is_within_limit(i64::MIN));

    assert!(InfiniteLine::can_hold(&pt(m, -m), &pt(-m, m)));
    assert!(!InfiniteLine::can_hold(&pt(m + 1, 0), &pt(1, 1)));
    assert!(!InfiniteLine::can_hold(&pt(0, 0), &pt(1, -m - 1)));

    assert!(InfiniteLine::can_join(&pt(m, -m), &pt(0, 0)));
    assert!(InfiniteLine::can_join(&pt(-m, 0), &pt(0, 0)));
    assert!(!InfiniteLine::can_join(&pt(-m, 0), &pt(1, 0)));
    assert!(!InfiniteLine::can_join(&pt(0, 0), &pt(i64::MAX, i64::MIN)));
    assert!(!InfiniteLine::can_join(&pt(i64::MIN, 0), &pt(i64::MAX, 0)));

    let l = line((0, 0), (1, 2)).shift_by(100);
    assert!(l.can_shift_by(m / 2 - 100) && l.can_shift_by(-m / 2 - 100));
    assert!(!l.can_shift_by(m / 2 - 99) && !l.can_shift_by(-m / 2 - 101));
    assert!(!l.can_shift_by(i64::MAX) && !l.can_shift_by(i64::MIN));
    assert!(l.can_carry(m - 200) && l.can_carry(200 - m));
    assert!(!l.can_carry(m - 199) && !l.can_carry(i64::MIN) && !l.can_carry(i64::MAX));
}

#[test]
fn line_comes_back_to_its_second_point_at_the_whole_part_of_the_distance() {
    let starts = [(0, 0), (17, -4000), (-3464, 2000)];
    let ends = [(1, 1), (1, 0), (0, -1), (3464, 2000), (-7, 3), (500, -866), (2, 1), (99_999, 1)];
    for p in starts {
        for q in ends {
            if p == q {
                continue;
            }
            let (p, q) = (pt(p.0, p.1), pt(q.0, q.1));
            let l = InfiniteLine::from_to(&p, &q).unwrap();
            let (dx, dy) = ((q.x - p.x) as u128, (q.y - p.y) as u128);
            let squared = dx.wrapping_mul(dx).wrapping_add(dy.wrapping_mul(dy));
            let distance = kumiko::roots::isqrt(squared) as i64;
            let there = l.at_time(distance);
            assert!((there.x - q.x).abs() <= 2 && (there.y - q.y).abs() <= 2, "{:?} {:?} {:?}", p, q, there);
            assert_eq!(l.at_time(0), p);
        }
    }
}
