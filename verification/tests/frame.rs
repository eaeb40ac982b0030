use kumiko::frame::{
    rectangle_is_representable, rectangular_contour_vertices, Frame, FrameParams, Iter,
    RectangularFrame, SideParams, SimpleFrame, ZigZagFrame,
};
use kumiko::geometry::{Coord, LineString};

fn coords(xys: &[(i64, i64)]) -> Vec<Coord> {
    xys.iter().map(|(x, y)| Coord { x: *x, y: *y }).collect()
}

#[test]
fn test_zigzag_bottom() {
    // given the config
    let bot_config: SideParams = SideParams { phi: 2, delta: 3, n: None, inverse: true };
    let top_config: SideParams = SideParams { phi: 4, delta: 3, n: Some(4), inverse: false };
    let ver_config: SideParams = SideParams { phi: 0, delta: 4, n: Some(4), inverse: false };
    let params: FrameParams = FrameParams {
        bottom: &bot_config,
        right: &ver_config,
        top: &top_config,
        left: &ver_config,
        depth: 1,
    };
    let width = 12;
    let height = 30;
    let frame: ZigZagFrame = ZigZagFrame::new(Coord { x: 0, y: 0 }, width, height, 3, params);

    // When

    //  3  2  1  0  1  2  3  4  5  6  7  8  9  0  1  2  3  4  5
    //
    //            <---<---<---<---<---<---<---<---<---
    //
    //  +--=--=--=--=--+        +--=--=--+        +--=--=--=--+ 33
    //  |              +--=--=--+        +--=--=--+           | 32
    //  |                                                     |
    //  |        +-----------------------------------+        | 30 = origin.y+height
    //  |        |                                   |        |
    //  |        +-----------------------------------+        |  0 = origin.y
    //  |                                                     |
    //  +-----+        +--=--=--+        +--=--=--+        +--+ -2
    //        +--=--=--+        +--=--=--+        +--=--=--+    -3
    //
    //             --->--->--->--->--->--->--->--->--->
    let low_str = frame.lower_string();
    let low_cs: Vec<Coord> = low_str.0.iter().map(|c| *c).collect::<Vec<Coord>>();
    let top_str = frame.upper_string();
    let top_cs: Vec<Coord> = top_str.0.iter().map(|c| *c).collect::<Vec<Coord>>();
    // Then
    let expected_bot_coords = vec![
        Coord { x: -3, y: -2 },
        Coord { x: -1, y: -2 },
        Coord { x: -1, y: -3 },
        Coord { x: 2, y: -3 },
        Coord { x: 2, y: -2 },
        Coord { x: 5, y: -2 },
        Coord { x: 5, y: -3 },
        Coord { x: 8, y: -3 },
        Coord { x: 8, y: -2 },
        Coord { x: 11, y: -2 },
        Coord { x: 11, y: -3 },
        Coord { x: 14, y: -3 },
        Coord { x: 14, y: -2 },
        Coord { x: 15, y: -2 },
    ];
    assert_eq!(expected_bot_coords, low_cs);

    let expected_top_coords = vec![
        Coord { x: 15, y: height + 3 },
        Coord { x: 11, y: height + 3 },
        Coord { x: 11, y: height + 2 },
        Coord { x: 8, y: height + 2 },
        Coord { x: 8, y: height + 3 },
        Coord { x: 5, y: height + 3 },
        Coord { x: 5, y: height + 2 },
        Coord { x: 2, y: height + 2 },
        Coord { x: 2, y: height + 3 },
        Coord { x: -3, y: height + 3 },
    ];
    assert_eq!(expected_top_coords, top_cs);
}

fn zigzag(bottom: SideParams, top: SideParams, depth: i64) -> (Vec<Coord>, Vec<Coord>) {
    let side = SideParams { phi: 0, delta: 4, n: Some(4), inverse: false };
    let params = FrameParams { bottom: &bottom, right: &side, top: &top, left: &side, depth };
    let frame = ZigZagFrame::new(Coord { x: 10, y: 20 }, 8, 6, 1, params);
    (frame.lower_string().into_inner(), frame.upper_string().into_inner())
}

#[test]
fn zigzag_that_starts_past_its_end_has_no_teeth() {
    let (low, top) = zigzag(
        SideParams { phi: 10, delta: 3, n: None, inverse: false },
        SideParams { phi: 12, delta: 0, n: None, inverse: true },
        2,
    );
    assert_eq!(low, coords(&[(9, 19), (19, 19)]));
    assert_eq!(top, coords(&[(19, 29), (9, 29)]));
}

#[test]
fn zigzag_with_no_teeth_allowed_is_one_run() {
    let (low, top) = zigzag(
        SideParams { phi: 1, delta: 1, n: Some(0), inverse: false },
        SideParams { phi: 1, delta: 1, n: Some(0), inverse: false },
        2,
    );
    assert_eq!(low, coords(&[(9, 19), (19, 19)]));
    assert_eq!(top, coords(&[(19, 27), (9, 27)]));
}

#[test]
fn zigzag_stops_at_its_limit_even_when_it_makes_no_headway() {
    let (low, top) = zigzag(
        SideParams { phi: 2, delta: 0, n: Some(2), inverse: false },
        SideParams { phi: 2, delta: -1, n: Some(1), inverse: true },
        5,
    );
    assert_eq!(low, coords(&[(9, 19), (11, 19), (11, 24), (11, 24), (11, 19), (19, 19)]));
    assert_eq!(top, coords(&[(19, 32), (17, 32), (17, 37), (9, 37)]));
}

#[test]
fn zigzag_that_ends_exactly_on_its_end_adds_no_tooth() {
    let (low, _) = zigzag(
        SideParams { phi: 4, delta: 3, n: None, inverse: false },
        SideParams { phi: 1, delta: 1, n: Some(0), inverse: false },
        1,
    );
    // runs reach 13, 16, 19: the third run ends on the end
    assert_eq!(
        low,
        coords(&[(9, 19), (13, 19), (13, 20), (16, 20), (16, 19), (19, 19)])
    );
}

#[test]
fn simple_frame_contours() {
    let frame = SimpleFrame::new(Coord { x: 1, y: 2 }, 10, 20, 3);
    assert_eq!(
        frame.inner_contour(),
        LineString::new(coords(&[(1, 2), (11, 2), (11, 22), (1, 22)]))
    );
    assert_eq!(
        frame.outer_contour(),
        LineString::new(coords(&[(-2, -1), (14, -1), (14, 25), (-2, 25)]))
    );
    assert_eq!(
        rectangular_contour_vertices(Coord { x: 0, y: 0 }, 4, 2, -1),
        coords(&[(1, 1), (3, 1), (3, 1), (1, 1)])
    );
}

#[test]
fn simple_frame_clips_to_its_inner_ring() {
    let frame = SimpleFrame::new(Coord { x: 0, y: 0 }, 10, 10, 2);
    let inside = LineString::new(coords(&[(2, 2), (4, 2), (4, 4), (2, 4)]));
    let across = LineString::new(coords(&[(8, 8), (14, 8), (14, 14), (8, 14)]));
    let outside = LineString::new(coords(&[(20, 20), (24, 20), (24, 24)]));

    let outcome = frame.frame(&[inside, across, outside]);
    assert_eq!(outcome.dropped, vec![2]);
    let figure = outcome.figure;

    assert_eq!(
        figure.exterior(),
        &LineString::new(coords(&[(-2, -2), (12, -2), (12, 12), (-2, 12), (-2, -2)]))
    );
    assert_eq!(figure.interiors().len(), 2);
    let mut kept: Vec<Coord> = figure.interiors()[1].clone().into_inner();
    kept.pop();
    kept.sort_by_key(|c| (c.x, c.y));
    assert_eq!(kept, coords(&[(8, 8), (8, 10), (10, 8), (10, 10)]));
}

#[test]
fn iter_counts_down() {
    let mut bounded = Iter::new(&Some(2));
    assert!(!bounded.is_done());
    bounded.next();
    assert!(!bounded.is_done());
    bounded.next();
    assert!(bounded.is_done());

    let mut unbounded = Iter::new(&None);
    for _ in 0..1000 {
        unbounded.next();
        assert!(!unbounded.is_done());
    }
    assert!(Iter::new(&Some(0)).is_done());
}

/// The zigzag walked step by step, as a carpenter would mark it.
fn walk(
    start: (i64, i64),
    phi: i64,
    delta: i64,
    first_rise: i64,
    end: i64,
    limit: Option<u16>,
    rightward: bool,
) -> Vec<Coord> {
    let past = |x: i64| if rightward { x >= end } else { x <= end };
    let step = |x: i64, by: i64| if rightward { x + by } else { x - by };
    let (mut x, mut y) = start;
    let mut rise = first_rise;
    let mut left = limit;
    let mut cs = vec![Coord { x, y }];
    x = step(x, phi);
    cs.push(Coord { x, y });
    while !past(x) && left != Some(0) {
        left = left.map(|n| n - 1);
        y += rise;
        rise = -rise;
        cs.push(Coord { x, y });
        x = step(x, delta);
        cs.push(Coord { x, y });
    }
    cs.last_mut().unwrap().x = end;
    cs
}

#[test]
fn zigzag_sides_agree_with_a_walk() {
    let limits = [None, Some(0), Some(1), Some(2), Some(5), Some(40)];
    for phi in [-3, 0, 1, 4, 9, 30] {
        for delta in [-2, 0, 1, 3, 7, 25] {
            for limit in limits {
                for inverse in [false, true] {
                    for depth in [-2, 0, 3] {
                        let bottom = SideParams { phi, delta, n: limit, inverse };
                        let top = SideParams { phi, delta, n: limit, inverse };
                        let side = SideParams { phi: 0, delta: 4, n: Some(4), inverse: false };
                        let params = FrameParams {
                            bottom: &bottom,
                            right: &side,
                            top: &top,
                            left: &side,
                            depth,
                        };
                        let frame = ZigZagFrame::new(Coord { x: 5, y: -7 }, 20, 11, 2, params);
                        // without a limit, a side whose teeth make no headway
                        // comes to an end only if its first run covers it
                        let ends = limit.is_some() || delta > 0 || phi >= 24;
                        assert_eq!(frame.lower_is_representable(), ends);
                        assert_eq!(frame.upper_is_representable(), ends);
                        if !ends {
                            continue;
                        }
                        let lift = if inverse { depth } else { 0 };
                        let low = walk(
                            (3, -9 + lift),
                            phi,
                            delta,
                            if inverse { -depth } else { depth },
                            27,
                            limit,
                            true,
                        );
                        let high = walk(
                            (27, 6 + lift),
                            phi,
                            delta,
                            if inverse { depth } else { -depth },
                            3,
                            limit,
                            false,
                        );
                        assert_eq!(frame.lower_string().into_inner(), low);
                        assert_eq!(frame.upper_string().into_inner(), high);
                    }
                }
            }
        }
    }
}

#[test]
fn guards_tell_what_a_frame_can_hold() {
    let origin = Coord { x: 10, y: -10 };
    assert!(rectangle_is_representable(&origin, 5, 5, 1));
    assert!(rectangle_is_representable(&origin, i64::MAX - 11, i64::MAX, 1));
    assert!(!rectangle_is_representable(&origin, i64::MAX - 10, 0, 1));
    assert!(!rectangle_is_representable(&origin, i64::MAX - 9, 0, -1));
    assert!(rectangle_is_representable(&origin, 0, 0, i64::MIN + 11));
    assert!(!rectangle_is_representable(&origin, 0, 0, i64::MIN));
    assert!(SimpleFrame::new(origin, 5, 5, 1).is_representable());
    assert!(!SimpleFrame::new(origin, i64::MAX, 5, 1).is_representable());
}

#[test]
fn zigzag_guards_tell_what_fits() {
    let side = SideParams { phi: 0, delta: 4, n: Some(4), inverse: false };
    let far = i64::MAX - 30;
    let reach = |bottom: SideParams, top: SideParams, origin: (i64, i64), depth: i64| {
        let params = FrameParams { bottom: &bottom, right: &side, top: &top, left: &side, depth };
        let frame = ZigZagFrame::new(Coord { x: origin.0, y: origin.1 }, 20, 10, 2, params);
        (frame.lower_is_representable(), frame.upper_is_representable())
    };
    let tooth = |phi: i64, delta: i64, n: Option<u16>| SideParams { phi, delta, n, inverse: false };
    // the right outer corners lie at far + 22 <= i64::MAX - 8
    assert_eq!(reach(tooth(1, 3, None), tooth(1, 3, None), (far, 0), 1), (true, true));
    // the last run of the lower side would end beyond the largest number
    assert_eq!(reach(tooth(1, 40, None), tooth(1, 3, None), (far, 0), 1), (false, true));
    // but not when a first run covers the side, or no tooth is allowed
    assert_eq!(reach(tooth(24, 40, None), tooth(1, 3, None), (far, 0), 1), (true, true));
    assert_eq!(reach(tooth(1, 40, Some(0)), tooth(1, 3, None), (far, 0), 1), (true, true));
    // the right outer corners themselves must fit
    assert_eq!(reach(tooth(1, 3, None), tooth(1, 3, None), (far + 9, 0), 1), (false, false));
    // the second level of a side must fit, if the side has a tooth
    assert_eq!(reach(tooth(1, 3, None), tooth(1, 3, None), (0, i64::MIN + 2), -1), (false, true));
    assert_eq!(reach(tooth(30, 3, None), tooth(1, 3, None), (0, i64::MIN + 2), -1), (true, true));
    assert_eq!(reach(tooth(1, 3, None), tooth(1, 3, None), (0, i64::MAX - 12), -1), (true, false));
    // teeth that run backwards reach far, and in the end too far
    assert_eq!(reach(tooth(1, i64::MIN / 4, Some(3)), side_of(1, 3), (0, 0), 1), (true, true));
    assert_eq!(reach(tooth(1, i64::MIN / 4, Some(5)), side_of(1, 3), (0, 0), 1), (false, true));
}

fn side_of(phi: i64, delta: i64) -> SideParams {
    SideParams { phi, delta, n: None, inverse: false }
}

#[test]
fn zigzag_frame_has_a_rectangle_inside_and_zigzags_outside() {
    let bot_config = SideParams { phi: 2, delta: 3, n: None, inverse: true };
    let top_config = SideParams { phi: 4, delta: 3, n: Some(4), inverse: false };
    let ver_config = SideParams { phi: 0, delta: 4, n: Some(4), inverse: false };
    let params = FrameParams {
        bottom: &bot_config,
        right: &ver_config,
        top: &top_config,
        left: &ver_config,
        depth: 1,
    };
    let frame = ZigZagFrame::new(Coord { x: 0, y: 0 }, 12, 30, 3, params);

    assert_eq!(frame.origin(), Coord { x: 0, y: 0 });
    assert_eq!((frame.width(), frame.height()), (12, 30));
    assert_eq!(frame.rectangular_contour_vertices(1), coords(&[(-1, -1), (13, -1), (13, 31), (-1, 31)]));
    assert!(frame.is_representable());
    assert_eq!(
        frame.inner_contour(),
        LineString::new(coords(&[(0, 0), (12, 0), (12, 30), (0, 30)]))
    );
    let outer = frame.outer_contour().into_inner();
    let mut expected = frame.lower_string().into_inner();
    expected.extend(frame.upper_string().into_inner());
    assert_eq!(outer, expected);
    assert_eq!(outer.len(), 14 + 10);
    assert_eq!(outer[0], Coord { x: -3, y: -2 });
    assert_eq!(outer[13], Coord { x: 15, y: -2 });
    assert_eq!(outer[14], Coord { x: 15, y: 33 });
    assert_eq!(outer[23], Coord { x: -3, y: 33 });

    let inside = LineString::new(coords(&[(2, 2), (4, 2), (4, 4), (2, 4)]));
    let below = LineString::new(coords(&[(2, -2), (4, -2), (4, -1)]));
    let outcome = frame.frame(&[below, inside]);
    assert_eq!(outcome.dropped, vec![0]);
    assert_eq!(outcome.figure.interiors().len(), 1);
    assert_eq!(outcome.figure.exterior().0.len(), 25);
    assert_eq!(outcome.figure.exterior().0[24], Coord { x: -3, y: -2 });

    let simple = SimpleFrame::new(Coord { x: 1, y: 2 }, 10, 20, 3);
    assert_eq!(simple.origin(), Coord { x: 1, y: 2 });
    assert_eq!((simple.width(), simple.height()), (10, 20));
    assert_eq!(simple.rectangular_contour_vertices(3), simple.outer_contour().into_inner());
}

#[test]
fn zigzag_frame_that_cannot_be_drawn_says_so() {
    let endless = SideParams { phi: 2, delta: 0, n: None, inverse: false };
    let fine = SideParams { phi: 2, delta: 3, n: None, inverse: false };
    let params = FrameParams { bottom: &fine, right: &fine, top: &endless, left: &fine, depth: 1 };
    let frame = ZigZagFrame::new(Coord { x: 0, y: 0 }, 12, 30, 3, params);
    assert!(frame.lower_is_representable());
    assert!(!frame.upper_is_representable());
    assert!(!frame.is_representable());
}
