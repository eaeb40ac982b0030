use kumiko::roots::{isqrt, rounded_quotient, times_root};

#[test]
fn isqrt_rounds_down() {
    let expected = [(0, 0), (1, 1), (2, 1), (3, 1), (4, 2), (15, 3), (16, 4), (17, 4), (99, 9), (100, 10)];
    for (n, r) in expected {
        assert_eq!(isqrt(n), r);
    }
    let r: u128 = (1 << 63) - 1;
    assert_eq!(isqrt(r * r), r);
    assert_eq!(isqrt(r * r - 1), r - 1);
    assert_eq!(isqrt(r * r + 2 * r), r);
    assert_eq!(isqrt((1u128 << 126) - 1), r);
}

#[test]
fn times_root_rounds_toward_zero() {
    assert_eq!(times_root(7, 2), 9);
    assert_eq!(times_root(-7, 2), -9);
    assert_eq!(times_root(5, 9), 15);
    assert_eq!(times_root(-5, 9), -15);
    assert_eq!(times_root(0, 7), 0);
    assert_eq!(times_root(7, 0), 0);
    assert_eq!(times_root(1000, 3), 1732);
    let limit: i128 = 1 << 40;
    assert_eq!(times_root(limit, limit), 1 << 60);
    assert_eq!(times_root(-limit, limit), -(1 << 60));
}

#[test]
fn rounded_quotient_rounds_halves_away_from_zero() {
    let expected = [
        (7, 2, 4),
        (-7, 2, -4),
        (7, -2, -4),
        (-7, -2, 4),
        (5, 3, 2),
        (4, 3, 1),
        (-5, 3, -2),
        (1, 2, 1),
        (-1, 2, -1),
        (1, 3, 0),
        (0, 5, 0),
        (0, -5, 0),
        (12, 4, 3),
        (-12, 4, -3),
    ];
    for (n, m, q) in expected {
        assert_eq!(rounded_quotient(n, m), q);
    }
    let big: i128 = 1 << 126;
    assert_eq!(rounded_quotient(big, 1), big);
    assert_eq!(rounded_quotient(-big, big), -1);
    assert_eq!(rounded_quotient(big, -big), -1);
}
