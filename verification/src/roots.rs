//! Whole square roots and rounded quotients: the only two places where the
//! line algebra rounds.

use vstd::prelude::*;

verus! {

/// Whether `r` is the square root of `n`, rounded down.
pub open spec fn is_floor_sqrt(n: nat, r: nat) -> bool {
    r * r <= n < (r + 1) * (r + 1)
}

/// The square root of `n`, rounded down.
pub open spec fn floor_sqrt(n: nat) -> nat
    decreases n,
{
    if n == 0 {
        0
    } else {
        let r = floor_sqrt((n - 1) as nat);
        if (r + 1) * (r + 1) <= n {
            r + 1
        } else {
            r
        }
    }
}

/// `floor_sqrt(n)` is the one number whose square is at most `n` and whose
/// successor's square is more than `n`.
pub proof fn lemma_floor_sqrt(n: nat)
    ensures
        is_floor_sqrt(n, floor_sqrt(n)),
        forall|r: nat| is_floor_sqrt(n, r) ==> r == floor_sqrt(n),
    decreases n,
{
    if n > 0 {
        lemma_floor_sqrt((n - 1) as nat);
        let r = floor_sqrt((n - 1) as nat);
        assert(r * r <= n - 1 < (r + 1) * (r + 1));
        assert((r + 1) * (r + 1) < (r + 2) * (r + 2)) by (nonlinear_arith);
    } else {
        assert(0 * 0 == 0) by (nonlinear_arith);
        assert((0 + 1) * (0 + 1) == 1) by (nonlinear_arith);
    }
    let s = floor_sqrt(n);
    assert forall|r: nat| is_floor_sqrt(n, r) implies r == s by {
        if r < s {
            assert((r + 1) * (r + 1) <= s * s) by (nonlinear_arith)
                requires
                    r + 1 <= s,
            ;
        } else if r > s {
            assert((s + 1) * (s + 1) <= r * r) by (nonlinear_arith)
                requires
                    s + 1 <= r,
            ;
        }
    }
}

/// The square root of a square is its base.
pub proof fn lemma_floor_sqrt_of_square(r: nat)
    ensures
        floor_sqrt(r * r) == r,
{
    lemma_floor_sqrt(r * r);
    assert(r * r < (r + 1) * (r + 1)) by (nonlinear_arith);
    assert(is_floor_sqrt(r * r, r));
}

/// The square root of `n`, rounded down.
pub fn isqrt(n: u128) -> (r: u128)
    requires
        n < 0x4000_0000_0000_0000_0000_0000_0000_0000,
    ensures
        r == floor_sqrt(n as nat),
        r < 0x8000_0000_0000_0000,
{
    let mut lo: u128 = 0;
    let mut hi: u128 = 0x8000_0000_0000_0000;
    assert(0x8000_0000_0000_0000 * 0x8000_0000_0000_0000
        == 0x4000_0000_0000_0000_0000_0000_0000_0000) by (nonlinear_arith);
    assert(0 * 0 == 0) by (nonlinear_arith);
    while hi - lo > 1
        invariant
            lo < hi <= 0x8000_0000_0000_0000,
            lo * lo <= n < hi * hi,
        decreases hi - lo,
    {
        let mid = lo + (hi - lo) / 2;
        assert(mid * mid < 0x8000_0000_0000_0000 * 0x8000_0000_0000_0000) by (nonlinear_arith)
            requires
                0 <= mid < 0x8000_0000_0000_0000,
        ;
        if mid * mid <= n {
            lo = mid;
        } else {
            hi = mid;
        }
    }
    proof {
        lemma_floor_sqrt(n as nat);
        assert(is_floor_sqrt(n as nat, lo as nat));
    }
    lo
}

/// The quotient of `n` by `m`, rounded to the nearest whole number, halves
/// away from zero.
pub open spec fn round_div(n: int, m: int) -> int {
    let an = if n < 0 { -n } else { n };
    let am = if m < 0 { -m } else { m };
    let q = (2 * an + am) / (2 * am);
    if (n < 0) == (m < 0) {
        q
    } else {
        -q
    }
}

/// `w` times the square root of `q`, rounded toward zero.
pub open spec fn scaled_root(w: int, q: int) -> int {
    let r = floor_sqrt((w * w * q) as nat) as int;
    if w < 0 {
        -r
    } else {
        r
    }
}

/// Largest magnitude of a factor, and largest radicand, that `times_root`
/// takes.
pub const ROOT_LIMIT: i128 = 0x100_0000_0000;

/// `w` times the square root of `q`, rounded toward zero.
pub fn times_root(w: i128, q: i128) -> (r: i128)
    requires
        -ROOT_LIMIT <= w <= ROOT_LIMIT,
        0 <= q <= ROOT_LIMIT,
    ensures
        r == scaled_root(w as int, q as int),
        -0x1000_0000_0000_0000 <= r <= 0x1000_0000_0000_0000,
{
    let aw: u128 = if w < 0 { (-w) as u128 } else { w as u128 };
    assert(aw * aw <= 0x100_0000_0000 * 0x100_0000_0000) by (nonlinear_arith)
        requires
            0 <= aw <= 0x100_0000_0000,
    ;
    assert(aw * aw == w * w) by (nonlinear_arith)
        requires
            aw == w || aw == -w,
    ;
    let square = aw * aw;
    assert(square * q <= 0x1_0000_0000_0000_0000_0000 * 0x100_0000_0000) by (nonlinear_arith)
        requires
            0 <= square <= 0x1_0000_0000_0000_0000_0000,
            0 <= q <= 0x100_0000_0000,
    ;
    let r = isqrt(square * (q as u128));
    proof {
        lemma_floor_sqrt((w * w * q) as nat);
        if r > 0x1000_0000_0000_0000 {
            assert(r * r > 0x1000_0000_0000_0000 * 0x1000_0000_0000_0000) by (nonlinear_arith)
                requires
                    r > 0x1000_0000_0000_0000,
            ;
        }
    }
    if w < 0 {
        -(r as i128)
    } else {
        r as i128
    }
}

/// The quotient of `n` by `m`, rounded to the nearest whole number, halves
/// away from zero.
pub fn rounded_quotient(n: i128, m: i128) -> (q: i128)
    requires
        m != 0,
        -0x4000_0000_0000_0000_0000_0000_0000_0000 <= n <= 0x4000_0000_0000_0000_0000_0000_0000_0000,
        -0x4000_0000_0000_0000_0000_0000_0000_0000 <= m <= 0x4000_0000_0000_0000_0000_0000_0000_0000,
    ensures
        q == round_div(n as int, m as int),
        n >= 0 ==> -n <= q <= n,
        n <= 0 ==> n <= q <= -n,
{
    let an: u128 = if n < 0 { (-n) as u128 } else { n as u128 };
    let am: u128 = if m < 0 { (-m) as u128 } else { m as u128 };
    let q = (2 * an + am) / (2 * am);
    assert(q <= an) by (nonlinear_arith)
        requires
            am >= 1,
            an >= 0,
            q == (2 * an + am) / (2 * am),
    ;
    if (n < 0) == (m < 0) {
        q as i128
    } else {
        -(q as i128)
    }
}

/// Rounding the quotient does not depend on which of the two numbers carries
/// the sign.
pub proof fn lemma_round_div_signs(n: int, m: int)
    requires
        m != 0,
    ensures
        round_div(-n, -m) == round_div(n, m),
        round_div(-n, m) == -round_div(n, m),
        round_div(n, -m) == -round_div(n, m),
{
    if n == 0 {
        let am = if m < 0 { -m } else { m };
        assert((2 * 0 + am) / (2 * am) == 0) by (nonlinear_arith)
            requires
                am > 0,
        ;
    }
}

/// The rounded quotient is a whole number nearest to the quotient: times the
/// divisor, it misses the dividend by half the divisor at most.
pub proof fn lemma_round_div_is_nearest(n: int, m: int)
    requires
        m != 0,
    ensures
        ({
            let miss = 2 * (round_div(n, m) * m - n);
            if m < 0 {
                m <= miss <= -m
            } else {
                -m <= miss <= m
            }
        }),
{
    let an = if n < 0 { -n } else { n };
    let am = if m < 0 { -m } else { m };
    let q = (2 * an + am) / (2 * am);
    assert(-am <= 2 * (q * am - an) <= am) by (nonlinear_arith)
        requires
            am > 0,
            an >= 0,
            q == (2 * an + am) / (2 * am),
    ;
    assert(round_div(n, m) * m - n == q * am - an || round_div(n, m) * m - n == -(q * am - an))
        by (nonlinear_arith)
        requires
            (n < 0) == (m < 0) ==> round_div(n, m) == q,
            (n < 0) != (m < 0) ==> round_div(n, m) == -q,
            an == if n < 0 { -n } else { n },
            am == if m < 0 { -m } else { m },
            m != 0,
    ;
}

/// The root of a square needs no rounding: `w` times the root of `n * n` is
/// `w * n`.
pub proof fn lemma_scaled_root_of_square(w: int, n: int)
    requires
        n >= 0,
    ensures
        scaled_root(w, n * n) == w * n,
{
    let aw = if w < 0 { -w } else { w };
    assert(w * w * (n * n) == (aw * n) * (aw * n)) by (nonlinear_arith)
        requires
            aw == w || aw == -w,
    ;
    assert(aw * n >= 0) by (nonlinear_arith)
        requires
            aw >= 0,
            n >= 0,
    ;
    lemma_floor_sqrt_of_square((aw * n) as nat);
    assert(aw * n == w * n || aw * n == -(w * n)) by (nonlinear_arith)
        requires
            aw == w || aw == -w,
    ;
    assert(w < 0 ==> aw * n == -(w * n)) by (nonlinear_arith)
        requires
            aw == if w < 0 { -w } else { w },
    ;
    assert(w >= 0 ==> aw * n == w * n) by (nonlinear_arith)
        requires
            aw == if w < 0 { -w } else { w },
    ;
}

/// A multiple of `m` divided by `m` needs no rounding.
pub proof fn lemma_round_div_exact(k: int, m: int)
    requires
        m != 0,
    ensures
        round_div(m * k, m) == k,
{
    let n = m * k;
    let an = if n < 0 { -n } else { n };
    let am = if m < 0 { -m } else { m };
    let ak = if k < 0 { -k } else { k };
    assert(an == am * ak) by (nonlinear_arith)
        requires
            n == m * k,
            an == if n < 0 { -n } else { n },
            am == if m < 0 { -m } else { m },
            ak == if k < 0 { -k } else { k },
    ;
    assert((2 * an + am) / (2 * am) == ak) by (nonlinear_arith)
        requires
            an == am * ak,
            am > 0,
            ak >= 0,
    ;
    assert((n < 0) == (m < 0) || k <= 0) by (nonlinear_arith)
        requires
            n == m * k,
            m != 0,
    ;
    assert((n < 0) != (m < 0) || k >= 0) by (nonlinear_arith)
        requires
            n == m * k,
            m != 0,
    ;
}

} // verus!
