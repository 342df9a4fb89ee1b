//! Dequantized-coefficient blocks back to samples: un-zigzag, a
//! separable two-pass inverse DCT in fixed-point integer arithmetic,
//! level shift by 128 and clamping to a byte.
//!
//! The cosine factors are scaled by 2048, with non-zero frequencies
//! carrying the extra factor sqrt(2); the first pass divides the scale
//! back out and the second divides by 8 * 2048, so a block whose only
//! coefficient is a DC value d comes out as round(d / 8) + 128. The
//! result is deterministic, though not bit-exact with a real-valued
//! transform.

use vstd::arithmetic::div_mod::lemma_fundamental_div_mod;
use vstd::arithmetic::div_mod::lemma_fundamental_div_mod_converse_div;
use vstd::arithmetic::div_mod::lemma_hoist_over_denominator;
use vstd::arithmetic::div_mod::lemma_div_nonincreasing;
use vstd::arithmetic::div_mod::lemma_div_pos_is_pos;
use vstd::prelude::*;

verus! {

/// The largest coefficient magnitude the transform accepts: a DC sum
/// saturated at 32 bits, multiplied by the largest quantizer, 255.
pub const COEF_LIMIT: i64 = 547608330240;

/// The coefficient index that feeds sample `(y, x)` of the 8x8 block:
/// the standard zigzag traversal, low spatial frequencies first.
pub open spec fn zz(y: int, x: int) -> int {
    if y == 0 {
        if x == 0 { 0 } else if x == 1 { 1 } else if x == 2 { 5 } else if x == 3 { 6 }
        else if x == 4 { 14 } else if x == 5 { 15 } else if x == 6 { 27 } else { 28 }
    } else if y == 1 {
        if x == 0 { 2 } else if x == 1 { 4 } else if x == 2 { 7 } else if x == 3 { 13 }
        else if x == 4 { 16 } else if x == 5 { 26 } else if x == 6 { 29 } else { 42 }
    } else if y == 2 {
        if x == 0 { 3 } else if x == 1 { 8 } else if x == 2 { 12 } else if x == 3 { 17 }
        else if x == 4 { 25 } else if x == 5 { 30 } else if x == 6 { 41 } else { 43 }
    } else if y == 3 {
        if x == 0 { 9 } else if x == 1 { 11 } else if x == 2 { 18 } else if x == 3 { 24 }
        else if x == 4 { 31 } else if x == 5 { 40 } else if x == 6 { 44 } else { 53 }
    } else if y == 4 {
        if x == 0 { 10 } else if x == 1 { 19 } else if x == 2 { 23 } else if x == 3 { 32 }
        else if x == 4 { 39 } else if x == 5 { 45 } else if x == 6 { 52 } else { 54 }
    } else if y == 5 {
        if x == 0 { 20 } else if x == 1 { 22 } else if x == 2 { 33 } else if x == 3 { 38 }
        else if x == 4 { 46 } else if x == 5 { 51 } else if x == 6 { 55 } else { 60 }
    } else if y == 6 {
        if x == 0 { 21 } else if x == 1 { 34 } else if x == 2 { 37 } else if x == 3 { 47 }
        else if x == 4 { 50 } else if x == 5 { 56 } else if x == 6 { 59 } else { 61 }
    } else {
        if x == 0 { 35 } else if x == 1 { 36 } else if x == 2 { 48 } else if x == 3 { 49 }
        else if x == 4 { 57 } else if x == 5 { 58 } else if x == 6 { 62 } else { 63 }
    }
}

/// The zigzag index as an executable lookup.
pub fn zigzag_index(y: usize, x: usize) -> (z: usize)
    requires
        y < 8,
        x < 8,
    ensures
        z == zz(y as int, x as int),
        z < 64,
{
    match y {
        0 => match x { 0 => 0, 1 => 1, 2 => 5, 3 => 6, 4 => 14, 5 => 15, 6 => 27, _ => 28 },
        1 => match x { 0 => 2, 1 => 4, 2 => 7, 3 => 13, 4 => 16, 5 => 26, 6 => 29, _ => 42 },
        2 => match x { 0 => 3, 1 => 8, 2 => 12, 3 => 17, 4 => 25, 5 => 30, 6 => 41, _ => 43 },
        3 => match x { 0 => 9, 1 => 11, 2 => 18, 3 => 24, 4 => 31, 5 => 40, 6 => 44, _ => 53 },
        4 => match x { 0 => 10, 1 => 19, 2 => 23, 3 => 32, 4 => 39, 5 => 45, 6 => 52, _ => 54 },
        5 => match x { 0 => 20, 1 => 22, 2 => 33, 3 => 38, 4 => 46, 5 => 51, 6 => 55, _ => 60 },
        6 => match x { 0 => 21, 1 => 34, 2 => 37, 3 => 47, 4 => 50, 5 => 56, 6 => 59, _ => 61 },
        _ => match x { 0 => 35, 1 => 36, 2 => 48, 3 => 49, 4 => 57, 5 => 58, 6 => 62, _ => 63 },
    }
}

/// cos(m * pi / 16) scaled by 2048 * sqrt(2) and rounded, for
/// m in 0..=8: the distinct magnitudes every cosine factor reduces to.
pub open spec fn cos_base(m: int) -> int {
    if m == 0 { 2896 } else if m == 1 { 2841 } else if m == 2 { 2676 } else if m == 3 { 2408 }
    else if m == 4 { 2048 } else if m == 5 { 1609 } else if m == 6 { 1108 } else if m == 7 { 565 }
    else { 0 }
}

/// The fixed-point factor of frequency `u` at sample `k`:
/// cos((2k+1) * u * pi / 16) scaled by 2048, with non-zero frequencies
/// carrying the extra sqrt(2). The angle is reduced modulo 2 * pi and
/// folded through the cosine's symmetries.
pub open spec fn cos_q(u: int, k: int) -> int {
    if u == 0 {
        2048
    } else {
        let m = ((2 * k + 1) * u) % 32;
        if m <= 8 {
            cos_base(m)
        } else if m <= 16 {
            -cos_base(16 - m)
        } else if m <= 24 {
            -cos_base(m - 16)
        } else {
            cos_base(32 - m)
        }
    }
}

fn cos_base_exec(m: usize) -> (b: i64)
    requires
        m <= 8,
    ensures
        b == cos_base(m as int),
        0 <= b <= 2896,
{
    match m {
        0 => 2896,
        1 => 2841,
        2 => 2676,
        3 => 2408,
        4 => 2048,
        5 => 1609,
        6 => 1108,
        7 => 565,
        _ => 0,
    }
}

fn cos_q_exec(u: usize, k: usize) -> (c: i64)
    requires
        u < 8,
        k < 8,
    ensures
        c == cos_q(u as int, k as int),
        -2896 <= c <= 2896,
{
    if u == 0 {
        2048
    } else {
        proof {
            assert((2 * k + 1) * u <= 105) by (nonlinear_arith)
                requires
                    k < 8,
                    u < 8,
            ;
        }
        let m = ((2 * k + 1) * u) % 32;
        if m <= 8 {
            cos_base_exec(m)
        } else if m <= 16 {
            -cos_base_exec(16 - m)
        } else if m <= 24 {
            -cos_base_exec(m - 16)
        } else {
            cos_base_exec(32 - m)
        }
    }
}

/// Division by a positive even number, rounded to the nearest integer
/// with halves towards positive infinity.
pub open spec fn rdiv(a: int, b: int) -> int
    recommends
        b > 0,
        b % 2 == 0,
{
    (a + b / 2) / b
}

/// Clamping to the byte range.
pub open spec fn clamp255(v: int) -> int {
    if v < 0 {
        0
    } else if v > 255 {
        255
    } else {
        v
    }
}

pub(crate) fn rdiv_exec(a: i64, b: i64) -> (q: i64)
    requires
        b == 2048 || b == 16384 || b == 65536,
        -400_000_000_000_000_000 <= a <= 400_000_000_000_000_000,
    ensures
        q == rdiv(a as int, b as int),
        b * q <= a + b / 2 < b * (q + 1),
{
    let h: i64 = if b == 2048 { 1024 } else if b == 16384 { 8192 } else { 32768 };
    let off: i64 = if b == 2048 { 224_000_000_000_000 } else if b == 16384 {
        28_000_000_000_000
    } else {
        7_000_000_000_000
    };
    let t2 = a + h + b * off;
    proof {
        lemma_div_pos_is_pos(t2 as int, b as int);
        lemma_div_nonincreasing(t2 as int, b as int);
    }
    let q2 = match t2.checked_div_euclid(b) {
        Some(v) => v,
        None => 0,
    };
    proof {
        lemma_hoist_over_denominator((a + h) as int, off as int, b as nat);
        lemma_fundamental_div_mod((a + h) as int, b as int);
    }
    q2 - off
}

/// The first separable pass: frequency row `v` against sample column
/// `x`, summed over the horizontal frequencies of the zigzagged
/// coefficients.
pub open spec fn pass1_sum(c: Seq<i64>, v: int, x: int) -> int {
    cos_q(0, x) * c[zz(v, 0)] + cos_q(1, x) * c[zz(v, 1)] + cos_q(2, x) * c[zz(v, 2)] + cos_q(
        3,
        x,
    ) * c[zz(v, 3)] + cos_q(4, x) * c[zz(v, 4)] + cos_q(5, x) * c[zz(v, 5)] + cos_q(6, x) * c[zz(
        v,
        6,
    )] + cos_q(7, x) * c[zz(v, 7)]
}

/// The first pass with the cosine scale divided back out.
pub open spec fn pass1_scaled(c: Seq<i64>, v: int, x: int) -> int {
    rdiv(pass1_sum(c, v, x), 2048)
}

/// The second separable pass: the vertical frequencies against sample
/// row `y`, over the first pass's column `x`.
pub open spec fn pass2_sum(c: Seq<i64>, y: int, x: int) -> int {
    cos_q(0, y) * pass1_scaled(c, 0, x) + cos_q(1, y) * pass1_scaled(c, 1, x) + cos_q(2, y)
        * pass1_scaled(c, 2, x) + cos_q(3, y) * pass1_scaled(c, 3, x) + cos_q(4, y) * pass1_scaled(
        c,
        4,
        x,
    ) + cos_q(5, y) * pass1_scaled(c, 5, x) + cos_q(6, y) * pass1_scaled(c, 6, x) + cos_q(7, y)
        * pass1_scaled(c, 7, x)
}

/// Sample `(y, x)` of the reconstructed block: the two-pass transform
/// divided by 8 and the remaining scale, rounded, level-shifted by 128
/// and clamped to a byte.
pub open spec fn idct_pixel(c: Seq<i64>, y: int, x: int) -> int {
    clamp255(rdiv(pass2_sum(c, y, x), 16384) + 128)
}

fn cf_term(u: usize, k: usize, f: i64, bound: Ghost<i64>) -> (t: i64)
    requires
        u < 8,
        k < 8,
        0 <= bound@ <= 7_000_000_000_000,
        -bound@ <= f <= bound@,
    ensures
        t == cos_q(u as int, k as int) * f,
        -2896 * bound@ <= t <= 2896 * bound@,
{
    let c = cos_q_exec(u, k);
    proof {
        assert(-2896 * bound@ <= c * f <= 2896 * bound@) by (nonlinear_arith)
            requires
                -2896 <= c <= 2896,
                -bound@ <= f <= bound@,
                0 <= bound@,
        ;
    }
    c * f
}

/// Reconstruct the 8x8 sample block, row-major, from one block of
/// dequantized coefficients in zigzag order.
pub fn idct(coeffs: &[i64; 64]) -> (out: [u8; 64])
    requires
        forall|i: int| 0 <= i < 64 ==> -COEF_LIMIT <= #[trigger] coeffs@[i] <= COEF_LIMIT,
    ensures
        forall|y: int, x: int|
            0 <= y < 8 && 0 <= x < 8 ==> #[trigger] out@[y * 8 + x] == idct_pixel(
                coeffs@,
                y,
                x,
            ),
{
    let mut tmp: [i64; 64] = [0; 64];
    let mut v: usize = 0;
    while v < 8
        invariant
            v <= 8,
            forall|i: int| 0 <= i < 64 ==> -COEF_LIMIT <= #[trigger] coeffs@[i] <= COEF_LIMIT,
            forall|vv: int, xx: int|
                0 <= vv < v && 0 <= xx < 8 ==> #[trigger] tmp@[vv * 8 + xx] == pass1_scaled(
                    coeffs@,
                    vv,
                    xx,
                ),
            forall|i: int|
                0 <= i < 64 ==> -6_200_000_000_000 <= #[trigger] tmp@[i] <= 6_200_000_000_000,
        decreases 8 - v,
    {
        let mut x: usize = 0;
        while x < 8
            invariant
                v < 8,
                x <= 8,
                forall|i: int| 0 <= i < 64 ==> -COEF_LIMIT <= #[trigger] coeffs@[i] <= COEF_LIMIT,
                forall|vv: int, xx: int|
                    0 <= vv < v && 0 <= xx < 8 ==> #[trigger] tmp@[vv * 8 + xx] == pass1_scaled(
                        coeffs@,
                        vv,
                        xx,
                    ),
                forall|xx: int|
                    0 <= xx < x ==> #[trigger] tmp@[v * 8 + xx] == pass1_scaled(coeffs@, v as int, xx),
                forall|i: int|
                    0 <= i < 64 ==> -6_200_000_000_000 <= #[trigger] tmp@[i] <= 6_200_000_000_000,
            decreases 8 - x,
        {
            let t0 = cf_term(0, x, coeffs[zigzag_index(v, 0)], Ghost(COEF_LIMIT));
            let t1 = cf_term(1, x, coeffs[zigzag_index(v, 1)], Ghost(COEF_LIMIT));
            let t2 = cf_term(2, x, coeffs[zigzag_index(v, 2)], Ghost(COEF_LIMIT));
            let t3 = cf_term(3, x, coeffs[zigzag_index(v, 3)], Ghost(COEF_LIMIT));
            let t4 = cf_term(4, x, coeffs[zigzag_index(v, 4)], Ghost(COEF_LIMIT));
            let t5 = cf_term(5, x, coeffs[zigzag_index(v, 5)], Ghost(COEF_LIMIT));
            let t6 = cf_term(6, x, coeffs[zigzag_index(v, 6)], Ghost(COEF_LIMIT));
            let t7 = cf_term(7, x, coeffs[zigzag_index(v, 7)], Ghost(COEF_LIMIT));
            let s = t0 + t1 + t2 + t3 + t4 + t5 + t6 + t7;
            let q = rdiv_exec(s, 2048);
            proof {
                assert(s == pass1_sum(coeffs@, v as int, x as int));
                assert(-6_200_000_000_000 <= q <= 6_200_000_000_000);
            }
            tmp[v * 8 + x] = q;
            x = x + 1;
        }
        v = v + 1;
    }
    let mut out: [u8; 64] = [0; 64];
    let mut y: usize = 0;
    while y < 8
        invariant
            y <= 8,
            forall|i: int|
                0 <= i < 64 ==> -6_200_000_000_000 <= #[trigger] tmp@[i] <= 6_200_000_000_000,
            forall|vv: int, xx: int|
                0 <= vv < 8 && 0 <= xx < 8 ==> #[trigger] tmp@[vv * 8 + xx] == pass1_scaled(
                    coeffs@,
                    vv,
                    xx,
                ),
            forall|yy: int, xx: int|
                0 <= yy < y && 0 <= xx < 8 ==> #[trigger] out@[yy * 8 + xx] == idct_pixel(
                    coeffs@,
                    yy,
                    xx,
                ),
        decreases 8 - y,
    {
        let mut x: usize = 0;
        while x < 8
            invariant
                y < 8,
                x <= 8,
                forall|i: int|
                    0 <= i < 64 ==> -6_200_000_000_000 <= #[trigger] tmp@[i] <= 6_200_000_000_000,
                forall|vv: int, xx: int|
                    0 <= vv < 8 && 0 <= xx < 8 ==> #[trigger] tmp@[vv * 8 + xx] == pass1_scaled(
                        coeffs@,
                        vv,
                        xx,
                    ),
                forall|yy: int, xx: int|
                    0 <= yy < y && 0 <= xx < 8 ==> #[trigger] out@[yy * 8 + xx] == idct_pixel(
                        coeffs@,
                        yy,
                        xx,
                    ),
                forall|xx: int|
                    0 <= xx < x ==> #[trigger] out@[y * 8 + xx] == idct_pixel(coeffs@, y as int, xx),
        decreases 8 - x,
        {
            let t0 = cf_term(0, y, tmp[0 * 8 + x], Ghost(6_200_000_000_000));
            let t1 = cf_term(1, y, tmp[1 * 8 + x], Ghost(6_200_000_000_000));
            let t2 = cf_term(2, y, tmp[2 * 8 + x], Ghost(6_200_000_000_000));
            let t3 = cf_term(3, y, tmp[3 * 8 + x], Ghost(6_200_000_000_000));
            let t4 = cf_term(4, y, tmp[4 * 8 + x], Ghost(6_200_000_000_000));
            let t5 = cf_term(5, y, tmp[5 * 8 + x], Ghost(6_200_000_000_000));
            let t6 = cf_term(6, y, tmp[6 * 8 + x], Ghost(6_200_000_000_000));
            let t7 = cf_term(7, y, tmp[7 * 8 + x], Ghost(6_200_000_000_000));
            let s = t0 + t1 + t2 + t3 + t4 + t5 + t6 + t7;
            let q = rdiv_exec(s, 16384);
            proof {
                assert(s == pass2_sum(coeffs@, y as int, x as int));
            }
            let p = q + 128;
            let pixel: u8 = if p < 0 {
                0
            } else if p > 255 {
                255
            } else {
                p as u8
            };
            proof {
                assert(pixel == idct_pixel(coeffs@, y as int, x as int));
            }
            out[y * 8 + x] = pixel;
            x = x + 1;
        }
        y = y + 1;
    }
    out
}

/// A block whose only non-zero coefficient is a DC value `d` comes out
/// as the uniform sample `round(d / 8) + 128`, clamped to a byte: the
/// inverse transform of a constant spectrum is flat.
pub proof fn lemma_idct_dc_uniform(c: Seq<i64>, d: int, y: int, x: int)
    requires
        c.len() == 64,
        c[0] == d,
        forall|i: int| 1 <= i < 64 ==> #[trigger] c[i] == 0,
        0 <= y < 8,
        0 <= x < 8,
    ensures
        idct_pixel(c, y, x) == clamp255(rdiv(d, 8) + 128),
{
    assert forall|v: int| 0 <= v < 8 implies #[trigger] pass1_scaled(c, v, x) == (if v == 0 {
        d
    } else {
        0
    }) by {
        if v == 0 {
            assert(pass1_sum(c, 0, x) == 2048 * d);
            lemma_fundamental_div_mod_converse_div(2048 * d + 1024, 2048, d, 1024);
        } else {
            assert(pass1_sum(c, v, x) == 0);
            lemma_fundamental_div_mod_converse_div(1024int, 2048, 0, 1024);
        }
    }
    assert(pass2_sum(c, y, x) == 2048 * d);
    lemma_fundamental_div_mod((d + 4) as int, 8);
    let q = (d + 4) / 8;
    let r = (d + 4) % 8;
    assert(2048 * d + 8192 == q * 16384 + 2048 * r);
    lemma_fundamental_div_mod_converse_div(2048 * d + 8192, 16384, q, 2048 * r);
}

} // verus!
