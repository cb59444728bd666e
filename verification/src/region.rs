//! The planar regions: each is a test on a point `(x, y)` of the square from
//! -1 to 1. A grid point has rational coordinates, so each test is decided
//! exactly, in integers, on the numerators `a`, `b` over a common positive
//! denominator `m`.

use vstd::prelude::*;
use crate::coords::MAX_SIZE;

verus! {

/// Outside the closed unit disk around the corner `(1, 1)`.
pub open spec fn in_crescent(x: real, y: real) -> bool {
    (x - 1real) * (x - 1real) + (1real - y) * (1real - y) > 1real
}

/// Inside the open unit disk.
pub open spec fn in_disk(x: real, y: real) -> bool {
    x * x + y * y < 1real
}

/// Inside the open unit disk and outside the closed disk of squared radius
/// one third.
pub open spec fn in_annulus(x: real, y: real) -> bool {
    1real / 3real < x * x + y * y && x * x + y * y < 1real
}

/// A product of integers is the product of the reals.
pub proof fn lemma_product_real(i: int, j: int)
    ensures
        (i * j) as real == (i as real) * (j as real),
{
    let p = i * j;
    assert(p as real == (i as real) * (j as real)) by (nonlinear_arith)
        requires
            p == i * j,
    ;
}

/// A fraction times its denominator is its numerator.
pub proof fn lemma_fraction(a: int, m: int)
    requires
        m > 0,
    ensures
        (a as real / m as real) * (m as real) == a as real,
{
    assert((a as real / m as real) * (m as real) == a as real) by (nonlinear_arith)
        requires
            m as real > 0real,
    ;
}

/// Two reals are ordered as their products with a positive real.
pub proof fn lemma_scaled_order(p: real, q: real, d: real)
    requires
        d > 0real,
    ensures
        p < q <==> p * d < q * d,
        p <= q <==> p * d <= q * d,
        p == q <==> p * d == q * d,
{
    assert(p < q <==> p * d < q * d) by (nonlinear_arith)
        requires
            d > 0real,
    ;
    assert(p <= q <==> p * d <= q * d) by (nonlinear_arith)
        requires
            d > 0real,
    ;
    assert(p == q <==> p * d == q * d) by (nonlinear_arith)
        requires
            d > 0real,
    ;
}

/// The sum of the squares of two fractions over `m`, times `m * m`.
pub proof fn lemma_squares(a: int, b: int, m: int)
    requires
        m > 0,
    ensures
        ({
            let x = a as real / m as real;
            let y = b as real / m as real;
            (x * x + y * y) * ((m * m) as real) == (a * a + b * b) as real
        }),
        (m * m) as real > 0real,
{
    let x = a as real / m as real;
    let y = b as real / m as real;
    let mr = m as real;
    lemma_fraction(a, m);
    lemma_fraction(b, m);
    lemma_product_real(a, a);
    lemma_product_real(b, b);
    lemma_product_real(m, m);
    assert((x * x + y * y) * (mr * mr) == (x * mr) * (x * mr) + (y * mr) * (y * mr))
        by (nonlinear_arith);
    assert(mr * mr > 0real) by (nonlinear_arith)
        requires
            mr > 0real,
    ;
}

/// Whether the point `(a / m, b / m)` lies in the crescent.
pub fn crescent_contains(a: i64, b: i64, m: i64) -> (out: bool)
    requires
        0 < m < MAX_SIZE,
        -m <= a <= m,
        -m <= b <= m,
    ensures
        out == in_crescent(a as real / m as real, b as real / m as real),
{
    let u: i64 = a - m;
    let v: i64 = m - b;
    assert(u * u + v * v <= 0x8_0000_0000 && u * u >= 0 && v * v >= 0 && m * m <= 0x1_0000_0000)
        by (nonlinear_arith)
        requires
            -0x2_0000 < u <= 0,
            0 <= v < 0x2_0000,
            0 < m < 0x1_0000,
    ;
    proof {
        let x = a as real / m as real;
        let y = b as real / m as real;
        let mr = m as real;
        lemma_fraction(a as int, m as int);
        lemma_fraction(b as int, m as int);
        lemma_product_real(u as int, u as int);
        lemma_product_real(v as int, v as int);
        lemma_product_real(m as int, m as int);
        let p = x - 1real;
        let q = 1real - y;
        assert(p * mr == u as real) by (nonlinear_arith)
            requires
                x * mr == a as real,
                p == x - 1real,
                u as real == a as real - mr,
        ;
        assert(q * mr == v as real) by (nonlinear_arith)
            requires
                y * mr == b as real,
                q == 1real - y,
                v as real == mr - b as real,
        ;
        assert((p * p + q * q) * (mr * mr) == (p * mr) * (p * mr) + (q * mr) * (q * mr))
            by (nonlinear_arith);
        assert(mr * mr > 0real) by (nonlinear_arith)
            requires
                mr > 0real,
        ;
        lemma_scaled_order(1real, p * p + q * q, mr * mr);
    }
    u * u + v * v > m * m
}

/// Whether the point `(a / m, b / m)` lies in the disk.
pub fn disk_contains(a: i64, b: i64, m: i64) -> (out: bool)
    requires
        0 < m < MAX_SIZE,
        -m <= a <= m,
        -m <= b <= m,
    ensures
        out == in_disk(a as real / m as real, b as real / m as real),
{
    assert(a * a + b * b <= 0x2_0000_0000 && a * a >= 0 && b * b >= 0 && m * m <= 0x1_0000_0000)
        by (nonlinear_arith)
        requires
            -0x1_0000 < a < 0x1_0000,
            -0x1_0000 < b < 0x1_0000,
            0 < m < 0x1_0000,
    ;
    proof {
        let x = a as real / m as real;
        let y = b as real / m as real;
        lemma_squares(a as int, b as int, m as int);
        lemma_scaled_order(x * x + y * y, 1real, (m * m) as real);
    }
    a * a + b * b < m * m
}

/// Whether the point `(a / m, b / m)` lies in the annulus.
pub fn annulus_contains(a: i64, b: i64, m: i64) -> (out: bool)
    requires
        0 < m < MAX_SIZE,
        -m <= a <= m,
        -m <= b <= m,
    ensures
        out == in_annulus(a as real / m as real, b as real / m as real),
{
    assert(a * a + b * b <= 0x2_0000_0000 && a * a >= 0 && b * b >= 0 && m * m <= 0x1_0000_0000)
        by (nonlinear_arith)
        requires
            -0x1_0000 < a < 0x1_0000,
            -0x1_0000 < b < 0x1_0000,
            0 < m < 0x1_0000,
    ;
    let s: i64 = a * a + b * b;
    proof {
        let x = a as real / m as real;
        let y = b as real / m as real;
        let d = (m * m) as real;
        lemma_squares(a as int, b as int, m as int);
        lemma_scaled_order(x * x + y * y, 1real, d);
        lemma_scaled_order(1real / 3real, x * x + y * y, d);
        assert((1real / 3real) * d * 3real == d) by (nonlinear_arith);
    }
    m * m < 3 * s && s < m * m
}

/// A product is bounded by the product of the bounds of its factors.
pub proof fn lemma_product_bound(x: int, y: int, bx: int, by: int)
    requires
        -bx <= x <= bx,
        -by <= y <= by,
    ensures
        -(bx * by) <= x * y <= bx * by,
{
    assert(-(bx * by) <= x * y <= bx * by) by (nonlinear_arith)
        requires
            -bx <= x <= bx,
            -by <= y <= by,
    ;
}

/// A point on the rim of the square lies on or outside the unit circle, so
/// neither the disk nor the annulus holds it.
pub proof fn lemma_rim_outside_disk(x: real, y: real)
    requires
        x == 1real || x == -1real || y == 1real || y == -1real,
    ensures
        !in_disk(x, y),
        !in_annulus(x, y),
{
    assert(x * x >= 0real && y * y >= 0real) by (nonlinear_arith);
    assert(x == 1real || x == -1real ==> x * x == 1real) by (nonlinear_arith);
    assert(y == 1real || y == -1real ==> y * y == 1real) by (nonlinear_arith);
}

} // verus!
