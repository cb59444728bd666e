//! The heart-shaped region.

use vstd::prelude::*;
use crate::coords::MAX_SIZE;
use crate::region::lemma_fraction;
use crate::region::lemma_product_bound;
use crate::region::lemma_product_real;
use crate::region::lemma_scaled_order;

verus! {

/// Inside the heart-shaped curve `r2 * (r2 - s * y') = p * x^2`, where
/// `y' = -y`, `r2 = x^2 + y'^2` and `s = p = 3/4`.
pub open spec fn in_cardioid(x: real, y: real) -> bool {
    let yy = -y;
    let r2 = x * x + yy * yy;
    r2 * (r2 - (3real / 4real) * yy) < (3real / 4real) * (x * x)
}

/// The test of the heart-shaped region on a fraction's numerators and
/// denominator: the inequality, multiplied by `4 * m^4`.
pub open spec fn cardioid_test(a: int, b: int, m: int) -> bool {
    let s = a * a + b * b;
    s * (4 * s + 3 * (b * m)) < 3 * ((a * a) * (m * m))
}

/// The inequality of the region at a point whose coordinates, times `mr`,
/// are `ar` and `br`, cleared of its denominators.
proof fn lemma_cardioid_cleared(x: real, y: real, ar: real, br: real, mr: real)
    requires
        mr > 0real,
        x * mr == ar,
        y * mr == br,
    ensures
        ({
            let sr = ar * ar + br * br;
            in_cardioid(x, y) <==> sr * (4real * sr + 3real * (br * mr)) < 3real * ((ar * ar) * (mr
                * mr))
        }),
{
    let yy = -y;
    let r2 = x * x + yy * yy;
    let q = r2 - (3real / 4real) * yy;
    let d = 4real * ((mr * mr) * (mr * mr));
    let sr = ar * ar + br * br;
    let tr = 4real * sr + 3real * (br * mr);
    assert(r2 * (mr * mr) == sr) by (nonlinear_arith)
        requires
            x * mr == ar,
            y * mr == br,
            yy == -y,
            r2 == x * x + yy * yy,
            sr == ar * ar + br * br,
    ;
    assert(q * (4real * (mr * mr)) == tr) by (nonlinear_arith)
        requires
            r2 * (mr * mr) == sr,
            y * mr == br,
            yy == -y,
            q == r2 - (3real / 4real) * yy,
            tr == 4real * sr + 3real * (br * mr),
    ;
    assert((r2 * q) * d == sr * tr) by (nonlinear_arith)
        requires
            r2 * (mr * mr) == sr,
            q * (4real * (mr * mr)) == tr,
            d == 4real * ((mr * mr) * (mr * mr)),
    ;
    assert(((3real / 4real) * (x * x)) * d == 3real * ((ar * ar) * (mr * mr)))
        by (nonlinear_arith)
        requires
            x * mr == ar,
            d == 4real * ((mr * mr) * (mr * mr)),
    ;
    assert(d > 0real) by (nonlinear_arith)
        requires
            mr > 0real,
            d == 4real * ((mr * mr) * (mr * mr)),
    ;
    lemma_scaled_order(r2 * q, (3real / 4real) * (x * x), d);
}

/// The two sides of the test, taken to the reals.
proof fn lemma_cardioid_sides(a: int, b: int, m: int)
    ensures
        ({
            let ar = a as real;
            let br = b as real;
            let mr = m as real;
            let s = a * a + b * b;
            let sr = ar * ar + br * br;
            &&& (s * (4 * s + 3 * (b * m))) as real == sr * (4real * sr + 3real * (br * mr))
            &&& (3 * ((a * a) * (m * m))) as real == 3real * ((ar * ar) * (mr * mr))
        }),
{
    let s = a * a + b * b;
    lemma_product_real(a, a);
    lemma_product_real(b, b);
    lemma_product_real(b, m);
    lemma_product_real(m, m);
    lemma_product_real(3, b * m);
    lemma_product_real(4, s);
    lemma_product_real(s, 4 * s + 3 * (b * m));
    lemma_product_real(a * a, m * m);
    lemma_product_real(3, (a * a) * (m * m));
}

/// The test on the numerators decides the region at the fraction.
pub proof fn lemma_cardioid(a: int, b: int, m: int)
    requires
        m > 0,
    ensures
        cardioid_test(a, b, m) == in_cardioid(a as real / m as real, b as real / m as real),
{
    lemma_fraction(a, m);
    lemma_fraction(b, m);
    lemma_cardioid_cleared(
        a as real / m as real,
        b as real / m as real,
        a as real,
        b as real,
        m as real,
    );
    lemma_cardioid_sides(a, b, m);
}

/// Whether the point `(a / m, b / m)` lies in the heart-shaped region.
pub fn cardioid_contains(a: i64, b: i64, m: i64) -> (out: bool)
    requires
        0 < m < MAX_SIZE,
        -m <= a <= m,
        -m <= b <= m,
    ensures
        out == in_cardioid(a as real / m as real, b as real / m as real),
{
    proof {
        lemma_cardioid(a as int, b as int, m as int);
        lemma_product_bound(a as int, a as int, 0x1_0000, 0x1_0000);
        lemma_product_bound(b as int, b as int, 0x1_0000, 0x1_0000);
        lemma_product_bound(b as int, m as int, 0x1_0000, 0x1_0000);
        lemma_product_bound(m as int, m as int, 0x1_0000, 0x1_0000);
    }
    let aa: i128 = (a as i128) * (a as i128);
    let s: i128 = aa + (b as i128) * (b as i128);
    let t: i128 = 4 * s + 3 * ((b as i128) * (m as i128));
    let mm: i128 = (m as i128) * (m as i128);
    proof {
        lemma_product_bound(s as int, t as int, 0x2_0000_0000, 0x10_0000_0000);
        lemma_product_bound(aa as int, mm as int, 0x1_0000_0000, 0x1_0000_0000);
    }
    let left: i128 = s * t;
    let right: i128 = 3 * (aa * mm);
    left < right
}

/// The heart-shaped region holds no point on the rim of the square.
pub proof fn lemma_rim_outside_cardioid(x: real, y: real)
    requires
        -1real <= x <= 1real,
        -1real <= y <= 1real,
        x == 1real || x == -1real || y == 1real || y == -1real,
    ensures
        !in_cardioid(x, y),
{
    let yy = -y;
    let x2 = x * x;
    let r2 = x2 + yy * yy;
    let q = r2 - (3real / 4real) * yy;
    assert(0real <= x2 <= 1real) by (nonlinear_arith)
        requires
            -1real <= x <= 1real,
            x2 == x * x,
    ;
    assert(yy * yy == y * y) by (nonlinear_arith)
        requires
            yy == -y,
    ;
    assert((3real / 4real) * yy == -((3real / 4real) * y)) by (nonlinear_arith)
        requires
            yy == -y,
    ;
    assert(y == 1real || y == -1real ==> y * y == 1real) by (nonlinear_arith);
    assert(y == 1real ==> (3real / 4real) * y == 3real / 4real) by (nonlinear_arith);
    assert(y == -1real ==> (3real / 4real) * y == -(3real / 4real)) by (nonlinear_arith);
    if y == 1real {
        assert(r2 * q >= (3real / 4real) * x2) by (nonlinear_arith)
            requires
                0real <= x2 <= 1real,
                r2 == x2 + 1real,
                q == r2 + 3real / 4real,
        ;
    } else if y == -1real {
        assert(r2 * q >= (3real / 4real) * x2) by (nonlinear_arith)
            requires
                0real <= x2 <= 1real,
                r2 == x2 + 1real,
                q == r2 - 3real / 4real,
        ;
    } else {
        let h = y + 3real / 8real;
        assert(x2 == 1real) by (nonlinear_arith)
            requires
                x == 1real || x == -1real,
                x2 == x * x,
        ;
        assert(q == h * h + 55real / 64real) by (nonlinear_arith)
            requires
                q == 1real + y * y + (3real / 4real) * y,
                h == y + 3real / 8real,
        ;
        assert(h * h >= 0real) by (nonlinear_arith);
        assert(r2 >= 1real) by (nonlinear_arith)
            requires
                r2 == 1real + y * y,
        ;
        assert(r2 * q >= 3real / 4real) by (nonlinear_arith)
            requires
                r2 >= 1real,
                q >= 55real / 64real,
        ;
    }
}

} // verus!
