//! The rose: a region bounded by a curve in polar coordinates, decided
//! exactly on rational points.

use vstd::prelude::*;
use crate::coords::MAX_SIZE;
use crate::region::lemma_fraction;
use crate::region::lemma_product_bound;
use crate::region::lemma_product_real;
use crate::region::lemma_scaled_order;
use crate::wide::Wide;

verus! {

/// Within the rose `r >= sin(2t) + sin(8t) / 5`, where `r` and `t` are the
/// polar coordinates of `(x, y)`: `r = sqrt(x^2 + y^2)` and `t = atan2(y, x)`.
///
/// The test is stated without the angle. Away from the origin
/// `sin(2t) = 2xy / r^2` and `cos(2t) = (x^2 - y^2) / r^2`, and doubling the
/// angle twice more gives
/// `sin(8t) = 4 sin(2t) cos(2t) (cos(2t)^2 - sin(2t)^2)`. A radius is at least
/// a bound exactly when the bound is not positive or its square is at most
/// `r^2`. At the origin both `r` and `t` are zero, and the test holds.
pub open spec fn in_rose(x: real, y: real) -> bool {
    let r2 = x * x + y * y;
    let sin2 = (2real * x * y) / r2;
    let cos2 = (x * x - y * y) / r2;
    let sin8 = 4real * sin2 * cos2 * (cos2 * cos2 - sin2 * sin2);
    let bound = sin2 + sin8 / 5real;
    r2 == 0real || bound <= 0real || bound * bound <= r2
}

/// The numerator of `r^2`, over `m^2`, at the point `(a / m, b / m)`.
pub open spec fn rose_norm(a: int, b: int) -> int {
    a * a + b * b
}

/// The numerator of `sin(2t)`, over `rose_norm`.
pub open spec fn rose_sine(a: int, b: int) -> int {
    2 * a * b
}

/// The numerator of `cos(2t)`, over `rose_norm`.
pub open spec fn rose_cosine(a: int, b: int) -> int {
    a * a - b * b
}

/// With `s = rose_norm` and `p = rose_sine`, the bound of the rose is
/// `p * rose_factor / (5 * s^4)`.
pub open spec fn rose_factor(a: int, b: int) -> int {
    let s = rose_norm(a, b);
    let p = rose_sine(a, b);
    let c = rose_cosine(a, b);
    5 * (s * s * s) + 4 * (c * (c * c - p * p))
}

/// The ninth power.
pub open spec fn ninth_power(s: int) -> int {
    s * s * s * s * s * s * s * s * s
}

/// The rose test on the fraction's numerators and denominator.
pub open spec fn rose_test(a: int, b: int, m: int) -> bool {
    let s = rose_norm(a, b);
    let z = rose_sine(a, b) * rose_factor(a, b);
    s == 0 || z <= 0 || (z * m) * (z * m) <= 25 * ninth_power(s)
}

/// The three numerators that the rose test is made of: `rose_norm`,
/// `rose_sine` and `rose_factor`.
fn rose_terms(a: i64, b: i64) -> (out: (i128, i128, i128))
    requires
        -MAX_SIZE < a < MAX_SIZE,
        -MAX_SIZE < b < MAX_SIZE,
    ensures
        out.0 == rose_norm(a as int, b as int),
        out.1 == rose_sine(a as int, b as int),
        out.2 == rose_factor(a as int, b as int),
        0 <= out.0 <= 0x2_0000_0000,
        -0x2_0000_0000 <= out.1 <= 0x2_0000_0000,
        -0x100_0000_0000_0000_0000_0000_0000 <= out.2 <= 0x100_0000_0000_0000_0000_0000_0000,
{
    proof {
        lemma_product_bound(a as int, a as int, 0x1_0000, 0x1_0000);
        lemma_product_bound(b as int, b as int, 0x1_0000, 0x1_0000);
        lemma_product_bound(a as int, b as int, 0x1_0000, 0x1_0000);
        assert(2 * a * b == 2 * (a * b)) by (nonlinear_arith);
        assert(a * a >= 0 && b * b >= 0) by (nonlinear_arith);
    }
    let aa: i128 = (a as i128) * (a as i128);
    let bb: i128 = (b as i128) * (b as i128);
    let s: i128 = aa + bb;
    let p: i128 = 2 * ((a as i128) * (b as i128));
    let c: i128 = aa - bb;
    proof {
        lemma_product_bound(c as int, c as int, 0x1_0000_0000, 0x1_0000_0000);
        lemma_product_bound(p as int, p as int, 0x2_0000_0000, 0x2_0000_0000);
        lemma_product_bound(s as int, s as int, 0x2_0000_0000, 0x2_0000_0000);
    }
    let e: i128 = c * c - p * p;
    let s2: i128 = s * s;
    proof {
        lemma_product_bound(s2 as int, s as int, 0x4_0000_0000_0000_0000, 0x2_0000_0000);
        lemma_product_bound(c as int, e as int, 0x1_0000_0000, 0x5_0000_0000_0000_0000);
    }
    let g: i128 = 5 * (s2 * s) + 4 * (c * e);
    (s, p, g)
}

/// The power `s^i`.
pub open spec fn power(s: int, i: nat) -> int
    decreases i,
{
    if i == 0 {
        1
    } else {
        power(s, (i - 1) as nat) * s
    }
}

/// The number `k * s^9`.
fn ninth_power_times(s: u64, k: u64) -> (out: Wide)
    ensures
        out@ == k * ninth_power(s as int),
{
    let mut out: Wide = Wide::from_u128(k as u128);
    let mut i: usize = 0;
    proof {
        assert(k * power(s as int, 0) == k) by (nonlinear_arith)
            requires
                power(s as int, 0) == 1,
        ;
    }
    while i < 9
        invariant
            i <= 9,
            out@ == k * power(s as int, i as nat),
        decreases 9 - i,
    {
        let ghost q = power(s as int, i as nat);
        proof {
            assert(k * q * s == k * (q * s)) by (nonlinear_arith);
        }
        out = out.times(s);
        i += 1;
    }
    proof {
        lemma_power_nine(s as int);
    }
    out
}

/// Whether the square of `g * p * m` is at most 25 times the ninth power of
/// `s`.
fn rose_within(s: u64, p: u64, g: u128, m: u64) -> (out: bool)
    ensures
        out == ((g * p * m) * (g * p * m) <= 25 * ninth_power(s as int)),
{
    let scaled: Wide = Wide::from_u128(g).times(p).times(m);
    let left: Wide = scaled.product(&scaled);
    let right: Wide = ninth_power_times(s, 25);
    left.at_most(&right)
}

/// Whether the point `(a / m, b / m)` lies in the rose.
pub fn rose_contains(a: i64, b: i64, m: i64) -> (out: bool)
    requires
        0 < m < MAX_SIZE,
        -m <= a <= m,
        -m <= b <= m,
    ensures
        out == in_rose(a as real / m as real, b as real / m as real),
{
    proof {
        lemma_rose(a as int, b as int, m as int);
    }
    let (s, p, g) = rose_terms(a, b);
    if s == 0 {
        return true;
    }
    let ghost z: int = p * g;
    if p == 0 || g == 0 || (p < 0) != (g < 0) {
        proof {
            assert(z <= 0) by (nonlinear_arith)
                requires
                    z == p * g,
                    p == 0 || g == 0 || (p < 0) != (g < 0),
            ;
        }
        return true;
    }
    let p_size: u64 = if p < 0 {
        (-p) as u64
    } else {
        p as u64
    };
    let g_size: u128 = if g < 0 {
        (-g) as u128
    } else {
        g as u128
    };
    proof {
        assert(g_size * p_size == z && z > 0) by (nonlinear_arith)
            requires
                z == p * g,
                p != 0,
                g != 0,
                (p < 0) == (g < 0),
                p < 0 ==> p_size == -p,
                p >= 0 ==> p_size == p,
                g < 0 ==> g_size == -g,
                g >= 0 ==> g_size == g,
        ;
    }
    rose_within(s as u64, p_size, g_size, m as u64)
}

/// The rose test on the numerators decides the rose at the fraction.
pub proof fn lemma_rose(a: int, b: int, m: int)
    requires
        m > 0,
    ensures
        rose_test(a, b, m) == in_rose(a as real / m as real, b as real / m as real),
{
    let x = a as real / m as real;
    let y = b as real / m as real;
    let ar = a as real;
    let br = b as real;
    let mr = m as real;
    let mm = mr * mr;
    let s = rose_norm(a, b);
    let p = rose_sine(a, b);
    let c = rose_cosine(a, b);
    let g = rose_factor(a, b);
    let sr = s as real;
    let pr = p as real;
    let cr = c as real;
    let gr = g as real;
    let r2 = x * x + y * y;
    lemma_fraction(a, m);
    lemma_fraction(b, m);
    lemma_product_real(a, a);
    lemma_product_real(b, b);
    lemma_product_real(a, b);
    assert(2 * a * b == 2 * (a * b)) by (nonlinear_arith);
    assert(mm > 0real) by (nonlinear_arith)
        requires
            mr > 0real,
            mm == mr * mr,
    ;
    assert(r2 * mm == sr) by (nonlinear_arith)
        requires
            x * mr == ar,
            y * mr == br,
            sr == ar * ar + br * br,
            r2 == x * x + y * y,
            mm == mr * mr,
    ;
    assert((2real * x * y) * mm == pr) by (nonlinear_arith)
        requires
            x * mr == ar,
            y * mr == br,
            pr == 2real * (ar * br),
            mm == mr * mr,
    ;
    assert((x * x - y * y) * mm == cr) by (nonlinear_arith)
        requires
            x * mr == ar,
            y * mr == br,
            cr == ar * ar - br * br,
            mm == mr * mr,
    ;
    lemma_scaled_order(r2, 0real, mm);
    assert(0real * mm == 0real) by (nonlinear_arith);
    assert(s >= 0) by (nonlinear_arith)
        requires
            s == a * a + b * b,
    ;
    if s != 0 {
        let sin2 = (2real * x * y) / r2;
        let cos2 = (x * x - y * y) / r2;
        let sin8 = 4real * sin2 * cos2 * (cos2 * cos2 - sin2 * sin2);
        let bound = sin2 + sin8 / 5real;
        assert(sin2 * sr == pr) by (nonlinear_arith)
            requires
                r2 != 0real,
                sin2 == (2real * x * y) / r2,
                (2real * x * y) * mm == pr,
                r2 * mm == sr,
        ;
        assert(cos2 * sr == cr) by (nonlinear_arith)
            requires
                r2 != 0real,
                cos2 == (x * x - y * y) / r2,
                (x * x - y * y) * mm == cr,
                r2 * mm == sr,
        ;
        let s4 = sr * sr * sr * sr;
        let d = 5real * s4;
        lemma_rose_bound(sin2, cos2, sr, pr, cr);
        lemma_rose_factor_real(a, b);
        assert(bound * d == pr * gr);
        lemma_product_real(p, g);
        let z = p * g;
        let zr = z as real;
        assert(d > 0real) by (nonlinear_arith)
            requires
                sr > 0real,
                d == 5real * (sr * sr * sr * sr),
        ;
        lemma_scaled_order(bound, 0real, d);
        assert(0real * d == 0real) by (nonlinear_arith);
        assert(bound <= 0real <==> z <= 0);
        let dd = d * d * mm;
        assert(dd > 0real) by (nonlinear_arith)
            requires
                d > 0real,
                mm > 0real,
                dd == d * d * mm,
        ;
        lemma_scaled_order(bound * bound, r2, dd);
        assert((bound * bound) * dd == (zr * mr) * (zr * mr)) by (nonlinear_arith)
            requires
                bound * d == zr,
                dd == d * d * mm,
                mm == mr * mr,
        ;
        assert(r2 * dd == 25real * (sr * sr * sr * sr * sr * sr * sr * sr * sr))
            by (nonlinear_arith)
            requires
                r2 * mm == sr,
                dd == d * d * mm,
                d == 5real * (sr * sr * sr * sr),
        ;
        lemma_product_real(z, m);
        lemma_product_real(z * m, z * m);
        lemma_ninth_power_real(s);
    }
}

/// The bound of the rose, cleared of its denominator.
proof fn lemma_rose_bound(sin2: real, cos2: real, sr: real, pr: real, cr: real)
    requires
        sin2 * sr == pr,
        cos2 * sr == cr,
    ensures
        (sin2 + (4real * sin2 * cos2 * (cos2 * cos2 - sin2 * sin2)) / 5real) * (5real * (sr * sr
            * sr * sr)) == pr * (5real * (sr * sr * sr) + 4real * (cr * (cr * cr - pr * pr))),
{
    let e = cos2 * cos2 - sin2 * sin2;
    let s2 = sr * sr;
    assert(e * s2 == cr * cr - pr * pr) by (nonlinear_arith)
        requires
            sin2 * sr == pr,
            cos2 * sr == cr,
            e == cos2 * cos2 - sin2 * sin2,
            s2 == sr * sr,
    ;
    let f = cos2 * e;
    let s3 = s2 * sr;
    assert(f * s3 == cr * (cr * cr - pr * pr)) by (nonlinear_arith)
        requires
            e * s2 == cr * cr - pr * pr,
            cos2 * sr == cr,
            f == cos2 * e,
            s3 == s2 * sr,
    ;
    let k = cr * (cr * cr - pr * pr);
    let h = 4real * sin2 * cos2 * e;
    let s4 = s3 * sr;
    assert(h == 4real * sin2 * f) by (nonlinear_arith)
        requires
            h == 4real * sin2 * cos2 * e,
            f == cos2 * e,
    ;
    assert(h * s4 == 4real * (pr * k)) by (nonlinear_arith)
        requires
            f * s3 == k,
            sin2 * sr == pr,
            h == 4real * sin2 * f,
            s4 == s3 * sr,
    ;
    assert((sin2 + h / 5real) * (5real * s4) == 5real * (sin2 * s4) + h * s4)
        by (nonlinear_arith);
    assert(sin2 * s4 == pr * s3) by (nonlinear_arith)
        requires
            sin2 * sr == pr,
            s4 == s3 * sr,
    ;
    assert(5real * (pr * s3) + 4real * (pr * k) == pr * (5real * s3 + 4real * k))
        by (nonlinear_arith);
    assert(s4 == sr * sr * sr * sr);
    assert(s3 == sr * sr * sr);
}

/// The factor of the rose, taken to the reals.
proof fn lemma_rose_factor_real(a: int, b: int)
    ensures
        ({
            let sr = rose_norm(a, b) as real;
            let pr = rose_sine(a, b) as real;
            let cr = rose_cosine(a, b) as real;
            rose_factor(a, b) as real == 5real * (sr * sr * sr) + 4real * (cr * (cr * cr - pr
                * pr))
        }),
{
    let s = rose_norm(a, b);
    let p = rose_sine(a, b);
    let c = rose_cosine(a, b);
    lemma_product_real(s, s);
    lemma_product_real(s * s, s);
    lemma_product_real(c, c);
    lemma_product_real(p, p);
    lemma_product_real(c, c * c - p * p);
}

/// The ninth power is the power with exponent nine.
proof fn lemma_power_nine(s: int)
    ensures
        power(s, 9) == ninth_power(s),
{
    reveal_with_fuel(power, 10);
    assert(1 * s == s) by (nonlinear_arith);
}

/// The ninth power, taken to the reals.
proof fn lemma_ninth_power_real(s: int)
    ensures
        ({
            let sr = s as real;
            ninth_power(s) as real == sr * sr * sr * sr * sr * sr * sr * sr * sr
        }),
{
    lemma_product_real(s, s);
    lemma_product_real(s * s, s);
    lemma_product_real(s * s * s, s);
    lemma_product_real(s * s * s * s, s);
    lemma_product_real(s * s * s * s * s, s);
    lemma_product_real(s * s * s * s * s * s, s);
    lemma_product_real(s * s * s * s * s * s * s, s);
    lemma_product_real(s * s * s * s * s * s * s * s, s);
}

} // verus!
