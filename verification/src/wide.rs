//! Natural numbers of any size, held as 64-bit limbs, with the few exact
//! operations that the region tests need: scaling, sum, product and order.

use vstd::prelude::*;

verus! {

/// The base of the limbs, 2^64.
pub open spec fn limb_base() -> nat {
    0x1_0000_0000_0000_0000
}

/// The weight of the limb at position `i`: the base to the power `i`.
pub open spec fn weight(i: nat) -> nat
    decreases i,
{
    if i == 0 {
        1
    } else {
        limb_base() * weight((i - 1) as nat)
    }
}

/// The limb at position `i`, zero beyond the last limb.
pub open spec fn limb_at(limbs: Seq<u64>, i: int) -> nat {
    if 0 <= i < limbs.len() {
        limbs[i] as nat
    } else {
        0
    }
}

/// The number that the limbs below position `i` stand for, the least
/// significant limb first.
pub open spec fn value_upto(limbs: Seq<u64>, i: nat) -> nat
    decreases i,
{
    if i == 0 {
        0
    } else {
        value_upto(limbs, (i - 1) as nat) + limb_at(limbs, i - 1) * weight((i - 1) as nat)
    }
}

/// The number that a sequence of limbs stands for.
pub open spec fn limbs_value(limbs: Seq<u64>) -> nat {
    value_upto(limbs, limbs.len())
}

pub proof fn lemma_weight_sum(i: nat, j: nat)
    ensures
        weight(i + j) == weight(i) * weight(j),
    decreases i,
{
    if i == 0 {
        assert(weight(0) * weight(j) == weight(j)) by (nonlinear_arith)
            requires
                weight(0) == 1,
        ;
    } else {
        lemma_weight_sum((i - 1) as nat, j);
        let a = weight((i - 1) as nat);
        let b = weight(j);
        let c = limb_base();
        assert(weight(i + j) == c * weight((i - 1 + j) as nat));
        assert(c * (a * b) == (c * a) * b) by (nonlinear_arith);
    }
}

/// Limbs beyond the last one add nothing.
pub proof fn lemma_value_beyond(limbs: Seq<u64>, i: nat)
    requires
        i >= limbs.len(),
    ensures
        value_upto(limbs, i) == limbs_value(limbs),
    decreases i,
{
    if i > limbs.len() {
        lemma_value_beyond(limbs, (i - 1) as nat);
        assert(0 * weight((i - 1) as nat) == 0) by (nonlinear_arith);
    }
}

/// The value below position `i` depends on the limbs below `i` alone.
pub proof fn lemma_value_agrees(x: Seq<u64>, y: Seq<u64>, i: nat)
    requires
        forall|j: int| 0 <= j < i ==> limb_at(x, j) == limb_at(y, j),
    ensures
        value_upto(x, i) == value_upto(y, i),
    decreases i,
{
    if i > 0 {
        lemma_value_agrees(x, y, (i - 1) as nat);
    }
}

/// The limbs below position `i` stand for a number below the weight of `i`.
pub proof fn lemma_value_bound(limbs: Seq<u64>, i: nat)
    ensures
        value_upto(limbs, i) < weight(i),
    decreases i,
{
    if i > 0 {
        lemma_value_bound(limbs, (i - 1) as nat);
        let d = limb_at(limbs, i - 1);
        let w = weight((i - 1) as nat);
        let v = value_upto(limbs, (i - 1) as nat);
        assert(v + d * w < limb_base() * w) by (nonlinear_arith)
            requires
                v < w,
                d < limb_base(),
        ;
    }
}

/// Two numbers that agree from position `j + 1` up to `top` are ordered as
/// their limbs at position `j`.
pub proof fn lemma_value_order(x: Seq<u64>, y: Seq<u64>, j: nat, top: nat)
    requires
        j < top,
        limb_at(x, j as int) < limb_at(y, j as int),
        forall|t: int| j < t < top ==> limb_at(x, t) == limb_at(y, t),
    ensures
        value_upto(x, top) < value_upto(y, top),
    decreases top,
{
    if top == j + 1 {
        lemma_value_bound(x, j);
        let a = limb_at(x, j as int);
        let b = limb_at(y, j as int);
        let w = weight(j);
        let v = value_upto(x, j);
        assert(v + a * w < b * w) by (nonlinear_arith)
            requires
                v < w,
                a < b,
        ;
    } else {
        lemma_value_order(x, y, j, (top - 1) as nat);
    }
}

/// A natural number of any size.
pub struct Wide {
    limbs: Vec<u64>,
}

impl View for Wide {
    type V = nat;

    closed spec fn view(&self) -> nat {
        limbs_value(self.limbs@)
    }
}

proof fn lemma_scale_step(v: nat, vx: nat, carry: nat, t: nat, d: nat, k: nat, wi: nat, ws: nat, w: nat)
    requires
        v + carry * w == vx * k * ws,
        t == d * k + carry,
        w == wi * ws,
    ensures
        v + (t % limb_base()) * w + (t / limb_base()) * (limb_base() * w) == (vx + d * wi) * k * ws,
{
    let b = limb_base();
    assert(t == b * (t / b) + t % b) by {
        vstd::arithmetic::div_mod::lemma_fundamental_div_mod(t as int, b as int);
    }
    let q = t / b;
    let r = t % b;
    assert(r * w + q * (b * w) == t * w) by (nonlinear_arith)
        requires
            t == b * q + r,
    ;
    assert(v + t * w == (vx + d * wi) * k * ws) by (nonlinear_arith)
        requires
            v + carry * w == vx * k * ws,
            t == d * k + carry,
            w == wi * ws,
    ;
}

proof fn lemma_sum_step(v: nat, vx: nat, vy: nat, carry: nat, t: nat, a: nat, b: nat, w: nat)
    requires
        v + carry * w == vx + vy,
        t == a + b + carry,
    ensures
        v + (t % limb_base()) * w + (t / limb_base()) * (limb_base() * w) == (vx + a * w) + (vy + b
            * w),
{
    let base = limb_base();
    assert(t == base * (t / base) + t % base) by {
        vstd::arithmetic::div_mod::lemma_fundamental_div_mod(t as int, base as int);
    }
    let q = t / base;
    let r = t % base;
    assert(r * w + q * (base * w) == t * w) by (nonlinear_arith)
        requires
            t == base * q + r,
    ;
    assert(v + t * w == (vx + a * w) + (vy + b * w)) by (nonlinear_arith)
        requires
            v + carry * w == vx + vy,
            t == a + b + carry,
    ;
}

impl Wide {
    /// The number zero.
    pub fn zero() -> (out: Wide)
        ensures
            out@ == 0,
    {
        Wide { limbs: Vec::new() }
    }

    /// The number `v`.
    pub fn from_u128(v: u128) -> (out: Wide)
        ensures
            out@ == v,
    {
        let low: u64 = (v % 0x1_0000_0000_0000_0000u128) as u64;
        let high: u64 = (v / 0x1_0000_0000_0000_0000u128) as u64;
        let mut limbs: Vec<u64> = Vec::new();
        limbs.push(low);
        limbs.push(high);
        proof {
            reveal_with_fuel(value_upto, 3);
            reveal_with_fuel(weight, 3);
            assert(limbs@[0] == low && limbs@[1] == high);
            assert(weight(0) == 1);
            assert(weight(1) == limb_base()) by (nonlinear_arith)
                requires
                    weight(1) == limb_base() * weight(0),
                    weight(0) == 1,
            ;
            assert(low as nat * 1 == low as nat) by (nonlinear_arith);
            assert(value_upto(limbs@, 1) == low as nat);
            assert(value_upto(limbs@, 2) == low as nat + high as nat * limb_base());
        }
        Wide { limbs }
    }

    /// The number `self * k * 2^(64 * shift)`.
    pub fn scaled(&self, k: u64, shift: usize) -> (out: Wide)
        ensures
            out@ == self@ * k * weight(shift as nat),
    {
        let len: usize = self.limbs.len();
        let mut limbs: Vec<u64> = Vec::new();
        let mut s: usize = 0;
        while s < shift
            invariant
                s <= shift,
                limbs@.len() == s,
                value_upto(limbs@, s as nat) == 0,
            decreases shift - s,
        {
            let ghost before = limbs@;
            limbs.push(0);
            proof {
                lemma_value_agrees(before, limbs@, s as nat);
                assert(0 * weight(s as nat) == 0) by (nonlinear_arith);
            }
            s += 1;
        }
        let mut carry: u64 = 0;
        let mut i: usize = 0;
        proof {
            lemma_weight_sum(0, shift as nat);
            assert(0 * weight(shift as nat) == 0) by (nonlinear_arith);
            assert(0 * k * weight(shift as nat) == 0) by (nonlinear_arith);
        }
        while i < len
            invariant
                i <= len,
                len == self.limbs@.len(),
                limbs@.len() == shift + i,
                value_upto(limbs@, (shift + i) as nat) + carry * weight((shift + i) as nat)
                    == value_upto(self.limbs@, i as nat) * k * weight(shift as nat),
            decreases len - i,
        {
            let d: u64 = self.limbs[i];
            assert(d as u128 * k as u128 + carry as u128 <= u128::MAX) by (nonlinear_arith)
                requires
                    d <= u64::MAX,
                    k <= u64::MAX,
                    carry <= u64::MAX,
            ;
            let t: u128 = d as u128 * k as u128 + carry as u128;
            let low: u64 = (t % 0x1_0000_0000_0000_0000u128) as u64;
            let high: u64 = (t / 0x1_0000_0000_0000_0000u128) as u64;
            let ghost before = limbs@;
            limbs.push(low);
            proof {
                lemma_value_agrees(before, limbs@, (shift + i) as nat);
                lemma_weight_sum(i as nat, shift as nat);
                lemma_scale_step(
                    value_upto(before, (shift + i) as nat),
                    value_upto(self.limbs@, i as nat),
                    carry as nat,
                    t as nat,
                    d as nat,
                    k as nat,
                    weight(i as nat),
                    weight(shift as nat),
                    weight((shift + i) as nat),
                );
                assert(weight((shift + i + 1) as nat) == limb_base() * weight((shift + i) as nat));
                assert(limb_at(limbs@, shift + i) == low);
                assert(limb_at(self.limbs@, i as int) == d);
            }
            carry = high;
            i += 1;
        }
        let ghost before = limbs@;
        limbs.push(carry);
        proof {
            lemma_value_agrees(before, limbs@, (shift + len) as nat);
            assert(limb_at(limbs@, shift + len) == carry);
        }
        Wide { limbs }
    }

    /// The number `self * k`.
    pub fn times(&self, k: u64) -> (out: Wide)
        ensures
            out@ == self@ * k,
    {
        proof {
            assert(self@ * k * weight(0) == self@ * k) by (nonlinear_arith)
                requires
                    weight(0) == 1,
            ;
        }
        self.scaled(k, 0)
    }

    /// The number `self + other`.
    pub fn sum(&self, other: &Wide) -> (out: Wide)
        ensures
            out@ == self@ + other@,
    {
        let xlen: usize = self.limbs.len();
        let ylen: usize = other.limbs.len();
        let top: usize = if xlen >= ylen {
            xlen
        } else {
            ylen
        };
        let mut limbs: Vec<u64> = Vec::new();
        let mut carry: u64 = 0;
        let mut i: usize = 0;
        proof {
            assert(0 * weight(0) == 0) by (nonlinear_arith);
        }
        while i < top
            invariant
                i <= top,
                xlen == self.limbs@.len(),
                ylen == other.limbs@.len(),
                limbs@.len() == i,
                carry <= 1,
                value_upto(limbs@, i as nat) + carry * weight(i as nat) == value_upto(
                    self.limbs@,
                    i as nat,
                ) + value_upto(other.limbs@, i as nat),
            decreases top - i,
        {
            let a: u64 = if i < xlen {
                self.limbs[i]
            } else {
                0
            };
            let b: u64 = if i < ylen {
                other.limbs[i]
            } else {
                0
            };
            let t: u128 = a as u128 + b as u128 + carry as u128;
            let low: u64 = (t % 0x1_0000_0000_0000_0000u128) as u64;
            let high: u64 = (t / 0x1_0000_0000_0000_0000u128) as u64;
            let ghost before = limbs@;
            limbs.push(low);
            proof {
                lemma_value_agrees(before, limbs@, i as nat);
                lemma_sum_step(
                    value_upto(before, i as nat),
                    value_upto(self.limbs@, i as nat),
                    value_upto(other.limbs@, i as nat),
                    carry as nat,
                    t as nat,
                    a as nat,
                    b as nat,
                    weight(i as nat),
                );
                assert(weight((i + 1) as nat) == limb_base() * weight(i as nat));
                assert(limb_at(limbs@, i as int) == low);
                assert(limb_at(self.limbs@, i as int) == a);
                assert(limb_at(other.limbs@, i as int) == b);
            }
            carry = high;
            i += 1;
        }
        let ghost before = limbs@;
        limbs.push(carry);
        proof {
            lemma_value_agrees(before, limbs@, top as nat);
            assert(limb_at(limbs@, top as int) == carry);
            lemma_value_beyond(self.limbs@, top as nat);
            lemma_value_beyond(other.limbs@, top as nat);
        }
        Wide { limbs }
    }

    /// The number `self * other`.
    pub fn product(&self, other: &Wide) -> (out: Wide)
        ensures
            out@ == self@ * other@,
    {
        let len: usize = other.limbs.len();
        let mut acc: Wide = Wide::zero();
        let mut i: usize = 0;
        proof {
            assert(self@ * 0 == 0) by (nonlinear_arith);
        }
        while i < len
            invariant
                i <= len,
                len == other.limbs@.len(),
                acc@ == self@ * value_upto(other.limbs@, i as nat),
            decreases len - i,
        {
            let d: u64 = other.limbs[i];
            let term: Wide = self.scaled(d, i);
            let ghost v = value_upto(other.limbs@, i as nat);
            let ghost w = weight(i as nat);
            let ghost x = self@;
            proof {
                assert(x * v + x * d * w == x * (v + d * w)) by (nonlinear_arith);
                assert(limb_at(other.limbs@, i as int) == d);
            }
            acc = acc.sum(&term);
            i += 1;
        }
        acc
    }

    /// Whether `self <= other`.
    pub fn at_most(&self, other: &Wide) -> (out: bool)
        ensures
            out == (self@ <= other@),
    {
        let xlen: usize = self.limbs.len();
        let ylen: usize = other.limbs.len();
        let top: usize = if xlen >= ylen {
            xlen
        } else {
            ylen
        };
        proof {
            lemma_value_beyond(self.limbs@, top as nat);
            lemma_value_beyond(other.limbs@, top as nat);
        }
        let mut i: usize = top;
        while i > 0
            invariant
                i <= top,
                value_upto(self.limbs@, top as nat) == self@,
                value_upto(other.limbs@, top as nat) == other@,
                xlen == self.limbs@.len(),
                ylen == other.limbs@.len(),
                forall|t: int| i <= t < top ==> limb_at(self.limbs@, t) == limb_at(other.limbs@, t),
            decreases i,
        {
            i -= 1;
            let a: u64 = if i < xlen {
                self.limbs[i]
            } else {
                0
            };
            let b: u64 = if i < ylen {
                other.limbs[i]
            } else {
                0
            };
            if a < b {
                proof {
                    lemma_value_order(self.limbs@, other.limbs@, i as nat, top as nat);
                }
                return true;
            }
            if a > b {
                proof {
                    lemma_value_order(other.limbs@, self.limbs@, i as nat, top as nat);
                }
                return false;
            }
        }
        proof {
            lemma_value_agrees(self.limbs@, other.limbs@, top as nat);
        }
        true
    }
}

} // verus!
