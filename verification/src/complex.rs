//! Exact complex amplitude arithmetic.
//!
//! Every amplitude that the simulator produces lies in the ring generated
//! by the eighth root of unity `w = e^(i*pi/4)` and one half: gates use
//! entries 0, 1, -1, the Hadamard entry `1/sqrt(2) = (w - w^3)/2`, and the
//! phase factors `w^m`. A value is stored as four integer coefficients of
//! `1, w, w^2, w^3` over a power-of-two denominator, so every gate
//! application is exact and the floating-point rounding of an approximate
//! simulator never arises.

use vstd::prelude::*;
use vstd::arithmetic::power2::{lemma2_to64, lemma_pow2_adds, lemma_pow2_pos, lemma_pow2_unfold, pow2};

verus! {

/// Mathematical value of a quadruple: coefficients of `1, w, w^2, w^3`
/// with `w = e^(i*pi/4)`, so `w^4 == -1`, `i == w^2` and
/// `sqrt(2) == w - w^3`.
pub ghost struct CQ {
    pub a: int,
    pub b: int,
    pub c: int,
    pub d: int,
}

pub open spec fn cq_zero() -> CQ {
    CQ { a: 0, b: 0, c: 0, d: 0 }
}

pub open spec fn cq_one() -> CQ {
    CQ { a: 1, b: 0, c: 0, d: 0 }
}

pub open spec fn cq_add(x: CQ, y: CQ) -> CQ {
    CQ { a: x.a + y.a, b: x.b + y.b, c: x.c + y.c, d: x.d + y.d }
}

pub open spec fn cq_neg(x: CQ) -> CQ {
    CQ { a: -x.a, b: -x.b, c: -x.c, d: -x.d }
}

/// Product in `Z[w]`: powers of `w` at or above 4 wrap with a sign flip.
pub open spec fn cq_mul(x: CQ, y: CQ) -> CQ {
    CQ {
        a: x.a * y.a - x.b * y.d - x.c * y.c - x.d * y.b,
        b: x.a * y.b + x.b * y.a - x.c * y.d - x.d * y.c,
        c: x.a * y.c + x.b * y.b + x.c * y.a - x.d * y.d,
        d: x.a * y.d + x.b * y.c + x.c * y.b + x.d * y.a,
    }
}

/// Complex conjugate: `w` and `w^3` swap with a sign flip, `w^2` flips.
pub open spec fn cq_conj(x: CQ) -> CQ {
    CQ { a: x.a, b: -x.d, c: -x.c, d: -x.b }
}

pub open spec fn cq_scale(x: CQ, m: int) -> CQ {
    CQ { a: x.a * m, b: x.b * m, c: x.c * m, d: x.d * m }
}

/// All four coefficients lie within `[-m, m]`.
pub open spec fn cq_bounded(x: CQ, m: int) -> bool {
    &&& -m <= x.a <= m
    &&& -m <= x.b <= m
    &&& -m <= x.c <= m
    &&& -m <= x.d <= m
}

/// Largest coefficient magnitude a stored quadruple may carry; keeping a
/// margin below `i64::MAX` lets sums of products be accumulated exactly.
pub open spec fn coeff_limit() -> int {
    0x8000_0000
}

/// `(q1, k1)` and `(q2, k2)` denote the same complex number
/// `q1 / 2^k1 == q2 / 2^k2`, compared by cross-multiplication.
pub open spec fn dy_eq(q1: CQ, k1: nat, q2: CQ, k2: nat) -> bool {
    cq_scale(q1, pow2(k2) as int) == cq_scale(q2, pow2(k1) as int)
}

pub proof fn lemma_dy_eq_sym(q1: CQ, k1: nat, q2: CQ, k2: nat)
    requires
        dy_eq(q1, k1, q2, k2),
    ensures
        dy_eq(q2, k2, q1, k1),
{
}

pub proof fn lemma_dy_eq_trans(q1: CQ, k1: nat, q2: CQ, k2: nat, q3: CQ, k3: nat)
    requires
        dy_eq(q1, k1, q2, k2),
        dy_eq(q2, k2, q3, k3),
    ensures
        dy_eq(q1, k1, q3, k3),
{
    let m1 = pow2(k1) as int;
    let m2 = pow2(k2) as int;
    let m3 = pow2(k3) as int;
    vstd::arithmetic::power2::lemma_pow2_pos(k1);
    vstd::arithmetic::power2::lemma_pow2_pos(k2);
    vstd::arithmetic::power2::lemma_pow2_pos(k3);
    assert(q1.a * m3 == q3.a * m1) by (nonlinear_arith)
        requires
            q1.a * m2 == q2.a * m1,
            q2.a * m3 == q3.a * m2,
            m2 >= 1,
    ;
    assert(q1.b * m3 == q3.b * m1) by (nonlinear_arith)
        requires
            q1.b * m2 == q2.b * m1,
            q2.b * m3 == q3.b * m2,
            m2 >= 1,
    ;
    assert(q1.c * m3 == q3.c * m1) by (nonlinear_arith)
        requires
            q1.c * m2 == q2.c * m1,
            q2.c * m3 == q3.c * m2,
            m2 >= 1,
    ;
    assert(q1.d * m3 == q3.d * m1) by (nonlinear_arith)
        requires
            q1.d * m2 == q2.d * m1,
            q2.d * m3 == q3.d * m2,
            m2 >= 1,
    ;
}

/// A reduced amplitude with its denominator exponent no larger than an
/// equal-valued reduced amplitude is identical to it.
proof fn lemma_reduced_le(x: Amp, y: Amp)
    requires
        amp_reduced(x),
        amp_reduced(y),
        amp_same_value(x, y),
        x.k <= y.k,
    ensures
        x == y,
{
    let mx = pow2(x.k as nat) as int;
    let d = (y.k - x.k) as nat;
    let md = pow2(d) as int;
    lemma_pow2_pos(x.k as nat);
    lemma_pow2_pos(d);
    lemma_pow2_adds(x.k as nat, d);
    assert(pow2(y.k as nat) == pow2(x.k as nat) * pow2(d));
    assert(x.q@.a * md == y.q@.a) by (nonlinear_arith)
        requires
            x.q@.a * (mx * md) == y.q@.a * mx,
            mx >= 1,
    ;
    assert(x.q@.b * md == y.q@.b) by (nonlinear_arith)
        requires
            x.q@.b * (mx * md) == y.q@.b * mx,
            mx >= 1,
    ;
    assert(x.q@.c * md == y.q@.c) by (nonlinear_arith)
        requires
            x.q@.c * (mx * md) == y.q@.c * mx,
            mx >= 1,
    ;
    assert(x.q@.d * md == y.q@.d) by (nonlinear_arith)
        requires
            x.q@.d * (mx * md) == y.q@.d * mx,
            mx >= 1,
    ;
    if y.k > x.k {
        lemma_pow2_unfold(d);
        let h = pow2((d - 1) as nat) as int;
        assert(y.q@.a % 2 == 0 && y.q@.b % 2 == 0 && y.q@.c % 2 == 0 && y.q@.d % 2 == 0) by {
            assert(y.q@.a == 2 * (x.q@.a * h) && y.q@.b == 2 * (x.q@.b * h) && y.q@.c == 2 * (
            x.q@.c * h) && y.q@.d == 2 * (x.q@.d * h)) by (nonlinear_arith)
                requires
                    y.q@.a == x.q@.a * md,
                    y.q@.b == x.q@.b * md,
                    y.q@.c == x.q@.c * md,
                    y.q@.d == x.q@.d * md,
                    md == 2 * h,
            ;
            vstd::arithmetic::div_mod::lemma_mod_multiples_basic(x.q@.a * h, 2);
            vstd::arithmetic::div_mod::lemma_mod_multiples_basic(x.q@.b * h, 2);
            vstd::arithmetic::div_mod::lemma_mod_multiples_basic(x.q@.c * h, 2);
            vstd::arithmetic::div_mod::lemma_mod_multiples_basic(x.q@.d * h, 2);
        }
        assert(false);
    } else {
        assert(md == 1) by {
            lemma2_to64();
        }
    }
}

/// Reduced forms are canonical: two reduced amplitudes denoting the same
/// complex number are identical.
pub proof fn lemma_reduced_unique(x: Amp, y: Amp)
    requires
        amp_reduced(x),
        amp_reduced(y),
        amp_same_value(x, y),
    ensures
        x == y,
{
    if x.k <= y.k {
        lemma_reduced_le(x, y);
    } else {
        lemma_dy_eq_sym(x.q@, x.k as nat, y.q@, y.k as nat);
        lemma_reduced_le(y, x);
    }
}

/// Stored quadruple of coefficients of `1, w, w^2, w^3`.
#[derive(Clone, Copy, PartialEq, Eq, Structural, Debug)]
pub struct Quad {
    pub a: i64,
    pub b: i64,
    pub c: i64,
    pub d: i64,
}

impl View for Quad {
    type V = CQ;

    open spec fn view(&self) -> CQ {
        CQ { a: self.a as int, b: self.b as int, c: self.c as int, d: self.d as int }
    }
}

/// An amplitude: the value `q / 2^k`.
#[derive(Clone, Copy, PartialEq, Eq, Structural, Debug)]
pub struct Amp {
    pub q: Quad,
    pub k: u32,
}

/// Two amplitudes denote the same complex number.
pub open spec fn amp_same_value(x: Amp, y: Amp) -> bool {
    dy_eq(x.q@, x.k as nat, y.q@, y.k as nat)
}

/// `k` cannot be lowered without leaving the ring: either it is zero or
/// some coefficient is odd.
pub open spec fn amp_reduced(x: Amp) -> bool {
    x.k == 0 || x.q@.a % 2 != 0 || x.q@.b % 2 != 0 || x.q@.c % 2 != 0 || x.q@.d % 2 != 0
}

impl Amp {
    /// The amplitude 0.
    pub fn zero() -> (r: Amp)
        ensures
            r.q@ == cq_zero(),
            r.k == 0,
    {
        Amp { q: Quad { a: 0, b: 0, c: 0, d: 0 }, k: 0 }
    }

    /// The amplitude 1.
    pub fn one() -> (r: Amp)
        ensures
            r.q@ == cq_one(),
            r.k == 0,
    {
        Amp { q: Quad { a: 1, b: 0, c: 0, d: 0 }, k: 0 }
    }

    /// Exact test against zero.
    pub fn is_zero(&self) -> (r: bool)
        ensures
            r == (self.q@ == cq_zero()),
    {
        self.q.a == 0 && self.q.b == 0 && self.q.c == 0 && self.q.d == 0
    }

    /// Exact sum of two amplitudes over the same denominator.
    pub fn add(&self, other: &Amp) -> (r: Amp)
        requires
            self.k == other.k,
            cq_bounded(self.q@, coeff_limit()),
            cq_bounded(other.q@, coeff_limit()),
        ensures
            r.q@ == cq_add(self.q@, other.q@),
            r.k == self.k,
    {
        Amp {
            q: Quad {
                a: self.q.a + other.q.a,
                b: self.q.b + other.q.b,
                c: self.q.c + other.q.c,
                d: self.q.d + other.q.d,
            },
            k: self.k,
        }
    }

    /// Divides out every common factor of two from the coefficients and
    /// the denominator, preserving the denoted value.
    pub fn reduce(&self) -> (r: Amp)
        ensures
            amp_same_value(*self, r),
            amp_reduced(r),
    {
        let mut q = self.q;
        let mut k = self.k;
        proof {
            assert(dy_eq(self.q@, self.k as nat, q@, k as nat));
        }
        while k > 0 && q.a % 2 == 0 && q.b % 2 == 0 && q.c % 2 == 0 && q.d % 2 == 0
            invariant
                dy_eq(self.q@, self.k as nat, q@, k as nat),
            decreases k,
        {
            let half = Quad { a: q.a / 2, b: q.b / 2, c: q.c / 2, d: q.d / 2 };
            proof {
                lemma_pow2_unfold(k as nat);
                vstd::arithmetic::power2::lemma_pow2_pos((k - 1) as nat);
                let m = pow2((k - 1) as nat) as int;
                assert(q@.a == 2 * (half@.a) && q@.b == 2 * (half@.b) && q@.c == 2 * (half@.c)
                    && q@.d == 2 * (half@.d));
                assert(q@.a * m == half@.a * (2 * m) && q@.b * m == half@.b * (2 * m) && q@.c * m
                    == half@.c * (2 * m) && q@.d * m == half@.d * (2 * m)) by (nonlinear_arith)
                    requires
                        q@.a == 2 * (half@.a),
                        q@.b == 2 * (half@.b),
                        q@.c == 2 * (half@.c),
                        q@.d == 2 * (half@.d),
                ;
                assert(dy_eq(q@, k as nat, half@, (k - 1) as nat));
                lemma_dy_eq_trans(
                    self.q@,
                    self.k as nat,
                    q@,
                    k as nat,
                    half@,
                    (k - 1) as nat,
                );
            }
            q = half;
            k = k - 1;
        }
        Amp { q, k }
    }

    /// Whether two amplitudes denote the same complex number, decided by
    /// comparing reduced forms, which are canonical.
    pub fn same_value(&self, other: &Amp) -> (r: bool)
        ensures
            r == amp_same_value(*self, *other),
    {
        let x = self.reduce();
        let y = other.reduce();
        let eq = x.q.a == y.q.a && x.q.b == y.q.b && x.q.c == y.q.c && x.q.d == y.q.d && x.k
            == y.k;
        proof {
            if eq {
                assert(amp_same_value(x, y));
                lemma_dy_eq_trans(
                    self.q@,
                    self.k as nat,
                    x.q@,
                    x.k as nat,
                    y.q@,
                    y.k as nat,
                );
                lemma_dy_eq_sym(other.q@, other.k as nat, y.q@, y.k as nat);
                lemma_dy_eq_trans(
                    self.q@,
                    self.k as nat,
                    y.q@,
                    y.k as nat,
                    other.q@,
                    other.k as nat,
                );
            } else {
                if amp_same_value(*self, *other) {
                    lemma_dy_eq_sym(self.q@, self.k as nat, x.q@, x.k as nat);
                    lemma_dy_eq_trans(
                        x.q@,
                        x.k as nat,
                        self.q@,
                        self.k as nat,
                        other.q@,
                        other.k as nat,
                    );
                    lemma_dy_eq_trans(
                        x.q@,
                        x.k as nat,
                        other.q@,
                        other.k as nat,
                        y.q@,
                        y.k as nat,
                    );
                    lemma_reduced_unique(x, y);
                }
            }
        }
        eq
    }

    /// Numerator of the squared magnitude `|q|^2 / 4^k`: the product of
    /// the quadruple with its conjugate, always of the form
    /// `p0 + p1*(w - w^3)` with `p0 + p1*sqrt(2)` real and non-negative.
    pub fn prob_numerator(&self) -> (r: Quad)
        requires
            cq_bounded(self.q@, 0x4000_0000),
        ensures
            r@ == cq_mul(self.q@, cq_conj(self.q@)),
    {
        let x = &self.q;
        proof {
            assert(cq_bounded(self.q@, 0x4000_0000));
            assert forall|u: int, v: int|
                -0x4000_0000 <= u <= 0x4000_0000 && -0x4000_0000 <= v <= 0x4000_0000 implies -0x1000_0000_0000_0000
                <= #[trigger] (u * v) <= 0x1000_0000_0000_0000 by {
                assert(u * v >= -0x1000_0000_0000_0000) by (nonlinear_arith)
                    requires
                        -0x4000_0000 <= u <= 0x4000_0000,
                        -0x4000_0000 <= v <= 0x4000_0000,
                ;
                assert(u * v <= 0x1000_0000_0000_0000) by (nonlinear_arith)
                    requires
                        -0x4000_0000 <= u <= 0x4000_0000,
                        -0x4000_0000 <= v <= 0x4000_0000,
                ;
            }
        }
        let wa: i64 = x.a * x.a - x.b * (-x.b) - x.c * (-x.c) - x.d * (-x.d);
        let wb: i64 = x.a * (-x.d) + x.b * x.a - x.c * (-x.b) - x.d * (-x.c);
        let wc: i64 = x.a * (-x.c) + x.b * (-x.d) + x.c * x.a - x.d * (-x.b);
        let wd: i64 = x.a * (-x.b) + x.b * (-x.c) + x.c * (-x.d) + x.d * x.a;
        Quad { a: wa, b: wb, c: wc, d: wd }
    }
}

} // verus!
