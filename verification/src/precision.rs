//! How far single-precision arithmetic is from exact arithmetic.

use crate::rounding::{
    lemma_find_step, lemma_negated, lemma_over_rounds, lemma_plus_rounds, lemma_pow2_big,
    lemma_rounding_exists, lemma_scaled_of_parts, lemma_sign,
};
use crate::single::{abs, overflow_limit, rounds_to, zero, Single};
use vstd::arithmetic::div_mod::lemma_fundamental_div_mod;
use vstd::arithmetic::power2::{
    lemma2_to64, lemma_pow2_adds, lemma_pow2_pos, lemma_pow2_strictly_increases, pow2,
};
use vstd::prelude::*;

verus! {

/// `x` differs from `n / d` by at most one `t`-th.
pub open spec fn is_close(x: Single, n: int, d: int, t: int) -> bool {
    x.is_finite() && t * abs(d * x.scaled() - n * pow2(149)) <= d * pow2(149)
}

/// What one is worth, in the smallest steps of the format.
pub open spec fn unit() -> int {
    pow2(149) as int
}

/// How far from one the next number is.
pub open spec fn fine() -> int {
    pow2(126) as int
}

pub proof fn lemma_units()
    ensures
        unit() == 0x80_0000 * fine(),
        fine() >= 0x1_0000_0000,
        unit() == pow2(149),
{
    lemma_pow2_big();
    lemma_pow2_adds(23, 126);
    lemma_pow2_pos(126);
    lemma_pow2_strictly_increases(121, 126);
}

/// Numbers of up to 40 bits are far from overflowing.
pub proof fn lemma_room(n: int, d: int)
    requires
        d > 0,
        abs(n) <= 0x100_0000_0000 * unit() * d,
    ensures
        abs(n) < overflow_limit() * d,
{
    lemma_pow2_adds(103, 149);
    lemma_pow2_pos(149);
    lemma_pow2_big();
    lemma_pow2_strictly_increases(50, 103);
    let (p, u) = (pow2(103) as int, unit());
    assert(overflow_limit() == 0x1FF_FFFF * (p * u));
    assert(0x100_0000_0000 * u < 0x1FF_FFFF * (p * u)) by (nonlinear_arith)
        requires
            p > 0x4_0000_0000_0000,
            u > 0,
    ;
    let (a, b) = (0x100_0000_0000 * u, overflow_limit());
    assert(a * d < b * d) by (nonlinear_arith)
        requires
            a < b,
            d > 0,
    ;
}

/// A rounding is off by at most one part in 2^23, or one smallest step.
pub proof fn lemma_rounding_error(r: Single, n: int, d: int, negative: bool)
    requires
        d > 0,
        rounds_to(r, n, d, negative),
        abs(n) < overflow_limit() * d,
    ensures
        r.is_finite(),
        0x80_0000 * abs(r.scaled() * d - n) <= abs(n) + 0x80_0000 * d,
{
    if n == 0 {
        let z = zero(false);
        lemma_sign(z);
        assert(z.is_finite());
        assert(z.scaled() == 0);
        assert(0 * d == 0) by (nonlinear_arith);
    } else {
        let x = abs(n);
        let k = lemma_find_step(x, d, 0);
        let p = pow2(k) as int;
        lemma_pow2_pos(k);
        if k > 253 {
            lemma_pow2_pos(252);
            if k > 254 {
                lemma_pow2_strictly_increases(254, k);
            }
            lemma_pow2_adds(2, 252);
            lemma_pow2_big();
            lemma2_to64();
            let o = pow2(252) as int;
            assert(p >= 4 * o);
            assert(0x1FF_FFFF * o * d <= 0x80_0000 * p * d) by (nonlinear_arith)
                requires
                    p >= 4 * o,
                    o > 0,
                    d > 0,
            ;
        }
        let w = p * d;
        assert(w > 0) by (nonlinear_arith)
            requires
                p > 0,
                d > 0,
                w == p * d,
        ;
        assert(0x100_0000 * p * d == 0x100_0000 * w) by (nonlinear_arith)
            requires
                w == p * d,
        ;
        assert(0x80_0000 * p * d == 0x80_0000 * w) by (nonlinear_arith)
            requires
                w == p * d,
        ;
        let q = x / w;
        lemma_fundamental_div_mod(x, w);
        assert(0 <= q < 0x100_0000 && (k > 0 ==> q >= 0x80_0000)) by (nonlinear_arith)
            requires
                x == w * q + x % w,
                0 <= x % w < w,
                0 < x < 0x100_0000 * w,
                k > 0 ==> x >= 0x80_0000 * w,
        ;
        let f = Single { bits: (k * 0x80_0000 + q) as u32 };
        lemma_scaled_of_parts(f, k, q);
        assert(q * p * d == w * q) by (nonlinear_arith)
            requires
                w == p * d,
        ;
        let g = f.negated();
        lemma_negated(f);
        let s = f.scaled();
        assert((-s) * d == -(s * d)) by (nonlinear_arith);
        assert(f.is_finite() && g.is_finite());
        if n > 0 {
            assert(abs(f.scaled() * d - n) <= w);
        } else {
            assert(abs(g.scaled() * d - n) <= w);
        }
        assert(abs(r.scaled() * d - n) <= w);
        if k == 0 {
            assert(p == 1) by {
                lemma_pow2_big();
            }
        }
    }
}

/// The error of a sum.
pub proof fn lemma_plus_error(a: Single, b: Single)
    requires
        a.is_finite(),
        b.is_finite(),
        abs(a.scaled() + b.scaled()) <= 0x100_0000_0000 * unit(),
    ensures
        a.plus_spec(b).is_finite(),
        0x80_0000 * abs(a.plus_spec(b).scaled() - (a.scaled() + b.scaled())) <= abs(
            a.scaled() + b.scaled(),
        ) + 0x80_0000,
{
    let n = a.scaled() + b.scaled();
    let negative = lemma_plus_rounds(a, b);
    lemma_room(n, 1);
    lemma_rounding_error(a.plus_spec(b), n, 1, negative);
}

pub proof fn lemma_minus_error(a: Single, b: Single)
    requires
        a.is_finite(),
        b.is_finite(),
        abs(a.scaled() - b.scaled()) <= 0x100_0000_0000 * unit(),
    ensures
        a.minus_spec(b).is_finite(),
        0x80_0000 * abs(a.minus_spec(b).scaled() - (a.scaled() - b.scaled())) <= abs(
            a.scaled() - b.scaled(),
        ) + 0x80_0000,
{
    reveal(Single::minus_spec);
    lemma_negated(b);
    lemma_plus_error(a, b.negated());
}

/// The error of a product.
pub proof fn lemma_times_error(a: Single, b: Single)
    requires
        a.is_finite(),
        b.is_finite(),
        abs(a.scaled() * b.scaled()) <= 0x100_0000_0000 * unit() * unit(),
    ensures
        a.times_spec(b).is_finite(),
        0x80_0000 * abs(a.times_spec(b).scaled() * unit() - a.scaled() * b.scaled()) <= abs(
            a.scaled() * b.scaled(),
        ) + 0x80_0000 * unit(),
{
    reveal(Single::times_spec);
    lemma_units();
    let n = a.scaled() * b.scaled();
    lemma_sign(a);
    lemma_sign(b);
    let (x, y) = (a.scaled(), b.scaled());
    let negative = a.is_negative() != b.is_negative();
    assert((n < 0 ==> negative) && (n > 0 ==> !negative)) by (nonlinear_arith)
        requires
            n == x * y,
            x < 0 ==> a.is_negative(),
            x > 0 ==> !a.is_negative(),
            y < 0 ==> b.is_negative(),
            y > 0 ==> !b.is_negative(),
            negative == (a.is_negative() != b.is_negative()),
    ;
    lemma_rounding_exists(n, unit(), negative);
    lemma_room(n, unit());
    lemma_rounding_error(a.times_spec(b), n, unit(), negative);
}

/// The error of a quotient by a positive number.
pub proof fn lemma_over_error(a: Single, c: Single)
    requires
        a.is_finite(),
        c.is_finite(),
        c.rank() > 0,
        abs(a.scaled() * unit()) <= 0x100_0000_0000 * unit() * c.scaled(),
    ensures
        a.over_spec(c).is_finite(),
        0x80_0000 * abs(a.over_spec(c).scaled() * c.scaled() - a.scaled() * unit()) <= abs(
            a.scaled() * unit(),
        ) + 0x80_0000 * c.scaled(),
{
    lemma_over_rounds(a, c);
    lemma_units();
    let n = a.scaled() * unit();
    lemma_room(n, c.scaled());
    lemma_rounding_error(a.over_spec(c), n, c.scaled(), a.is_negative());
}

/// Cutting a number off, and rounding it to the nearest integer.
pub proof fn lemma_to_int(x: Single)
    requires
        x.is_finite(),
        abs(x.scaled()) <= 0x4000_0000 * unit(),
    ensures
        x.scaled() >= 0 ==> x.to_int(false) * unit() <= x.scaled() < (x.to_int(false) + 1) * unit(),
        2 * abs(x.to_int(true) * unit() - x.scaled()) <= unit(),
        x.scaled() >= 0 ==> x.to_int(true) >= 0,
        x.scaled() <= 0 ==> x.to_int(true) <= 0,
{
    reveal(Single::to_int);
    lemma_units();
    lemma_sign(x);
    let (u, s) = (unit(), abs(x.scaled()));
    let (cut, near) = (s / u, (2 * s + u) / (2 * u));
    lemma_fundamental_div_mod(s, u);
    lemma_fundamental_div_mod(2 * s + u, 2 * u);
    assert((cut + 1) * u == u * cut + u && near * u == u * near && (-near) * u == -(u * near)
        && cut * u == u * cut && (2 * u) * near == 2 * (u * near)) by (nonlinear_arith);
    assert(s == 0 ==> near <= 0) by (nonlinear_arith)
        requires
            2 * (u * near) <= 2 * s + u,
            u > 0,
    ;
    assert(0 <= cut <= 0x4000_0000 && 0 <= near <= 0x4000_0000) by (nonlinear_arith)
        requires
            u * cut <= s < u * cut + u,
            2 * (u * near) <= 2 * s + u < 2 * (u * near) + 2 * u,
            0 <= s <= 0x4000_0000 * u,
            u > 0,
    ;
}

} // verus!
