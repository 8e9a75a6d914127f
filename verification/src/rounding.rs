//! Facts about the order of single-precision numbers and about rounding.

use crate::single::{
    abs, bias, distance, infinity, is_nearest, of_bits, overflow_limit, rounded, rounds_to,
    single_of, zero, Single, ONE,
};
use vstd::arithmetic::div_mod::{
    lemma_div_is_ordered, lemma_div_pos_is_pos, lemma_fundamental_div_mod,
    lemma_fundamental_div_mod_converse,
};
use vstd::arithmetic::power2::{
    lemma2_to64, lemma2_to64_rest, lemma_pow2_adds, lemma_pow2_pos, lemma_pow2_strictly_increases,
    lemma_pow2_unfold, pow2,
};
use vstd::prelude::*;

verus! {

// ---------------------------------------------------------------------------
// Ranks and values
// ---------------------------------------------------------------------------

/// A bit pattern with exponent `k + 1` and significand `q` stands for
/// `q * 2^k`; `q` may be one binade's end.
pub proof fn lemma_scaled_of_parts(r: Single, k: nat, q: int)
    requires
        0 <= q <= 0x100_0000,
        k > 0 ==> 0x80_0000 <= q,
        k < 254,
        r.bits == k * 0x80_0000 + q,
    ensures
        r.scaled() == q * pow2(k),
        !r.is_negative(),
        r.magnitude() == r.bits,
        r.bits < 0x7F80_0000 ==> r.is_finite(),
{
    if q < 0x80_0000 {
    } else if q == 0x100_0000 {
        assert(r.bits == (k + 2) * 0x80_0000);
        assert(r.magnitude() / 0x80_0000 == k + 2);
        assert(r.magnitude() % 0x80_0000 == 0);
        assert(r.step() == k + 1);
        lemma_pow2_unfold(k + 1);
        assert(0x80_0000 * pow2(k + 1) == q * pow2(k)) by (nonlinear_arith)
            requires
                pow2(k + 1) == 2 * pow2(k),
                q == 0x100_0000,
        ;
    } else {
        assert(r.bits == (k + 1) * 0x80_0000 + (q - 0x80_0000));
        assert(r.magnitude() / 0x80_0000 == k + 1);
        assert(r.magnitude() % 0x80_0000 == q - 0x80_0000);
    }
}

/// A larger magnitude stands for a larger absolute value.
proof fn lemma_scaled_order_positive(a: Single, b: Single)
    requires
        !a.is_negative(),
        !b.is_negative(),
        a.magnitude() < b.magnitude(),
    ensures
        0 <= a.scaled() < b.scaled(),
{
    lemma_pow2_pos(a.step());
    lemma_pow2_pos(b.step());
    let (sa, sb) = (a.significand(), b.significand());
    let (pa, pb) = (pow2(a.step()) as int, pow2(b.step()) as int);
    assert(0 <= sa * pa) by (nonlinear_arith)
        requires
            0 <= sa,
            0 < pa,
    ;
    if a.step() == b.step() {
        assert(sa < sb);
        assert(sa * pa < sb * pa) by (nonlinear_arith)
            requires
                sa < sb,
                0 < pa,
        ;
    } else {
        assert(a.step() < b.step());
        assert(b.significand() >= 0x80_0000);
        if a.step() + 1 < b.step() {
            lemma_pow2_strictly_increases(a.step() + 1, b.step());
        }
        lemma_pow2_unfold(a.step() + 1);
        assert(sa * pa < sb * pb) by (nonlinear_arith)
            requires
                0 <= sa < 0x100_0000,
                0x80_0000 <= sb,
                0 < pa,
                2 * pa <= pb,
        ;
    }
}

/// Ranks order finite numbers as their values do.
pub proof fn lemma_rank_order(a: Single, b: Single)
    requires
        a.is_finite(),
        b.is_finite(),
    ensures
        a.rank() < b.rank() <==> a.scaled() < b.scaled(),
        a.rank() == b.rank() <==> a.scaled() == b.scaled(),
{
    lemma_sign(a);
    lemma_sign(b);
    if a.rank() < b.rank() {
        lemma_rank_order_one_way(a, b);
    } else if b.rank() < a.rank() {
        lemma_rank_order_one_way(b, a);
    } else {
        lemma_same_rank(a, b);
    }
}

proof fn lemma_same_rank(a: Single, b: Single)
    requires
        a.rank() == b.rank(),
    ensures
        a.scaled() == b.scaled(),
{
    lemma_sign(a);
    lemma_sign(b);
    assert(a.magnitude() == b.magnitude());
}

/// The sign of the rank is the sign of the value.
pub proof fn lemma_sign(a: Single)
    ensures
        a.magnitude() == 0 ==> a.scaled() == 0,
        a.magnitude() > 0 && !a.is_negative() ==> a.scaled() > 0,
        a.magnitude() > 0 && a.is_negative() ==> a.scaled() < 0,
{
    lemma_pow2_pos(a.step());
    let s = a.significand();
    let p = pow2(a.step()) as int;
    if a.magnitude() == 0 {
        assert(s * p == 0) by (nonlinear_arith)
            requires
                s == 0,
        ;
    } else {
        assert(s > 0);
        assert(s * p > 0) by (nonlinear_arith)
            requires
                s > 0,
                p > 0,
        ;
    }
}

proof fn lemma_rank_order_one_way(a: Single, b: Single)
    requires
        a.is_finite(),
        b.is_finite(),
        a.rank() < b.rank(),
    ensures
        a.scaled() < b.scaled(),
{
    lemma_sign(a);
    lemma_sign(b);
    if !a.is_negative() && !b.is_negative() {
        lemma_scaled_order_positive(a, b);
    } else if a.is_negative() && b.is_negative() {
        lemma_negated(a);
        lemma_negated(b);
        lemma_scaled_order_positive(b.negated(), a.negated());
    }
}

pub proof fn lemma_negated(a: Single)
    ensures
        a.negated().magnitude() == a.magnitude(),
        a.negated().is_negative() != a.is_negative(),
        a.negated().scaled() == -a.scaled(),
        a.negated().rank() == -a.rank(),
        a.negated().negated() == a,
{
}

/// The number one place up from `a`.
proof fn lemma_next_rank(a: Single, b: Single) -> (q: Single)
    requires
        a.is_finite(),
        b.is_finite(),
        a.rank() < b.rank(),
    ensures
        q.is_finite(),
        q.rank() == a.rank() + 1,
{
    let rank = a.rank() + 1;
    let q = if rank < 0 {
        Single { bits: (0x8000_0000 - rank) as u32 }
    } else {
        Single { bits: rank as u32 }
    };
    q
}

// ---------------------------------------------------------------------------
// Rounding
// ---------------------------------------------------------------------------

/// Two nearest numbers have the same value.
pub proof fn lemma_nearest_unique(a: Single, b: Single, n: int, d: int)
    requires
        d > 0,
        is_nearest(a, n, d),
        is_nearest(b, n, d),
    ensures
        a.scaled() == b.scaled(),
{
    lemma_nearest_not_below(a, b, n, d);
    lemma_nearest_not_below(b, a, n, d);
}

proof fn lemma_nearest_not_below(a: Single, b: Single, n: int, d: int)
    requires
        d > 0,
        is_nearest(a, n, d),
        is_nearest(b, n, d),
    ensures
        a.scaled() >= b.scaled(),
{
    let (va, vb) = (a.scaled(), b.scaled());
    if va < vb {
        lemma_rank_order(a, b);
        let q = lemma_next_rank(a, b);
        lemma_rank_order(a, q);
        lemma_rank_order(q, b);
        let vq = q.scaled();
        assert(distance(a, n, d) == distance(b, n, d));
        assert(va * d < vb * d && va * d < vq * d) by (nonlinear_arith)
            requires
                va < vb,
                va < vq,
                d > 0,
        ;
        if q.rank() < b.rank() {
            assert(vq * d < vb * d) by (nonlinear_arith)
                requires
                    vq < vb,
                    d > 0,
            ;
            assert(distance(q, n, d) < distance(a, n, d));
        } else {
            assert(a.rank() % 2 == 0);
            assert(b.rank() % 2 == 0);
        }
    }
}

/// `rounded` is any number that meets its description.
pub proof fn lemma_rounded_is(r: Single, n: int, d: int, negative: bool)
    requires
        d > 0,
        rounds_to(r, n, d, negative),
    ensures
        rounded(n, d, negative) == r,
{
    let c = rounded(n, d, negative);
    if abs(n) < overflow_limit() * d {
        lemma_nearest_unique(c, r, n, d);
        lemma_rank_order(c, r);
        lemma_sign(c);
        lemma_sign(r);
        assert(c.bits == r.bits);
    }
}

/// A number whose significand is `n / d` rounded at step `k` is nearest.
pub proof fn lemma_round_at(r: Single, n: int, d: int, k: nat, q: int)
    requires
        d > 0,
        k < 254,
        0 <= q <= 0x100_0000,
        k > 0 ==> 0x80_0000 <= q && 0x80_0000 * pow2(k) * d <= n,
        r.bits == k * 0x80_0000 + q,
        r.bits < 0x7F80_0000,
        2 * abs(q * pow2(k) * d - n) <= pow2(k) * d,
        2 * abs(q * pow2(k) * d - n) == pow2(k) * d ==> q % 2 == 0,
    ensures
        is_nearest(r, n, d),
        r.scaled() == q * pow2(k),
{
    lemma_scaled_of_parts(r, k, q);
    lemma_pow2_pos(k);
    let unit = pow2(k) * d;
    assert(unit > 0) by (nonlinear_arith)
        requires
            pow2(k) > 0,
            d > 0,
            unit == pow2(k) * d,
    ;
    assert(r.scaled() * d == q * unit) by (nonlinear_arith)
        requires
            r.scaled() == q * pow2(k),
            unit == pow2(k) * d,
    ;
    assert(q * pow2(k) * d == q * unit) by (nonlinear_arith)
        requires
            unit == pow2(k) * d,
    ;
    assert(0x80_0000 * pow2(k) * d == 0x80_0000 * unit) by (nonlinear_arith)
        requires
            unit == pow2(k) * d,
    ;
    assert(r.rank() % 2 == q % 2);
    assert forall|p: Single| #![trigger p.scaled()] p.is_finite() implies {
        &&& distance(r, n, d) <= distance(p, n, d)
        &&& distance(r, n, d) == distance(p, n, d) && p.scaled() != r.scaled() ==> r.rank() % 2
            == 0
    } by {
        let c = lemma_multiple_or_small(p, k);
        if c.0 {
            let m = c.1;
            assert(p.scaled() * d == m * unit) by (nonlinear_arith)
                requires
                    p.scaled() == m * pow2(k),
                    unit == pow2(k) * d,
            ;
            lemma_multiples_apart(q, m, unit, n);
        } else {
            let v = p.scaled();
            assert(v * d < 0x80_0000 * unit) by (nonlinear_arith)
                requires
                    v < 0x80_0000 * pow2(k),
                    d > 0,
                    unit == pow2(k) * d,
            ;
            lemma_multiples_apart(q, 0x80_0000, unit, n);
        }
    }
}

proof fn lemma_multiples_apart(q: int, m: int, unit: int, n: int)
    requires
        unit > 0,
        2 * abs(q * unit - n) <= unit,
        2 * abs(q * unit - n) == unit ==> q % 2 == 0,
    ensures
        abs(q * unit - n) <= abs(m * unit - n),
        abs(q * unit - n) == abs(m * unit - n) && m != q ==> q % 2 == 0,
{
    if m > q {
        assert(m * unit >= q * unit + unit) by (nonlinear_arith)
            requires
                m >= q + 1,
                unit > 0,
        ;
    } else if m < q {
        assert(m * unit <= q * unit - unit) by (nonlinear_arith)
            requires
                m <= q - 1,
                unit > 0,
        ;
    }
}

/// A finite number is a multiple of `2^k`, or is below the binade at `k`.
proof fn lemma_multiple_or_small(p: Single, k: nat) -> (c: (bool, int))
    ensures
        k == 0 ==> c.0,
        c.0 ==> p.scaled() == c.1 * pow2(k),
        !c.0 ==> p.scaled() < 0x80_0000 * pow2(k),
{
    lemma_pow2_pos(k);
    lemma_pow2_pos(p.step());
    let s = p.significand();
    if p.step() >= k {
        let up = (p.step() - k) as nat;
        lemma_pow2_adds(up, k);
        let m = if p.is_negative() {
            -(s * pow2(up))
        } else {
            s * pow2(up)
        };
        assert(s * pow2(p.step()) == s * pow2(up) * pow2(k)) by (nonlinear_arith)
            requires
                pow2(p.step()) == pow2(up) * pow2(k),
        ;
        assert(-(s * pow2(up) * pow2(k)) == (-(s * pow2(up))) * pow2(k)) by (nonlinear_arith);
        (true, m)
    } else {
        lemma_pow2_unfold(p.step() + 1);
        if p.step() + 1 < k {
            lemma_pow2_strictly_increases(p.step() + 1, k);
        }
        let a = pow2(p.step()) as int;
        let b = pow2(k) as int;
        assert(0 <= s * a < 0x80_0000 * b) by (nonlinear_arith)
            requires
                0 <= s < 0x100_0000,
                0 < a,
                2 * a <= b,
        ;
        (false, 0)
    }
}

/// Rounding commutes with negation.
pub proof fn lemma_nearest_negated(r: Single, n: int, d: int)
    requires
        is_nearest(r, n, d),
    ensures
        is_nearest(r.negated(), -n, d),
        r.negated().scaled() == -r.scaled(),
{
    lemma_negated(r);
    assert forall|p: Single| #![trigger p.scaled()] p.is_finite() implies {
        &&& distance(r.negated(), -n, d) <= distance(p, -n, d)
        &&& distance(r.negated(), -n, d) == distance(p, -n, d) && p.scaled()
            != r.negated().scaled() ==> r.negated().rank() % 2 == 0
    } by {
        lemma_negated(p);
        let v = p.scaled();
        let w = r.scaled();
        assert(p.negated().is_finite());
        assert((-v) * d == -(v * d)) by (nonlinear_arith);
        assert((-w) * d == -(w * d)) by (nonlinear_arith);
        assert(distance(p.negated(), n, d) == distance(p, -n, d));
        assert(distance(r.negated(), -n, d) == distance(r, n, d));
    }
}

/// Scaling numerator and denominator alike changes nothing.
pub proof fn lemma_rounds_to_scaled(r: Single, n: int, d: int, c: int, negative: bool)
    requires
        c > 0,
        d > 0,
        rounds_to(r, n * c, d * c, negative),
    ensures
        rounds_to(r, n, d, negative),
{
    let limit = overflow_limit();
    assert(abs(n * c) == abs(n) * c) by (nonlinear_arith)
        requires
            c > 0,
    ;
    let m = abs(n);
    assert(m * c >= limit * (d * c) <==> m >= limit * d) by (nonlinear_arith)
        requires
            c > 0,
    ;
    if m < limit * d {
        lemma_distance_scaled(r, n, d, c);
        assert forall|p: Single| #![trigger p.scaled()] p.is_finite() implies {
            &&& distance(r, n, d) <= distance(p, n, d)
            &&& distance(r, n, d) == distance(p, n, d) && p.scaled() != r.scaled() ==> r.rank() % 2
                == 0
        } by {
            lemma_distance_scaled(p, n, d, c);
            let (a, b) = (distance(r, n, d), distance(p, n, d));
            assert(a * c <= b * c ==> a <= b) by (nonlinear_arith)
                requires
                    c > 0,
            ;
        }
    }
}

proof fn lemma_distance_scaled(r: Single, n: int, d: int, c: int)
    requires
        c > 0,
    ensures
        distance(r, n * c, d * c) == distance(r, n, d) * c,
{
    let v = r.scaled();
    let t = v * d - n;
    assert(v * (d * c) - n * c == t * c) by (nonlinear_arith)
        requires
            t == v * d - n,
    ;
    assert(abs(t * c) == abs(t) * c) by (nonlinear_arith)
        requires
            c > 0,
    ;
}

/// Zero rounds to a zero of either sign.
pub proof fn lemma_zero_rounds(d: int, negative: bool)
    requires
        d > 0,
    ensures
        rounds_to(zero(negative), 0, d, negative),
        rounded(0, d, negative) == zero(negative),
{
    lemma_sign(zero(negative));
    lemma_exact(zero(negative), d, negative);
    assert(0 * d == 0) by (nonlinear_arith);
}

/// A finite number is the rounding of its own value.
pub proof fn lemma_exact(a: Single, d: int, negative: bool)
    requires
        d > 0,
        a.is_finite(),
        a.is_negative() == negative,
    ensures
        rounds_to(a, a.scaled() * d, d, negative),
        rounded(a.scaled() * d, d, negative) == a,
{
    lemma_sign(a);
    let v = a.scaled();
    assert forall|p: Single| #![trigger p.scaled()] p.is_finite() implies {
        &&& distance(a, v * d, d) <= distance(p, v * d, d)
        &&& distance(a, v * d, d) == distance(p, v * d, d) && p.scaled() != a.scaled()
            ==> a.rank() % 2 == 0
    } by {
        let w = p.scaled();
        assert(w * d == v * d ==> w == v) by (nonlinear_arith)
            requires
                d > 0,
        ;
    }
    lemma_below_limit(a);
    let limit = overflow_limit();
    assert(abs(v * d) < limit * d) by (nonlinear_arith)
        requires
            abs(v) < limit,
            d > 0,
    ;
    lemma_rounded_is(a, v * d, d, negative);
}

/// Finite numbers lie below the limit at which values round to infinity.
pub proof fn lemma_below_limit(a: Single)
    requires
        a.is_finite(),
    ensures
        abs(a.scaled()) < overflow_limit(),
{
    let (s, k) = (a.significand(), a.step());
    lemma_pow2_pos(k);
    lemma_pow2_unfold(253);
    if k < 253 {
        lemma_pow2_strictly_increases(k, 253);
    }
    let p = pow2(252) as int;
    let q = pow2(k) as int;
    assert(0 <= s * q < 0x1FF_FFFF * p) by (nonlinear_arith)
        requires
            0 <= s <= 0xFF_FFFF,
            0 < q <= 2 * p,
    ;
}

/// Rounding a negative value is negating a rounded one.
pub proof fn lemma_signed(r: Single, n: int, d: int, negative: bool)
    requires
        d > 0,
        n > 0,
        rounds_to(r, n, d, false),
    ensures
        negative ==> rounds_to(r.negated(), -n, d, true) && rounded(-n, d, true) == r.negated(),
        !negative ==> rounded(n, d, false) == r,
{
    lemma_negated(r);
    if negative {
        if n < overflow_limit() * d {
            lemma_nearest_negated(r, n, d);
        }
        lemma_rounded_is(r.negated(), -n, d, true);
    } else {
        lemma_rounded_is(r, n, d, false);
    }
}

/// The product of two finite numbers that are not zero.
pub proof fn lemma_times(a: Single, b: Single, r: Single, e: int)
    requires
        a.is_finite(),
        b.is_finite(),
        !a.is_zero(),
        !b.is_zero(),
        e == a.step() + b.step() - 149,
        rounds_to(
            r,
            a.significand() * b.significand() * pow2((e + bias()) as nat),
            1 * pow2(bias()) as int,
            false,
        ),
    ensures
        a.times_spec(b) == if a.is_negative() != b.is_negative() {
            r.negated()
        } else {
            r
        },
{
    reveal(Single::times_spec);
    let (m, n) = (a.significand(), b.significand());
    let (x, y) = (pow2(a.step()) as int, pow2(b.step()) as int);
    let (unit, rest) = (pow2(149) as int, pow2(851) as int);
    lemma_pow2_adds(a.step(), b.step());
    lemma_pow2_adds(a.step() + b.step(), 851);
    lemma_pow2_adds(149, 851);
    lemma_pow2_pos(a.step());
    lemma_pow2_pos(b.step());
    lemma_pow2_pos(149);
    lemma_pow2_pos(851);
    let size = (m * x) * (n * y);
    assert(size * rest == m * n * (x * y * rest)) by (nonlinear_arith)
        requires
            size == (m * x) * (n * y),
    ;
    assert(m > 0 && n > 0);
    assert(size > 0) by (nonlinear_arith)
        requires
            size == (m * x) * (n * y),
            m > 0,
            n > 0,
            x > 0,
            y > 0,
    ;
    lemma_rounds_to_scaled(r, size, unit, rest, false);
    let negative = a.is_negative() != b.is_negative();
    lemma_signed(r, size, unit, negative);
    let (u, v) = (m * x, n * y);
    assert(u * (-v) == -(u * v) && (-u) * v == -(u * v) && (-u) * (-v) == u * v)
        by (nonlinear_arith);
}

/// The quotient of two finite numbers that are not zero.
pub proof fn lemma_over(a: Single, b: Single, r: Single, e: int)
    requires
        a.is_finite(),
        b.is_finite(),
        !a.is_zero(),
        !b.is_zero(),
        e == a.step() - b.step() + 149,
        rounds_to(
            r,
            a.significand() * pow2((e + bias()) as nat),
            b.significand() * pow2(bias()),
            false,
        ),
    ensures
        a.over_spec(b) == if a.is_negative() != b.is_negative() {
            r.negated()
        } else {
            r
        },
{
    reveal(Single::over_spec);
    let (m, n) = (a.significand(), b.significand());
    let (x, y) = (pow2(a.step()) as int, pow2(b.step()) as int);
    let c = (bias() - b.step()) as nat;
    let (unit, rest) = (pow2(149) as int, pow2(c) as int);
    lemma_pow2_adds(a.step(), 149);
    lemma_pow2_adds(a.step() + 149, c);
    lemma_pow2_adds(b.step(), c);
    lemma_pow2_pos(a.step());
    lemma_pow2_pos(b.step());
    lemma_pow2_pos(149);
    lemma_pow2_pos(c);
    assert(m > 0 && n > 0);
    let (u, v) = (m * x, n * y);
    assert(u > 0 && v > 0) by (nonlinear_arith)
        requires
            u == m * x,
            v == n * y,
            m > 0,
            n > 0,
            x > 0,
            y > 0,
    ;
    let size = u * unit;
    assert(size > 0) by (nonlinear_arith)
        requires
            size == u * unit,
            u > 0,
            unit > 0,
    ;
    assert(size * rest == m * (x * unit * rest)) by (nonlinear_arith)
        requires
            size == (m * x) * unit,
    ;
    assert(v * rest == n * (y * rest)) by (nonlinear_arith)
        requires
            v == n * y,
    ;
    lemma_rounds_to_scaled(r, size, v, rest, false);
    lemma_signed(r, size, v, a.is_negative() != b.is_negative());
}

/// A number does not change when one is added that is far below its step.
pub proof fn lemma_far_sum(a: Single, b: Single)
    requires
        a.is_finite(),
        b.is_finite(),
        a.step() > b.step() + 36,
    ensures
        a.plus_spec(b) == a,
        b.plus_spec(a) == a,
{
    reveal(Single::plus_spec);
    if a.is_negative() {
        lemma_negated(a);
        lemma_negated(b);
        lemma_far_sum_positive(a.negated(), b.negated());
        let n = a.scaled() + b.scaled();
        lemma_signed(a.negated(), -n, 1, true);
    } else {
        lemma_far_sum_positive(a, b);
        let n = a.scaled() + b.scaled();
        lemma_signed(a, n, 1, false);
    }
}

proof fn lemma_far_sum_positive(a: Single, b: Single)
    requires
        a.is_finite(),
        b.is_finite(),
        !a.is_negative(),
        a.step() > b.step() + 36,
    ensures
        a.scaled() + b.scaled() > 0,
        rounds_to(a, a.scaled() + b.scaled(), 1, false),
{
    let (s, k) = (a.significand(), a.step());
    let n = a.scaled() + b.scaled();
    let p = pow2(k) as int;
    let half = pow2((k - 1) as nat) as int;
    let y = pow2(b.step()) as int;
    let t = b.significand();
    lemma_pow2_unfold(k);
    lemma_pow2_pos(b.step());
    lemma_pow2_big();
    lemma_pow2_adds(b.step(), 36);
    if b.step() + 37 < k {
        lemma_pow2_strictly_increases(b.step() + 37, k);
    }
    lemma_pow2_unfold(b.step() + 37);
    assert(0 <= t * y && 8 * (t * y) <= p) by (nonlinear_arith)
        requires
            0 <= t < 0x100_0000,
            0 < y,
            2 * (y * 0x10_0000_0000) <= p,
    ;
    assert(p > 0) by (nonlinear_arith)
        requires
            2 * (y * 0x10_0000_0000) <= p,
            y > 0,
    ;
    assert(s * p >= 0x80_0000 * p) by (nonlinear_arith)
        requires
            s >= 0x80_0000,
            p > 0,
    ;
    assert(a.magnitude() / 0x80_0000 == k + 1);
    assert(a.bits == k * 0x80_0000 + s);
    if s == 0x80_0000 && b.scaled() < 0 {
        assert(s * p == 0x100_0000 * half);
        assert(a.bits == (k - 1) * 0x80_0000 + 0x100_0000);
        lemma_round_at(a, n, 1, (k - 1) as nat, 0x100_0000);
    } else {
        if s > 0x80_0000 {
            assert(s * p >= 0x80_0000 * p + p) by (nonlinear_arith)
                requires
                    s >= 0x80_0001,
                    p > 0,
            ;
        }
        lemma_round_at(a, n, 1, k, s);
    }
    lemma_sum_below_limit(a, b, t * y);
}

/// Half a step above the largest finite number is more than `a + b` reaches.
proof fn lemma_sum_below_limit(a: Single, b: Single, size: int)
    requires
        a.is_finite(),
        !a.is_negative(),
        size == abs(b.scaled()),
        8 * size <= pow2(a.step()),
        a.scaled() + b.scaled() > 0,
    ensures
        a.scaled() + b.scaled() < overflow_limit(),
{
    let (s, k) = (a.significand(), a.step());
    let q = pow2(k) as int;
    let p = pow2(252) as int;
    lemma_pow2_pos(k);
    lemma_pow2_unfold(253);
    if k < 253 {
        lemma_pow2_strictly_increases(k, 253);
    }
    assert(2 * (s * q) + q <= 2 * (0x1FF_FFFF * p)) by (nonlinear_arith)
        requires
            0 <= s <= 0xFF_FFFF,
            0 < q <= 2 * p,
    ;
}

/// A positive value below half the smallest number rounds to zero.
pub proof fn lemma_rounds_to_zero(x: int, nn: int, d: int, dd: int, k: nat, s: nat)
    requires
        d > 0,
        dd > 0,
        nn > 0,
        nn < dd * 0x100_0000,
        k + s == bias(),
        s > 30,
        nn * pow2(k) * d == x * dd,
    ensures
        rounds_to(Single { bits: 0 }, x, (d * pow2(bias())) as int, false),
{
    lemma_pow2_adds(k, s);
    lemma_pow2_big();
    lemma_pow2_pos(k);
    if s > 31 {
        lemma_pow2_strictly_increases(31, s);
    }
    let (a, b) = (pow2(k) as int, pow2(s) as int);
    let u = a * d;
    let dx = d * (a * b);
    assert(u > 0) by (nonlinear_arith)
        requires
            u == a * d,
            a > 0,
            d > 0,
    ;
    assert(x * dd == nn * u) by (nonlinear_arith)
        requires
            nn * a * d == x * dd,
            u == a * d,
    ;
    assert(0 < x < 0x100_0000 * u) by (nonlinear_arith)
        requires
            x * dd == nn * u,
            nn > 0,
            u > 0,
            dd > 0,
            nn < dd * 0x100_0000,
    ;
    assert(dx >= 0x8000_0000 * u) by (nonlinear_arith)
        requires
            dx == d * (a * b),
            u == a * d,
            b >= 0x8000_0000,
            u > 0,
    ;
    assert(0 * pow2(0) * dx == 0) by (nonlinear_arith);
    lemma_round_at(Single { bits: 0 }, x, dx, 0, 0);
    lemma_pow2_pos(252);
    let limit = overflow_limit();
    assert(limit * dx >= dx) by (nonlinear_arith)
        requires
            limit >= 1,
            dx > 0,
    ;
}

/// A value beyond the largest binade rounds to infinity.
pub proof fn lemma_rounds_to_infinity(x: int, nn: int, d: int, dd: int, k: nat)
    requires
        d > 0,
        dd > 0,
        nn >= dd * 0x100_0000,
        k >= 254,
        nn * pow2(k + bias()) * d == x * dd,
    ensures
        rounds_to(infinity(false), x, (d * pow2(bias())) as int, false),
{
    lemma_pow2_adds(k, bias());
    lemma_pow2_pos(k);
    lemma_pow2_pos(bias());
    lemma_pow2_pos(252);
    lemma_pow2_strictly_increases(252, k);
    let (a, b, p) = (pow2(k) as int, pow2(bias()) as int, pow2(252) as int);
    let dx = d * b;
    let u = a * dx;
    assert(dx > 0) by (nonlinear_arith)
        requires
            dx == d * b,
            d > 0,
            b > 0,
    ;
    assert(nn * (a * b) * d == nn * u) by (nonlinear_arith)
        requires
            u == a * (d * b),
    ;
    lemma_pow2_unfold(253);
    lemma_pow2_unfold(254);
    if k > 254 {
        lemma_pow2_strictly_increases(254, k);
    }
    let v = p * dx;
    assert(u >= 4 * v && v > 0) by (nonlinear_arith)
        requires
            u == a * dx,
            v == p * dx,
            a >= 4 * p,
            dx > 0,
            p > 0,
    ;
    assert(x >= 0x100_0000 * u) by (nonlinear_arith)
        requires
            x * dd == nn * u,
            nn >= dd * 0x100_0000,
            dd > 0,
            u > 0,
    ;
    assert(overflow_limit() * dx == 0x1FF_FFFF * v) by (nonlinear_arith)
        requires
            overflow_limit() == 0x1FF_FFFF * p,
            v == p * dx,
    ;
}

pub proof fn lemma_pow2_big()
    ensures
        pow2(0) == 1,
        pow2(3) == 8,
        pow2(5) == 32,
        pow2(7) == 0x80,
        pow2(8) == 0x100,
        pow2(16) == 0x1_0000,
        pow2(17) == 0x2_0000,
        pow2(23) == 0x80_0000,
        pow2(24) == 0x100_0000,
        pow2(25) == 0x200_0000,
        pow2(29) == 0x2000_0000,
        pow2(30) == 0x4000_0000,
        pow2(31) == 0x8000_0000,
        pow2(36) == 0x10_0000_0000,
        pow2(50) == 0x4_0000_0000_0000,
        pow2(104) == 0x100_0000_0000_0000_0000_0000_0000,
        pow2(120) == 0x100_0000_0000_0000_0000_0000_0000_0000,
        pow2(128) == 0x1_0000_0000_0000_0000_0000_0000_0000_0000,
        pow2(121) == 0x200_0000_0000_0000_0000_0000_0000_0000,
{
    lemma2_to64();
    lemma2_to64_rest();
    lemma_pow2_adds(52, 52);
    lemma_pow2_adds(60, 60);
    lemma_pow2_unfold(121);
    lemma_pow2_adds(64, 64);
}

/// The number made of step `k` and significand `w`, where `w` is `nn / dd`
/// rounded to a whole number, is `x / dx` rounded.
pub proof fn lemma_round_parts(
    x: int,
    dx: int,
    nn: int,
    dd: int,
    k: nat,
    q: int,
    rem: int,
    w: int,
)
    requires
        dx > 0,
        dd > 0,
        nn > 0,
        nn == q * dd + rem,
        0 <= rem < dd,
        nn < dd * 0x100_0000,
        k > 0 ==> dd * 0x80_0000 <= nn,
        nn * pow2(k) * dx == x * dd,
        w == if 2 * rem > dd || (2 * rem == dd && q % 2 == 1) {
            q + 1
        } else {
            q
        },
    ensures
        0 <= w <= 0x100_0000,
        k >= 254 || k * 0x80_0000 + w >= 0x7F80_0000 ==> rounds_to(infinity(false), x, dx, false),
        k < 254 && k * 0x80_0000 + w < 0x7F80_0000 ==> rounds_to(
            Single { bits: (k * 0x80_0000 + w) as u32 },
            x,
            dx,
            false,
        ),
{
    lemma_pow2_pos(k);
    let a = pow2(k) as int;
    let u = a * dx;
    assert(u > 0) by (nonlinear_arith)
        requires
            u == a * dx,
            a > 0,
            dx > 0,
    ;
    assert(x * dd == nn * u) by (nonlinear_arith)
        requires
            nn * a * dx == x * dd,
            u == a * dx,
    ;
    assert(0 <= q < 0x100_0000 && (nn >= dd * 0x80_0000 ==> q >= 0x80_0000)) by (nonlinear_arith)
        requires
            nn == q * dd + rem,
            0 <= rem < dd,
            0 < nn < dd * 0x100_0000,
    ;
    let t = x - q * u;
    assert(t * dd == rem * u) by (nonlinear_arith)
        requires
            x * dd == nn * u,
            nn == q * dd + rem,
            t == x - q * u,
    ;
    assert(0 <= t < u && (2 * rem < dd ==> 2 * t < u) && (2 * rem == dd ==> 2 * t == u) && (2 * rem
        > dd ==> 2 * t > u)) by (nonlinear_arith)
        requires
            t * dd == rem * u,
            0 <= rem < dd,
            u > 0,
    ;
    assert(q >= 0 ==> q * u >= 0) by (nonlinear_arith)
        requires
            u > 0,
    ;
    assert((q + 1) * u == q * u + u) by (nonlinear_arith);
    assert(w * pow2(k) * dx == w * u) by (nonlinear_arith)
        requires
            u == pow2(k) * dx,
    ;
    lemma_overflow(x, dx, k, q, t, u);
    if k < 254 && k * 0x80_0000 + w < 0x7F80_0000 {
        let r = Single { bits: (k * 0x80_0000 + w) as u32 };
        if k > 0 {
            assert(0x80_0000 * pow2(k) * dx <= x) by (nonlinear_arith)
                requires
                    u == pow2(k) * dx,
                    u > 0,
                    q >= 0x80_0000,
                    x >= q * u,
            ;
        }
        lemma_round_at(r, x, dx, k, w);
        lemma_sign(r);
    }
}

/// Where the values lie that round to infinity.
proof fn lemma_overflow(x: int, dx: int, k: nat, q: int, t: int, u: int)
    requires
        dx > 0,
        x == q * u + t,
        u == pow2(k) * dx,
        u > 0,
        0 <= t < u,
        0 <= q < 0x100_0000,
        k > 0 ==> q >= 0x80_0000,
    ensures
        k >= 254 ==> x >= overflow_limit() * dx,
        k == 253 ==> (x >= overflow_limit() * dx <==> q == 0xFF_FFFF && 2 * t >= u),
        k < 253 ==> x < overflow_limit() * dx,
        x >= 0,
{
    let p = pow2(252) as int;
    let v = p * dx;
    lemma_pow2_pos(252);
    assert(v > 0) by (nonlinear_arith)
        requires
            v == p * dx,
            p > 0,
            dx > 0,
    ;
    assert(overflow_limit() * dx == 0x1FF_FFFF * v) by (nonlinear_arith)
        requires
            overflow_limit() == 0x1FF_FFFF * p,
            v == p * dx,
    ;
    lemma_pow2_unfold(253);
    lemma_pow2_unfold(254);
    assert(x >= 0) by (nonlinear_arith)
        requires
            x == q * u + t,
            q >= 0,
            u > 0,
            t >= 0,
    ;
    if k >= 254 {
        if k > 254 {
            lemma_pow2_strictly_increases(254, k);
        }
        assert(x >= 0x1FF_FFFF * v) by (nonlinear_arith)
            requires
                x >= q * u,
                q >= 0x80_0000,
                u == pow2(k) * dx,
                pow2(k) >= 4 * p,
                v == p * dx,
                dx > 0,
                p > 0,
        ;
    } else if k == 253 {
        assert(u == 2 * v) by (nonlinear_arith)
            requires
                u == pow2(253) * dx,
                pow2(253) == 2 * p,
                v == p * dx,
        ;
        if q < 0xFF_FFFF {
            assert(q * u + u <= 0xFF_FFFF * u) by (nonlinear_arith)
                requires
                    q + 1 <= 0xFF_FFFF,
                    u > 0,
            ;
        }
    } else {
        if k < 252 {
            lemma_pow2_strictly_increases(k, 252);
        }
        assert(u <= v) by (nonlinear_arith)
            requires
                u == pow2(k) * dx,
                pow2(k) <= p,
                v == p * dx,
                dx > 0,
        ;
        assert(q * u + u <= 0x100_0000 * v) by (nonlinear_arith)
            requires
                q + 1 <= 0x100_0000,
                0 < u <= v,
        ;
    }
}

/// A number of at least 2^23 is whole.
pub proof fn lemma_whole_large(a: Single, up: nat, nearest: bool)
    requires
        a.step() == 149 + up,
    ensures
        a.whole_size(nearest) == a.significand() * pow2(up),
        up > 8 ==> a.whole_size(nearest) >= 0x1_0000_0000,
{
    let (m, unit, p) = (a.significand(), pow2(149) as int, pow2(up) as int);
    lemma_pow2_adds(up, 149);
    lemma_pow2_pos(up);
    lemma_pow2_pos(149);
    let w = m * p;
    assert(m * (p * unit) == w * unit) by (nonlinear_arith)
        requires
            w == m * p,
    ;
    assert(w * unit >= 0) by (nonlinear_arith)
        requires
            w == m * p,
            m >= 0,
            p > 0,
            unit > 0,
    ;
    assert(2 * (w * unit) + unit == (2 * unit) * w + unit) by (nonlinear_arith);
    assert(w * unit == unit * w) by (nonlinear_arith);
    if nearest {
        lemma_fundamental_div_mod_converse(2 * (w * unit) + unit, 2 * unit, w, unit);
    } else {
        lemma_fundamental_div_mod_converse(w * unit, unit, w, 0);
    }
    if up > 8 {
        lemma_pow2_big();
        lemma_pow2_strictly_increases(8, up);
        lemma_pow2_unfold(9);
        if up > 9 {
            lemma_pow2_strictly_increases(9, up);
        }
        assert(w >= 0x1_0000_0000) by (nonlinear_arith)
            requires
                w == m * p,
                m >= 0x80_0000,
                p >= 0x200,
        ;
    }
}

/// Below that, the whole part is a shifted significand.
pub proof fn lemma_whole_small(a: Single, down: nat, nearest: bool)
    requires
        a.step() + down == 149,
    ensures
        nearest ==> a.whole_size(nearest) == (2 * a.significand() + pow2(down)) / (2 * pow2(
            down,
        )) as int,
        !nearest ==> a.whole_size(nearest) == a.significand() / pow2(down) as int,
        down > 25 ==> a.whole_size(nearest) == 0,
{
    let (m, unit, p, k) = (
        a.significand(),
        pow2(149) as int,
        pow2(down) as int,
        pow2(a.step()) as int,
    );
    lemma_pow2_adds(down, a.step());
    lemma_pow2_pos(down);
    lemma_pow2_pos(a.step());
    assert(0 <= m * k) by (nonlinear_arith)
        requires
            m >= 0,
            k > 0,
    ;
    if nearest {
        lemma_quotient_scaled(2 * m + p, 2 * p, k);
        assert((2 * m + p) * k == 2 * (m * k) + unit && (2 * p) * k == 2 * unit)
            by (nonlinear_arith)
            requires
                unit == p * k,
        ;
    } else {
        lemma_quotient_scaled(m, p, k);
    }
    if down > 25 {
        lemma_pow2_big();
        lemma_pow2_strictly_increases(25, down);
        if nearest {
            lemma_fundamental_div_mod_converse(2 * m + p, 2 * p, 0, 2 * m + p);
        } else {
            lemma_fundamental_div_mod_converse(m, p, 0, m);
        }
    }
}

proof fn lemma_quotient_scaled(n: int, d: int, c: int)
    requires
        n >= 0,
        d > 0,
        c > 0,
    ensures
        (n * c) / (d * c) == n / d,
{
    let q = n / d;
    let r = n % d;
    lemma_fundamental_div_mod(n, d);
    assert(n * c == (d * c) * q + r * c && 0 <= r * c < d * c) by (nonlinear_arith)
        requires
            n == d * q + r,
            0 <= r < d,
            c > 0,
    ;
    lemma_fundamental_div_mod_converse(n * c, d * c, q, r * c);
}

// ---------------------------------------------------------------------------
// Every value has a rounding, and rounding keeps order
// ---------------------------------------------------------------------------

proof fn lemma_pow2_above(k: nat)
    ensures
        pow2(k) > k,
    decreases k,
{
    if k == 0 {
        lemma_pow2_big();
    } else {
        lemma_pow2_above((k - 1) as nat);
        lemma_pow2_unfold(k);
    }
}

/// The step at which `n / d` fills the significand.
pub proof fn lemma_find_step(n: int, d: int, from: nat) -> (k: nat)
    requires
        d > 0,
        n > 0,
        from > 0 ==> n >= 0x80_0000 * pow2(from) * d,
    ensures
        n < 0x100_0000 * pow2(k) * d,
        k > 0 ==> n >= 0x80_0000 * pow2(k) * d,
    decreases n - from,
{
    if n < 0x100_0000 * pow2(from) * d {
        from
    } else {
        lemma_pow2_unfold(from + 1);
        lemma_pow2_above(from);
        let p = pow2(from) as int;
        assert(0x80_0000 * (2 * p) * d == 0x100_0000 * p * d) by (nonlinear_arith);
        assert(0x100_0000 * p * d >= p) by (nonlinear_arith)
            requires
                d > 0,
                p > 0,
        ;
        lemma_find_step(n, d, from + 1)
    }
}

/// `rounded` is a rounding of its arguments.
pub proof fn lemma_rounding_exists(n: int, d: int, negative: bool)
    requires
        d > 0,
        n < 0 ==> negative,
        n > 0 ==> !negative,
    ensures
        rounds_to(rounded(n, d, negative), n, d, negative),
{
    if n == 0 {
        lemma_zero_rounds(d, negative);
    } else {
        let x = abs(n);
        let k = lemma_find_step(x, d, 0);
        let dd = pow2(k) * d;
        lemma_pow2_pos(k);
        assert(dd > 0) by (nonlinear_arith)
            requires
                dd == pow2(k) * d,
                pow2(k) > 0,
                d > 0,
        ;
        let q = x / dd;
        let rem = x % dd;
        lemma_fundamental_div_mod(x, dd);
        assert(dd * q == q * dd) by (nonlinear_arith);
        let w = if 2 * rem > dd || (2 * rem == dd && q % 2 == 1) {
            q + 1
        } else {
            q
        };
        assert(x * pow2(k) * d == x * dd) by (nonlinear_arith)
            requires
                dd == pow2(k) * d,
        ;
        assert(0x100_0000 * pow2(k) * d == dd * 0x100_0000 && 0x80_0000 * pow2(k) * d == dd
            * 0x80_0000) by (nonlinear_arith)
            requires
                dd == pow2(k) * d,
        ;
        lemma_round_parts(x, d, x, dd, k, q, rem, w);
        let r = if k >= 254 || k * 0x80_0000 + w >= 0x7F80_0000 {
            infinity(false)
        } else {
            Single { bits: (k * 0x80_0000 + w) as u32 }
        };
        lemma_signed(r, x, d, negative);
    }
}

/// The sign that `plus_spec`, `times_spec` and `over_spec` give a result fits
/// its value, and a rounding has a place on the number line.
pub proof fn lemma_rounding_places(r: Single, n: int, d: int, negative: bool)
    requires
        d > 0,
        n < 0 ==> negative,
        n > 0 ==> !negative,
        rounds_to(r, n, d, negative),
    ensures
        !r.is_nan(),
        n >= 0 ==> r.rank() >= 0,
        n <= 0 ==> r.rank() <= 0,
{
    let limit = overflow_limit();
    lemma_pow2_pos(252);
    assert(limit * d > 0) by (nonlinear_arith)
        requires
            limit > 0,
            d > 0,
    ;
    if abs(n) < overflow_limit() * d {
        lemma_sign(zero(negative));
        lemma_zero_rounds(d, negative);
        lemma_sign(r);
        if n >= 0 && r.rank() < 0 {
            lemma_rounding_order_finite(zero(negative), 0, r, n, d);
            lemma_rank_order(zero(negative), r);
        }
        if n <= 0 && r.rank() > 0 {
            lemma_rounding_order_finite(r, n, zero(negative), 0, d);
            lemma_rank_order(zero(negative), r);
        }
    }
}

proof fn lemma_rounding_order_finite(a: Single, n: int, b: Single, m: int, d: int)
    requires
        d > 0,
        n <= m,
        is_nearest(a, n, d),
        is_nearest(b, m, d),
    ensures
        a.scaled() <= b.scaled(),
{
    let (v, w) = (a.scaled(), b.scaled());
    if v > w {
        assert(v * d > w * d) by (nonlinear_arith)
            requires
                v > w,
                d > 0,
        ;
        assert(distance(a, n, d) <= distance(b, n, d));
        assert(distance(b, m, d) <= distance(a, m, d));
        assert(n == m);
        lemma_nearest_unique(a, b, n, d);
    }
}

/// A larger value has a rounding at least as large.
pub proof fn lemma_rounding_order(
    a: Single,
    n: int,
    a_negative: bool,
    b: Single,
    m: int,
    b_negative: bool,
    d: int,
)
    requires
        d > 0,
        n <= m,
        n < 0 ==> a_negative,
        n > 0 ==> !a_negative,
        m < 0 ==> b_negative,
        m > 0 ==> !b_negative,
        rounds_to(a, n, d, a_negative),
        rounds_to(b, m, d, b_negative),
    ensures
        a.rank() <= b.rank(),
        !a.is_nan(),
        !b.is_nan(),
{
    lemma_rounding_places(a, n, d, a_negative);
    lemma_rounding_places(b, m, d, b_negative);
    let limit = overflow_limit();
    lemma_pow2_pos(252);
    assert(limit * d > 0) by (nonlinear_arith)
        requires
            limit > 0,
            d > 0,
    ;
    if abs(n) < limit * d && abs(m) < limit * d {
        lemma_rounding_order_finite(a, n, b, m, d);
        lemma_rank_order(a, b);
    }
}

/// The sum of two finite numbers is their value's rounding.
pub proof fn lemma_plus_rounds(a: Single, b: Single) -> (negative: bool)
    requires
        a.is_finite(),
        b.is_finite(),
    ensures
        a.scaled() + b.scaled() < 0 ==> negative,
        a.scaled() + b.scaled() > 0 ==> !negative,
        rounds_to(a.plus_spec(b), a.scaled() + b.scaled(), 1, negative),
{
    reveal(Single::plus_spec);
    let n = a.scaled() + b.scaled();
    let negative = n < 0 || (n == 0 && a.is_negative() && b.is_negative());
    lemma_rounding_exists(n, 1, negative);
    negative
}

/// Adding the same finite number keeps order.
pub proof fn lemma_plus_keeps_order(a: Single, b: Single, c: Single)
    requires
        a.is_finite(),
        b.is_finite(),
        c.is_finite(),
        a.rank() <= b.rank(),
    ensures
        a.plus_spec(c).rank() <= b.plus_spec(c).rank(),
        !a.plus_spec(c).is_nan(),
        !b.plus_spec(c).is_nan(),
{
    lemma_rank_order(a, b);
    let x = lemma_plus_rounds(a, c);
    let y = lemma_plus_rounds(b, c);
    lemma_rounding_order(
        a.plus_spec(c),
        a.scaled() + c.scaled(),
        x,
        b.plus_spec(c),
        b.scaled() + c.scaled(),
        y,
        1,
    );
}

/// The quotient of a finite number by a positive one.
pub proof fn lemma_over_rounds(a: Single, c: Single)
    requires
        a.is_finite(),
        c.is_finite(),
        c.rank() > 0,
    ensures
        c.scaled() > 0,
        rounds_to(a.over_spec(c), a.scaled() * pow2(149), c.scaled(), a.is_negative()),
        a.scaled() < 0 ==> a.is_negative(),
        a.scaled() > 0 ==> !a.is_negative(),
        a.scaled() * pow2(149) < 0 <==> a.scaled() < 0,
        a.scaled() * pow2(149) > 0 <==> a.scaled() > 0,
{
    reveal(Single::over_spec);
    lemma_sign(a);
    lemma_sign(c);
    lemma_pow2_pos(149);
    let (x, unit) = (a.scaled(), pow2(149) as int);
    assert((x * unit < 0 <==> x < 0) && (x * unit > 0 <==> x > 0)) by (nonlinear_arith)
        requires
            unit > 0,
    ;
    assert((-x) * unit == -(x * unit)) by (nonlinear_arith);
    lemma_rounding_exists(x * unit, c.scaled(), a.is_negative());
}

/// Dividing by the same positive number keeps order.
pub proof fn lemma_over_keeps_order(a: Single, b: Single, c: Single)
    requires
        !a.is_nan(),
        !b.is_nan(),
        c.is_finite(),
        c.rank() > 0,
        a.rank() <= b.rank(),
    ensures
        a.over_spec(c).rank() <= b.over_spec(c).rank(),
        !a.over_spec(c).is_nan(),
        !b.over_spec(c).is_nan(),
{
    reveal(Single::over_spec);
    if a.is_finite() {
        lemma_over_rounds(a, c);
        lemma_rounding_places(
            a.over_spec(c),
            a.scaled() * pow2(149),
            c.scaled(),
            a.is_negative(),
        );
    }
    if b.is_finite() {
        lemma_over_rounds(b, c);
        lemma_rounding_places(
            b.over_spec(c),
            b.scaled() * pow2(149),
            c.scaled(),
            b.is_negative(),
        );
    }
    if a.is_finite() && b.is_finite() {
        lemma_rank_order(a, b);
        let (x, y, unit) = (a.scaled(), b.scaled(), pow2(149) as int);
        assert(x * unit <= y * unit) by (nonlinear_arith)
            requires
                x <= y,
                unit >= 0,
        ;
        lemma_rounding_order(
            a.over_spec(c),
            x * unit,
            a.is_negative(),
            b.over_spec(c),
            y * unit,
            b.is_negative(),
            c.scaled(),
        );
    }
}

/// The product of a finite number and a positive one.
pub proof fn lemma_times_rounds(a: Single, c: Single)
    requires
        a.is_finite(),
        c.is_finite(),
        c.rank() > 0,
    ensures
        rounds_to(a.times_spec(c), a.scaled() * c.scaled(), pow2(149) as int, a.is_negative()),
        a.scaled() * c.scaled() < 0 ==> a.is_negative(),
        a.scaled() * c.scaled() > 0 ==> !a.is_negative(),
        c.scaled() > 0,
{
    reveal(Single::times_spec);
    lemma_sign(a);
    lemma_sign(c);
    lemma_pow2_pos(149);
    let (x, y) = (a.scaled(), c.scaled());
    assert((x * y < 0 <==> x < 0) && (x * y > 0 <==> x > 0)) by (nonlinear_arith)
        requires
            y > 0,
    ;
    lemma_rounding_exists(x * y, pow2(149) as int, a.is_negative());
}

/// Multiplying by the same positive number keeps order.
pub proof fn lemma_times_keeps_order(a: Single, b: Single, c: Single)
    requires
        !a.is_nan(),
        !b.is_nan(),
        c.is_finite(),
        c.rank() > 0,
        a.rank() <= b.rank(),
    ensures
        a.times_spec(c).rank() <= b.times_spec(c).rank(),
        !a.times_spec(c).is_nan(),
        !b.times_spec(c).is_nan(),
{
    reveal(Single::times_spec);
    lemma_pow2_pos(149);
    let unit = pow2(149) as int;
    if a.is_finite() {
        lemma_times_rounds(a, c);
        lemma_rounding_places(a.times_spec(c), a.scaled() * c.scaled(), unit, a.is_negative());
    }
    if b.is_finite() {
        lemma_times_rounds(b, c);
        lemma_rounding_places(b.times_spec(c), b.scaled() * c.scaled(), unit, b.is_negative());
    }
    if a.is_finite() && b.is_finite() {
        lemma_rank_order(a, b);
        let (x, y, z) = (a.scaled(), b.scaled(), c.scaled());
        assert(x * z <= y * z) by (nonlinear_arith)
            requires
                x <= y,
                z > 0,
        ;
        lemma_rounding_order(
            a.times_spec(c),
            x * z,
            a.is_negative(),
            b.times_spec(c),
            y * z,
            b.is_negative(),
            unit,
        );
    }
}

/// A number converts to an integer of 32 bits.
pub proof fn lemma_to_int_range(a: Single, nearest: bool)
    ensures
        -0x8000_0000 <= a.to_int(nearest) <= 0x7FFF_FFFF,
{
    reveal(Single::to_int);
    lemma_whole_size_sign(a, nearest);
}

/// Converting to an integer keeps order.
pub proof fn lemma_to_int_keeps_order(a: Single, b: Single, nearest: bool)
    requires
        !a.is_nan(),
        !b.is_nan(),
        a.rank() <= b.rank(),
    ensures
        a.to_int(nearest) <= b.to_int(nearest),
{
    reveal(Single::to_int);
    lemma_sign(a);
    lemma_sign(b);
    lemma_whole_size_sign(a, nearest);
    lemma_whole_size_sign(b, nearest);
    if a.is_finite() && b.is_finite() {
        lemma_rank_order(a, b);
        if a.rank() == 0 {
            lemma_whole_size_order(zero(false), b, nearest);
            lemma_sign(zero(false));
        }
        if a.scaled() >= 0 {
            lemma_whole_size_order(a, b, nearest);
        } else if b.scaled() <= 0 {
            lemma_whole_size_order(b, a, nearest);
        }
    }
}

proof fn lemma_whole_size_sign(a: Single, nearest: bool)
    ensures
        a.whole_size(nearest) >= 0,
        a.scaled() == 0 ==> a.whole_size(nearest) == 0,
{
    lemma_pow2_pos(149);
    let unit = pow2(149) as int;
    let size = abs(a.scaled());
    if nearest {
        lemma_div_pos_is_pos(2 * size + unit, 2 * unit);
        if size == 0 {
            lemma_fundamental_div_mod_converse(unit, 2 * unit, 0, unit);
        }
    } else {
        lemma_div_pos_is_pos(size, unit);
        if size == 0 {
            lemma_fundamental_div_mod_converse(0, unit, 0, 0);
        }
    }
}

proof fn lemma_whole_size_order(a: Single, b: Single, nearest: bool)
    requires
        abs(a.scaled()) <= abs(b.scaled()),
    ensures
        a.whole_size(nearest) <= b.whole_size(nearest),
{
    lemma_pow2_pos(149);
    let unit = pow2(149) as int;
    if nearest {
        lemma_div_is_ordered(
            2 * abs(a.scaled()) + unit,
            2 * abs(b.scaled()) + unit,
            2 * unit,
        );
    } else {
        lemma_div_is_ordered(abs(a.scaled()), abs(b.scaled()), unit);
    }
}

/// The next number up from one of moderate size is close to it.
pub proof fn lemma_next_is_close(a: Single) -> (q: Single)
    requires
        -0x4280_0000 < a.rank() < 0x4280_0000,
    ensures
        q.is_finite(),
        q.rank() == a.rank() + 1,
        q.scaled() <= a.scaled() + pow2(149),
{
    let rank = a.rank() + 1;
    let q = if rank <= 0 {
        Single { bits: (0x8000_0000 - rank) as u32 }
    } else {
        Single { bits: rank as u32 }
    };
    lemma_sign(a);
    // The step between the two is that of the one nearer to zero.
    let near = if rank <= 0 {
        q
    } else {
        Single { bits: a.rank() as u32 }
    };
    let far = if rank <= 0 {
        Single { bits: a.magnitude() as u32 }
    } else {
        q
    };
    let plain = Single { bits: near.magnitude() as u32 };
    let k = plain.step();
    let s = plain.significand();
    assert(far.magnitude() == plain.magnitude() + 1);
    assert(far.bits == k * 0x80_0000 + (s + 1));
    lemma_scaled_of_parts(far, k, s + 1);
    let p = pow2(k) as int;
    assert((s + 1) * p == s * p + p) by (nonlinear_arith);
    assert(k < 149);
    lemma_pow2_strictly_increases(k, 149);
    if a.rank() >= 0 {
        lemma_same_rank(a, plain);
    } else {
        lemma_negated(a);
        lemma_same_rank(a.negated(), far);
        lemma_negated(q);
        lemma_same_rank(q.negated(), plain);
    }
    q
}

/// Adding one to a number of moderate size makes it larger.
pub proof fn lemma_plus_one_is_above(a: Single)
    requires
        -0x4280_0000 < a.rank() < 0x4280_0000,
        a.is_finite(),
    ensures
        a.plus_spec(of_bits(ONE)).rank() > a.rank(),
{
    let one = of_bits(ONE);
    lemma_one_scaled();
    let q = lemma_next_is_close(a);
    let negative = lemma_plus_rounds(a, one);
    lemma_exact(q, 1, q.is_negative());
    lemma_sign(q);
    lemma_rounding_order(
        q,
        q.scaled(),
        q.is_negative(),
        a.plus_spec(one),
        a.scaled() + one.scaled(),
        negative,
        1,
    );
}

pub proof fn lemma_one_scaled()
    ensures
        of_bits(ONE).scaled() == pow2(149),
        of_bits(ONE).rank() == 0x3F80_0000,
        of_bits(ONE).step() == 126,
        of_bits(ONE).significand() == 0x80_0000,
{
    lemma_pow2_big();
    lemma_pow2_adds(23, 126);
}

/// Whole numbers of up to 24 bits are exact.
pub proof fn lemma_single_of_exact(n: int)
    requires
        0 <= n < 0x100_0000,
    ensures
        single_of(n).is_finite(),
        single_of(n).rank() >= 0,
        single_of(n).scaled() == n * pow2(149),
        single_of(n).to_int(true) == n,
        n > 0 ==> single_of(n).rank() > 0,
        n == 0 ==> single_of(n) == zero(false),
{
    reveal(single_of);
    reveal(Single::to_int);
    let unit = pow2(149) as int;
    lemma_pow2_pos(149);
    let r = single_of(n);
    if n == 0 {
        assert(0 * unit == 0) by (nonlinear_arith);
        lemma_zero_rounds(1, false);
        lemma_sign(r);
    } else {
        let x = n * unit;
        assert(x > 0) by (nonlinear_arith)
            requires
                x == n * unit,
                n > 0,
                unit > 0,
        ;
        let k = lemma_find_step(x, 1, 0);
        lemma_pow2_pos(k);
        if k > 149 {
            lemma_pow2_strictly_increases(149, k);
            lemma_pow2_unfold(150);
            if k > 150 {
                lemma_pow2_strictly_increases(150, k);
            }
            let p = pow2(k) as int;
            assert(x < 0x80_0000 * p) by (nonlinear_arith)
                requires
                    x == n * unit,
                    n < 0x100_0000,
                    p >= 2 * unit,
                    unit > 0,
            ;
        }
        lemma_pow2_adds((149 - k) as nat, k);
        let (a, p) = (pow2((149 - k) as nat) as int, pow2(k) as int);
        let q = n * a;
        assert(x == q * p) by (nonlinear_arith)
            requires
                x == n * (a * p),
                q == n * a,
        ;
        assert(0 <= q < 0x100_0000 && (k > 0 ==> q >= 0x80_0000)) by (nonlinear_arith)
            requires
                x == q * p,
                x < 0x100_0000 * p,
                k > 0 ==> x >= 0x80_0000 * p,
                x > 0,
                p > 0,
        ;
        let f = Single { bits: (k * 0x80_0000 + q) as u32 };
        lemma_scaled_of_parts(f, k, q);
        lemma_exact(f, 1, false);
        lemma_sign(f);
    }
    assert(2 * (n * unit) + unit == (2 * unit) * n + unit) by (nonlinear_arith);
    assert(n * unit >= 0) by (nonlinear_arith)
        requires
            n >= 0,
            unit > 0,
    ;
    lemma_fundamental_div_mod_converse(2 * (n * unit) + unit, 2 * unit, n, unit);
}

/// An integer of at most 24 bits and either sign is exact.
pub proof fn lemma_signed_exact(n: int)
    requires
        -0x100_0000 < n < 0x100_0000,
    ensures
        single_of(n).is_finite(),
        single_of(n).scaled() == n * pow2(149),
        single_of(n).to_int(true) == n,
        single_of(n).is_negative() == (n < 0),
        n < 0 ==> single_of(n).rank() < 0,
        n >= 0 ==> single_of(n).rank() >= 0,
{
    lemma_single_of_exact(abs(n));
    if n < 0 {
        reveal(single_of);
        reveal(Single::to_int);
        let (p, unit) = (single_of(-n), pow2(149) as int);
        let r = p.negated();
        lemma_negated(p);
        assert(-((-n) * unit) == n * unit) by (nonlinear_arith);
        lemma_exact(r, 1, true);
    }
}

/// Adding zero changes nothing.
pub proof fn lemma_plus_zero(x: Single, z: Single)
    requires
        x.is_finite(),
        z.rank() == 0,
    ensures
        x.plus_spec(z).rank() == x.rank(),
        z.plus_spec(x).rank() == x.rank(),
{
    reveal(Single::plus_spec);
    lemma_sign(x);
    lemma_sign(z);
    lemma_exact(x, 1, x.is_negative());
    lemma_zero_rounds(1, false);
    lemma_zero_rounds(1, true);
}

/// A part of a number, from none of it to all of it, lies between zero and
/// the number.
pub proof fn lemma_share(x: Single, k: Single)
    requires
        x.is_finite(),
        k.is_finite(),
        0 <= k.rank() <= 0x3F80_0000,
    ensures
        x.times_spec(k).is_finite(),
        x.rank() <= 0 ==> x.rank() <= x.times_spec(k).rank() <= 0,
        x.rank() >= 0 ==> 0 <= x.times_spec(k).rank() <= x.rank(),
        k.rank() == 0 ==> x.times_spec(k).rank() == 0,
        k == of_bits(ONE) ==> x.times_spec(k).rank() == x.rank(),
{
    let unit = pow2(149) as int;
    lemma_pow2_pos(149);
    lemma_sign(x);
    lemma_sign(k);
    let (m, n) = (x.scaled(), k.scaled());
    let r = x.times_spec(k);
    if k.rank() == 0 {
        reveal(Single::times_spec);
        assert(m * n == 0) by (nonlinear_arith)
            requires
                n == 0,
        ;
        lemma_zero_rounds(unit, false);
        lemma_zero_rounds(unit, true);
    } else {
        lemma_one_scaled();
        lemma_rank_order(k, of_bits(ONE));
        lemma_times_rounds(x, k);
        lemma_exact(x, unit, x.is_negative());
        assert(m <= 0 ==> m * unit <= m * n <= 0) by (nonlinear_arith)
            requires
                0 < n <= unit,
        ;
        assert(m >= 0 ==> 0 <= m * n <= m * unit) by (nonlinear_arith)
            requires
                0 < n <= unit,
        ;
        assert(m == 0 ==> m * unit == 0) by (nonlinear_arith);
        let negative = x.is_negative();
        lemma_rounding_places(r, m * n, unit, negative);
        if m <= 0 {
            lemma_rounding_order(x, m * unit, negative, r, m * n, negative, unit);
        }
        if m >= 0 {
            lemma_rounding_order(r, m * n, negative, x, m * unit, negative, unit);
        }
        if k == of_bits(ONE) {
            lemma_rounding_order(x, m * unit, negative, r, m * n, negative, unit);
            lemma_rounding_order(r, m * n, negative, x, m * unit, negative, unit);
        }
    }
}

} // verus!
