//! Writing a single-precision number as the shortest decimal text that reads
//! back as the same number.

use crate::bignat::BigNat;
use crate::decimal::{
    decimal, decimal_parts, decimal_value, denominator, lemma_pow10_adds, lemma_pow10_grows,
    lemma_pow10_positive, numerator, pow10, power_of_ten, read_single, round_quotient,
};
use crate::rounding::{
    lemma_below_limit, lemma_exact, lemma_pow2_big, lemma_round_at, lemma_rounded_is,
    lemma_rounding_exists, lemma_rounding_order, lemma_rounds_to_scaled, lemma_sign, lemma_signed,
    lemma_zero_rounds,
};
use crate::single::{abs, overflow_limit, rounded, rounds_to, zero, Single};
use crate::text::{
    ascii_lower, digits_value, is_digit, is_digits, is_trimmed, lemma_digits_are_plain,
    lemma_find_unique, lemma_nat_text, lemma_split_once, nat_text, padded_text,
    padded_unsigned_text, same_ignoring_case, unsigned_text,
};
use vstd::arithmetic::div_mod::{
    lemma_div_pos_is_pos, lemma_fundamental_div_mod, lemma_fundamental_div_mod_converse,
};
use vstd::arithmetic::power2::{
    lemma_pow2_adds, lemma_pow2_pos, lemma_pow2_strictly_increases, lemma_pow2_unfold, pow2,
};
use vstd::prelude::*;

verus! {

// ---------------------------------------------------------------------------
// The shortest decimal
// ---------------------------------------------------------------------------

/// `m` times ten to the power of `e` reads as `x`.
pub open spec fn reads_as(m: nat, e: int, x: Single) -> bool {
    decimal(m, e, false) == x
}

/// The distance of `m` times ten to the power of `e` from `x`, times
/// `denominator(e)`.
pub open spec fn gap(m: nat, e: int, x: Single) -> int {
    abs(x.scaled() * denominator(e) - numerator(m, e))
}

/// Fewer than `p` digits never read as `x`.
pub open spec fn needs_digits(p: nat, x: Single) -> bool {
    forall|n: nat, f: int| n < pow10((p - 1) as nat) ==> !#[trigger] reads_as(n, f, x)
}

/// Of the decimals of `p` digits that read as `x`, none is closer to it; one
/// as close is not larger.
pub open spec fn is_closest(m: nat, e: int, p: nat, x: Single) -> bool {
    forall|n: nat, f: int| #[trigger]
        reads_as(n, f, x) && n < pow10(p) ==> {
            &&& gap(m, e, x) * denominator(f) <= gap(n, f, x) * denominator(e)
            &&& gap(m, e, x) * denominator(f) == gap(n, f, x) * denominator(e) ==> numerator(n, f)
                * denominator(e) <= numerator(m, e) * denominator(f)
        }
}

/// The shortest decimal that reads as the positive number `x`, of `p` digits.
pub open spec fn is_shortest(m: nat, e: int, p: nat, x: Single) -> bool {
    &&& p > 0
    &&& 0 < m < pow10(p)
    &&& m % 10 != 0
    &&& reads_as(m, e, x)
    &&& needs_digits(p, x)
    &&& is_closest(m, e, p, x)
}

/// `m` times ten to the power of `e`, in full.
pub open spec fn fixed_text(m: nat, e: int) -> Seq<char> {
    if e >= 0 {
        nat_text(m * pow10(e as nat))
    } else {
        nat_text(m / pow10((-e) as nat)) + seq!['.'] + padded_text(
            m % pow10((-e) as nat),
            (-e) as nat,
        )
    }
}

/// The text of a positive finite number.
pub open spec fn positive_text(x: Single) -> Seq<char> {
    let (m, e, p) = choose|m: nat, e: int, p: nat| is_shortest(m, e, p, x);
    fixed_text(m, e)
}

/// The text of a number.
#[verifier::opaque]
pub open spec fn single_text(x: Single) -> Seq<char> {
    let size = if x.is_negative() {
        x.negated()
    } else {
        x
    };
    let body = if x.is_infinite() {
        "inf"@
    } else if x.is_zero() {
        "0"@
    } else {
        positive_text(size)
    };
    if x.is_nan() {
        "NaN"@
    } else if x.is_negative() {
        "-"@ + body
    } else {
        body
    }
}

// ---------------------------------------------------------------------------
// Decimals on one scale
// ---------------------------------------------------------------------------

/// `m` times ten to the power of `e + k`, in units of 2^-149.
spec fn at(m: nat, e: int, k: nat) -> int {
    (m * pow10((e + k) as nat) * pow2(149)) as int
}

proof fn lemma_denominator(e: int)
    ensures
        denominator(e) > 0,
{
    lemma_pow10_positive(
        if e >= 0 {
            0
        } else {
            (-e) as nat
        },
    );
}

proof fn lemma_at(m: nat, e: int, k: nat)
    requires
        e + k >= 0,
    ensures
        numerator(m, e) * pow10(k) == at(m, e, k) * denominator(e),
{
    let u = pow2(149);
    if e >= 0 {
        lemma_pow10_adds(e as nat, k);
        let (a, b) = (pow10(e as nat), pow10(k));
        assert(m * u * a * b == m * (a * b) * u * 1) by (nonlinear_arith);
    } else {
        lemma_pow10_adds((e + k) as nat, (-e) as nat);
        let (a, b) = (pow10((e + k) as nat), pow10((-e) as nat));
        assert(m * u * 1 * (a * b) == m * a * u * b) by (nonlinear_arith);
    }
}

/// Cross-multiplied comparison is comparison on one scale.
proof fn lemma_order_at(m1: nat, e1: int, m2: nat, e2: int, k: nat)
    requires
        e1 + k >= 0,
        e2 + k >= 0,
    ensures
        numerator(m1, e1) * denominator(e2) <= numerator(m2, e2) * denominator(e1) <==> at(
            m1,
            e1,
            k,
        ) <= at(m2, e2, k),
{
    lemma_at(m1, e1, k);
    lemma_at(m2, e2, k);
    lemma_pow10_positive(k);
    lemma_denominator(e1);
    lemma_denominator(e2);
    let (n1, n2, d1, d2, t) = (
        numerator(m1, e1),
        numerator(m2, e2),
        denominator(e1),
        denominator(e2),
        pow10(k) as int,
    );
    let (a1, a2) = (at(m1, e1, k), at(m2, e2, k));
    let c = d1 * d2;
    assert(c > 0) by (nonlinear_arith)
        requires
            c == d1 * d2,
            d1 > 0,
            d2 > 0,
    ;
    assert((n1 * d2) * t == a1 * c) by (nonlinear_arith)
        requires
            n1 * t == a1 * d1,
            c == d1 * d2,
    ;
    assert((n2 * d1) * t == a2 * c) by (nonlinear_arith)
        requires
            n2 * t == a2 * d2,
            c == d1 * d2,
    ;
    let (l, r) = (n1 * d2, n2 * d1);
    assert(l <= r <==> a1 <= a2) by (nonlinear_arith)
        requires
            l * t == a1 * c,
            r * t == a2 * c,
            t > 0,
            c > 0,
    ;
}

/// The same for a number and a decimal.
proof fn lemma_side_at(m: nat, e: int, x: Single, k: nat)
    requires
        e + k >= 0,
    ensures
        numerator(m, e) <= x.scaled() * denominator(e) <==> at(m, e, k) <= x.scaled() * pow10(k),
        gap(m, e, x) * pow10(k) == abs(x.scaled() * pow10(k) - at(m, e, k)) * denominator(e),
{
    lemma_at(m, e, k);
    lemma_pow10_positive(k);
    lemma_denominator(e);
    let (v, n, d, t, a) = (
        x.scaled(),
        numerator(m, e),
        denominator(e),
        pow10(k) as int,
        at(m, e, k),
    );
    let (l, r) = (v * d - n, v * t - a);
    assert(l * t == r * d) by (nonlinear_arith)
        requires
            l == v * d - n,
            r == v * t - a,
            n * t == a * d,
    ;
    assert((l >= 0 <==> r >= 0) && abs(l) * t == abs(r) * d) by (nonlinear_arith)
        requires
            l * t == r * d,
            t > 0,
            d > 0,
    ;
}

/// Scaling a quotient does not change its rounding.
proof fn lemma_rounded_scaled(n: int, d: int, c: int)
    requires
        n >= 0,
        d > 0,
        c > 0,
    ensures
        rounded(n * c, d * c, false) == rounded(n, d, false),
        rounds_to(rounded(n, d, false), n * c, d * c, false),
{
    assert(d * c > 0 && n * c >= 0) by (nonlinear_arith)
        requires
            d > 0,
            c > 0,
            n >= 0,
    ;
    lemma_rounding_exists(n * c, d * c, false);
    let r = rounded(n * c, d * c, false);
    lemma_rounds_to_scaled(r, n, d, c, false);
    lemma_rounded_is(r, n, d, false);
}

/// What lies between a number and a decimal that reads as it reads as it too.
proof fn lemma_between(m: nat, e: int, n: nat, f: int, x: Single, k: nat)
    requires
        x.is_finite(),
        x.rank() > 0,
        e + k >= 0,
        f + k >= 0,
        reads_as(n, f, x),
        ({
            let v = x.scaled() * pow10(k);
            ||| at(n, f, k) <= at(m, e, k) <= v
            ||| v <= at(m, e, k) <= at(n, f, k)
        }),
    ensures
        reads_as(m, e, x),
{
    let (n1, d1, n2, d2) = (numerator(m, e), denominator(e), numerator(n, f), denominator(f));
    let v = x.scaled();
    let d = d1 * d2;
    lemma_denominator(e);
    lemma_denominator(f);
    lemma_order_at(m, e, n, f, k);
    lemma_order_at(n, f, m, e, k);
    lemma_side_at(m, e, x, k);
    lemma_numerator(m, e);
    lemma_numerator(n, f);
    lemma_rounded_scaled(n1, d1, d2);
    lemma_rounded_scaled(n2, d2, d1);
    lemma_sign(x);
    assert(d > 0) by (nonlinear_arith)
        requires
            d == d1 * d2,
            d1 > 0,
            d2 > 0,
    ;
    assert(d2 * d1 == d) by (nonlinear_arith)
        requires
            d == d1 * d2,
    ;
    lemma_exact(x, d, false);
    assert(v * d == (v * d1) * d2) by (nonlinear_arith)
        requires
            d == d1 * d2,
    ;
    assert(v * d > 0) by (nonlinear_arith)
        requires
            v > 0,
            d > 0,
    ;
    let (a, b, c) = (n1 * d2, n2 * d1, v * d);
    assert(a >= 0 && b >= 0) by (nonlinear_arith)
        requires
            a == n1 * d2,
            b == n2 * d1,
            n1 >= 0,
            n2 >= 0,
            d1 > 0,
            d2 > 0,
    ;
    assert((n1 <= v * d1 ==> a <= c) && (n1 >= v * d1 ==> a >= c)) by (nonlinear_arith)
        requires
            a == n1 * d2,
            c == (v * d1) * d2,
            d2 > 0,
    ;
    let r = decimal(m, e, false);
    if at(n, f, k) <= at(m, e, k) {
        if at(m, e, k) <= v * pow10(k) {
            lemma_rounding_order(x, b, false, r, a, false, d);
            lemma_rounding_order(r, a, false, x, c, false, d);
        } else {
            assert(at(n, f, k) == at(m, e, k));
            lemma_rounding_order(x, b, false, r, a, false, d);
            lemma_rounding_order(r, a, false, x, b, false, d);
        }
    } else {
        lemma_side_below(m, e, x, k);
        lemma_rounding_order(x, c, false, r, a, false, d);
        lemma_rounding_order(r, a, false, x, b, false, d);
    }
    assert(r.rank() == x.rank());
    assert(r == x);
}

proof fn lemma_side_below(m: nat, e: int, x: Single, k: nat)
    requires
        e + k >= 0,
        x.scaled() * pow10(k) <= at(m, e, k),
    ensures
        x.scaled() * denominator(e) <= numerator(m, e),
{
    lemma_at(m, e, k);
    lemma_pow10_positive(k);
    lemma_denominator(e);
    let (v, n, d, t, a) = (
        x.scaled(),
        numerator(m, e),
        denominator(e),
        pow10(k) as int,
        at(m, e, k),
    );
    assert(v * d <= n) by (nonlinear_arith)
        requires
            n * t == a * d,
            v * t <= a,
            t > 0,
            d > 0,
    ;
}

proof fn lemma_numerator(m: nat, e: int)
    ensures
        numerator(m, e) >= 0,
{
}

/// A decimal of at most `p` digits is not strictly between two neighbours on
/// the grid of `p` digits.
proof fn lemma_grid(x: Single, top: int, p: nat, low: nat, n: nat, f: int, k: nat)
    requires
        p > 0,
        n < pow10(p),
        top - p + 1 + k >= 0,
        f + k >= 0,
        top + k >= 0,
        at(1, top, k) <= x.scaled() * pow10(k),
        at(low, top - p + 1, k) <= x.scaled() * pow10(k) < at(low + 1, top - p + 1, k),
    ensures
        at(n, f, k) <= x.scaled() * pow10(k) ==> at(n, f, k) <= at(low, top - p + 1, k),
        at(n, f, k) > x.scaled() * pow10(k) ==> at(n, f, k) >= at(low + 1, top - p + 1, k),
{
    let e = top - p + 1;
    let v = x.scaled() * pow10(k);
    let u = pow2(149) as int;
    let g = pow10((e + k) as nat) * u;
    lemma_pow2_pos(149);
    lemma_pow10_positive((e + k) as nat);
    assert(g > 0) by (nonlinear_arith)
        requires
            g == pow10((e + k) as nat) * u,
            pow10((e + k) as nat) > 0,
            u > 0,
    ;
    assert(at(low, e, k) == low * g && at(low + 1, e, k) == (low + 1) * g) by (nonlinear_arith)
        requires
            g == pow10((e + k) as nat) * u,
            at(low, e, k) == low * pow10((e + k) as nat) * u,
            at(low + 1, e, k) == (low + 1) * pow10((e + k) as nat) * u,
    ;
    if f >= e {
        let c = pow10((f - e) as nat);
        lemma_pow10_adds((f - e) as nat, (e + k) as nat);
        let w = n * c;
        assert(at(n, f, k) == w * g) by (nonlinear_arith)
            requires
                at(n, f, k) == n * (c * pow10((e + k) as nat)) * u,
                w == n * c,
                g == pow10((e + k) as nat) * u,
        ;
        assert((w * g < (low + 1) * g ==> w * g <= low * g) && (w * g > low * g ==> w * g >= (low
            + 1) * g)) by (nonlinear_arith)
            requires
                g > 0,
                w >= 0,
                low >= 0,
        ;
    } else {
        // n * 10^f < 10^(p + f) <= 10^top
        lemma_pow10_adds(p, (f + k) as nat);
        lemma_pow10_grows((p + f + k) as nat, (top + k) as nat);
        lemma_pow10_adds((p - 1) as nat, (e + k) as nat);
        let (t, q) = (pow10((f + k) as nat) as int, pow10((top + k) as nat) as int);
        lemma_pow10_positive((f + k) as nat);
        assert(n * t <= q) by (nonlinear_arith)
            requires
                n < pow10(p),
                pow10(p) * t <= q,
                t > 0,
        ;
        assert(at(n, f, k) <= q * u) by (nonlinear_arith)
            requires
                at(n, f, k) == n * t * u,
                n * t <= q,
                u > 0,
        ;
        assert(at(1, top, k) == q * u) by (nonlinear_arith)
            requires
                at(1, top, k) == 1 * q * u,
        ;
        let w = pow10((p - 1) as nat);
        assert(q * u == w * g) by (nonlinear_arith)
            requires
                q == w * pow10((e + k) as nat),
                g == pow10((e + k) as nat) * u,
        ;
        assert(w * g < (low + 1) * g ==> w * g <= low * g) by (nonlinear_arith)
            requires
                g > 0,
                w >= 0,
                low >= 0,
        ;
    }
}

/// Nine digits are always enough: the decimal cut off after nine digits reads
/// as the number.
proof fn lemma_nine_digits(x: Single, low: nat, e: int)
    requires
        x.is_finite(),
        x.rank() > 0,
        low >= 100_000_000,
        numerator(low, e) <= x.scaled() * denominator(e) < numerator(low + 1, e),
    ensures
        reads_as(low, e, x),
{
    let (s, k, v) = (x.significand(), x.step(), x.scaled());
    let (n, d) = (numerator(low, e), denominator(e));
    let power = if e >= 0 {
        e as nat
    } else {
        0
    };
    let unit = pow2(149) * pow10(power);
    lemma_denominator(e);
    lemma_sign(x);
    lemma_pow2_pos(k);
    lemma_pow2_pos(149);
    lemma_pow10_positive(power);
    let c = pow2(k) * d;
    let t = v * d - n;
    assert(n == low * unit && numerator(low + 1, e) == low * unit + unit) by (nonlinear_arith)
        requires
            unit == pow2(149) * pow10(power),
            n == low * pow2(149) * pow10(power),
            numerator(low + 1, e) == (low + 1) * pow2(149) * pow10(power),
    ;
    assert(c > 0) by (nonlinear_arith)
        requires
            c == pow2(k) * d,
            pow2(k) > 0,
            d > 0,
    ;
    assert(v * d == s * c) by (nonlinear_arith)
        requires
            v == s * pow2(k),
            c == pow2(k) * d,
    ;
    assert(low * unit >= 100_000_000 * unit) by (nonlinear_arith)
        requires
            low >= 100_000_000,
            unit >= 0,
    ;
    assert(0 <= t && 100_000_000 * t <= s * c);
    assert(s * pow2(k) * d == s * c) by (nonlinear_arith)
        requires
            c == pow2(k) * d,
    ;
    assert(s * c <= 0x100_0000 * c) by (nonlinear_arith)
        requires
            s <= 0x100_0000,
            c > 0,
    ;
    assert(x.bits == k * 0x80_0000 + s);
    if k > 0 && s == 0x80_0000 {
        lemma_pow2_unfold(k);
        let h = pow2((k - 1) as nat);
        let half = h * d;
        assert(c == 2 * half) by (nonlinear_arith)
            requires
                c == (2 * h) * d,
                half == h * d,
        ;
        assert(0x100_0000 * h * d == 0x100_0000 * half && 0x80_0000 * h * d == 0x80_0000 * half)
            by (nonlinear_arith)
            requires
                half == h * d,
        ;
        lemma_round_at(x, n, d, (k - 1) as nat, 0x100_0000);
    } else {
        if k > 0 {
            assert(s * c >= 0x80_0000 * c + c) by (nonlinear_arith)
                requires
                    s >= 0x80_0001,
                    c > 0,
            ;
            assert(0x80_0000 * pow2(k) * d == 0x80_0000 * c) by (nonlinear_arith)
                requires
                    c == pow2(k) * d,
            ;
        }
        lemma_round_at(x, n, d, k, s);
    }
    lemma_below_limit(x);
    let limit = overflow_limit();
    assert(n < limit * d) by (nonlinear_arith)
        requires
            n <= v * d,
            v < limit,
            d > 0,
    ;
    lemma_rounded_is(x, n, d, false);
}

/// A trailing zero can move into the power of ten.
proof fn lemma_shift(m: nat, e: int, p: nat, x: Single)
    ensures
        decimal(10 * m, e, false) == decimal(m, e + 1, false),
        is_closest(10 * m, e, p, x) ==> is_closest(m, e + 1, p, x),
{
    let u = pow2(149);
    lemma_numerator(m, e + 1);
    lemma_denominator(e + 1);
    if e >= 0 {
        let a = pow10(e as nat);
        assert((10 * m) * u * a == m * u * (10 * a)) by (nonlinear_arith);
        assert(pow10((e + 1) as nat) == 10 * a);
        assert(numerator(10 * m, e) == numerator(m, e + 1));
        assert(denominator(e) == denominator(e + 1));
    } else {
        let (n, d) = (numerator(m, e + 1), denominator(e + 1));
        assert(pow10((-e) as nat) == 10 * pow10((-e - 1) as nat));
        assert(denominator(e) == 10 * d);
        assert((10 * m) * u * 1 == 10 * (m * u * 1)) by (nonlinear_arith);
        assert(numerator(10 * m, e) == 10 * n);
        lemma_rounded_scaled(n, d, 10);
        let v = x.scaled();
        assert(v * (10 * d) == 10 * (v * d)) by (nonlinear_arith);
        assert(gap(10 * m, e, x) == 10 * gap(m, e + 1, x));
        if is_closest(10 * m, e, p, x) {
            assert forall|j: nat, f: int| #[trigger]
                reads_as(j, f, x) && j < pow10(p) implies {
                &&& gap(m, e + 1, x) * denominator(f) <= gap(j, f, x) * denominator(e + 1)
                &&& gap(m, e + 1, x) * denominator(f) == gap(j, f, x) * denominator(e + 1)
                    ==> numerator(j, f) * denominator(e + 1) <= numerator(m, e + 1) * denominator(f)
            } by {
                let (g, h) = (gap(m, e + 1, x), gap(j, f, x));
                let (q, w) = (denominator(f), numerator(j, f));
                assert((10 * g) * q == 10 * (g * q)) by (nonlinear_arith);
                assert(h * (10 * d) == 10 * (h * d)) by (nonlinear_arith);
                assert(w * (10 * d) == 10 * (w * d)) by (nonlinear_arith);
                assert((10 * n) * q == 10 * (n * q)) by (nonlinear_arith);
            }
        }
    }
}

/// There is only one shortest decimal.
proof fn lemma_shortest_unique(
    m: nat,
    e: int,
    p: nat,
    n: nat,
    f: int,
    q: nat,
    x: Single,
)
    requires
        is_shortest(m, e, p, x),
        is_shortest(n, f, q, x),
    ensures
        m == n,
        e == f,
{
    if p < q {
        lemma_pow10_grows(p, (q - 1) as nat);
    } else if q < p {
        lemma_pow10_grows(q, (p - 1) as nat);
    }
    assert(p == q);
    assert(numerator(m, e) * denominator(f) == numerator(n, f) * denominator(e));
    let k: nat = (if e < f {
        abs(e)
    } else {
        abs(f)
    } + abs(e) + abs(f)) as nat;
    lemma_order_at(m, e, n, f, k);
    lemma_order_at(n, f, m, e, k);
    if e < f {
        lemma_same_value(m, e, n, f, k);
    } else if f < e {
        lemma_same_value(n, f, m, e, k);
    } else {
        let (a, u) = (pow10((e + k) as nat), pow2(149));
        lemma_pow2_pos(149);
        lemma_pow10_positive((e + k) as nat);
        assert(m * a * u == n * a * u ==> m == n) by (nonlinear_arith)
            requires
                a > 0,
                u > 0,
        ;
    }
}

proof fn lemma_same_value(m: nat, e: int, n: nat, f: int, k: nat)
    requires
        e < f,
        e + k >= 0,
        at(m, e, k) == at(n, f, k),
    ensures
        m % 10 == 0,
{
    let (a, c, u) = (pow10((e + k) as nat), pow10((f - e - 1) as nat), pow2(149));
    lemma_pow10_adds((f - e) as nat, (e + k) as nat);
    lemma_pow2_pos(149);
    lemma_pow10_positive((e + k) as nat);
    assert(pow10((f - e) as nat) == 10 * c);
    let w = n * c;
    assert(m == 10 * w) by (nonlinear_arith)
        requires
            m * a * u == n * ((10 * c) * a) * u,
            w == n * c,
            a > 0,
            u > 0,
    ;
}

// ---------------------------------------------------------------------------
// Finding it
// ---------------------------------------------------------------------------

/// `n / d` over ten to the power of `e`, as a quotient.
fn over_power(n: &BigNat, d: &BigNat, e: i32) -> (r: (BigNat, BigNat))
    requires
        -1000 <= e <= 1000,
    ensures
        r.0.value() == n.value() * denominator(e as int),
        r.1.value() == d.value() * if e >= 0 {
            pow10(e as nat)
        } else {
            1
        },
{
    let mut a = n.copy();
    let mut b = d.copy();
    proof {
        assert(n.value() * 1 == n.value() && d.value() * 1 == d.value()) by (nonlinear_arith);
    }
    let mut i: i32 = 0;
    if e >= 0 {
        while i < e
            invariant
                0 <= i <= e,
                b.value() == d.value() * pow10(i as nat),
            decreases e - i,
        {
            proof {
                let (v, p) = (d.value(), pow10(i as nat));
                assert((v * p) * 10 == v * (10 * p)) by (nonlinear_arith);
            }
            b.scale(10, 0);
            i += 1;
        }
    } else {
        while i < -e
            invariant
                -1000 <= e <= 0,
                0 <= i <= -e,
                a.value() == n.value() * pow10(i as nat),
            decreases -e - i,
        {
            proof {
                let (v, p) = (n.value(), pow10(i as nat));
                assert((v * p) * 10 == v * (10 * p)) by (nonlinear_arith);
            }
            a.scale(10, 0);
            i += 1;
        }
    }
    (a, b)
}

/// Compares `n / d`, which is `x`, with the decimal `m` times ten to the
/// power of `e`, from the quotient that `over_power` gives.
proof fn lemma_over_power(x: Single, n: int, d: int, a: int, b: int, m: nat, e: int)
    requires
        d > 0,
        x.scaled() * d == n * pow2(149),
        a == n * denominator(e),
        b == d * if e >= 0 {
            pow10(e as nat) as int
        } else {
            1
        },
    ensures
        m * b <= a <==> numerator(m, e) <= x.scaled() * denominator(e),
        (2 * (a - m * b)) * pow2(149) == 2 * (x.scaled() * denominator(e) - numerator(m, e)) * d,
        b * pow2(149) == d * (numerator(m + 1, e) - numerator(m, e)),
{
    let (v, q, u) = (x.scaled(), denominator(e), pow2(149) as int);
    let p = if e >= 0 {
        pow10(e as nat) as int
    } else {
        1
    };
    lemma_pow2_pos(149);
    let w = numerator(m, e);
    assert(w == m * u * p);
    assert((m * b) * u == w * d) by (nonlinear_arith)
        requires
            w == m * u * p,
            b == d * p,
    ;
    assert(a * u == (v * q) * d) by (nonlinear_arith)
        requires
            a == n * q,
            v * d == n * u,
    ;
    let (l, r) = (m * b, v * q);
    assert(l <= a <==> w <= r) by (nonlinear_arith)
        requires
            l * u == w * d,
            a * u == r * d,
            u > 0,
            d > 0,
    ;
    assert((2 * (a - l)) * u == 2 * (r - w) * d) by (nonlinear_arith)
        requires
            l * u == w * d,
            a * u == r * d,
    ;
    assert(b * u == d * ((m + 1) * u * p - m * u * p)) by (nonlinear_arith)
        requires
            b == d * p,
    ;
}

/// Whether a decimal reads as `x`.
fn check(m: u32, e: i32, x: Single) -> (r: bool)
    requires
        m > 0,
        -1000 <= e <= 1000,
    ensures
        r == reads_as(m as nat, e as int, x),
{
    let mut n = BigNat::zero();
    n.scale(1, m);
    let mut one = BigNat::zero();
    one.scale(1, 1);
    let (num, den) = over_power(&one, &n, if e >= 0 {
        e
    } else {
        0
    });
    let d = power_of_ten(
        if e >= 0 {
            0
        } else {
            -e as i128
        },
    );
    proof {
        let power = if e >= 0 {
            e as nat
        } else {
            0
        };
        let (u, t) = (pow2(149), pow10(power));
        lemma_pow10_positive(power);
        lemma_denominator(e as int);
        lemma_pow2_pos(149);
        assert(m * t > 0) by (nonlinear_arith)
            requires
                m > 0,
                t > 0,
        ;
        assert((m * t) * u == m * u * t) by (nonlinear_arith);
    }
    let r = round_quotient(&den, &d);
    proof {
        lemma_rounded_is(r, numerator(m as nat, e as int), denominator(e as int), false);
    }
    r == x
}

/// A scale on which all the given powers of ten are whole.
spec fn scale_for(e: int, f: int, top: int) -> nat {
    (abs(e) + abs(f) + abs(top)) as nat
}

/// The neighbours of `x` on the grid of `p` digits.
spec fn on_grid(x: Single, top: int, p: nat, low: nat) -> bool {
    let e = top - p + 1;
    &&& x.is_finite()
    &&& x.rank() > 0
    &&& p > 0
    &&& numerator(1, top) <= x.scaled() * denominator(top)
    &&& numerator(low, e) <= x.scaled() * denominator(e) < numerator(low + 1, e)
}

/// What a decimal of at most `p` digits that reads as `x` implies for the
/// neighbours on the grid.
proof fn lemma_neighbour_reads(x: Single, top: int, p: nat, low: nat, n: nat, f: int)
    requires
        on_grid(x, top, p, low),
        n < pow10(p),
        reads_as(n, f, x),
    ensures
        ({
            let e = top - p + 1;
            let k = scale_for(e, f, top);
            let v = x.scaled() * pow10(k);
            &&& at(low, e, k) <= v < at(low + 1, e, k)
            &&& at(n, f, k) <= v ==> at(n, f, k) <= at(low, e, k) && reads_as(low, e, x)
            &&& at(n, f, k) > v ==> at(n, f, k) >= at(low + 1, e, k) && reads_as(low + 1, e, x)
        }),
{
    let e = top - p + 1;
    let k = scale_for(e, f, top);
    let v = x.scaled() * pow10(k);
    lemma_side_at(1, top, x, k);
    lemma_side_at(low, e, x, k);
    lemma_side_at(low + 1, e, x, k);
    lemma_grid(x, top, p, low, n, f, k);
    if at(n, f, k) <= v {
        lemma_between(low, e, n, f, x, k);
    } else {
        lemma_between(low + 1, e, n, f, x, k);
    }
}

proof fn lemma_more_digits(x: Single, top: int, p: nat, low: nat)
    requires
        on_grid(x, top, p, low),
        !reads_as(low, top - p + 1, x),
        !reads_as(low + 1, top - p + 1, x),
    ensures
        needs_digits(p + 1, x),
{
    assert forall|n: nat, f: int| n < pow10((p + 1 - 1) as nat) implies !#[trigger] reads_as(
        n,
        f,
        x,
    ) by {
        if reads_as(n, f, x) {
            lemma_neighbour_reads(x, top, p, low, n, f);
        }
    }
}

/// Comparing gaps is comparing distances on one scale.
proof fn lemma_gap_order(m: nat, e: int, n: nat, f: int, x: Single, k: nat)
    requires
        e + k >= 0,
        f + k >= 0,
    ensures
        ({
            let v = x.scaled() * pow10(k);
            let (l, r) = (gap(m, e, x) * denominator(f), gap(n, f, x) * denominator(e));
            let (a, b) = (abs(v - at(m, e, k)), abs(v - at(n, f, k)));
            &&& l <= r <==> a <= b
            &&& l == r <==> a == b
        }),
{
    lemma_side_at(m, e, x, k);
    lemma_side_at(n, f, x, k);
    lemma_pow10_positive(k);
    lemma_denominator(e);
    lemma_denominator(f);
    let v = x.scaled() * pow10(k);
    let t = pow10(k) as int;
    let (g, h, d, q) = (gap(m, e, x), gap(n, f, x), denominator(e), denominator(f));
    let (a, b) = (abs(v - at(m, e, k)), abs(v - at(n, f, k)));
    let c = d * q;
    assert(c > 0) by (nonlinear_arith)
        requires
            c == d * q,
            d > 0,
            q > 0,
    ;
    assert((g * q) * t == a * c) by (nonlinear_arith)
        requires
            g * t == a * d,
            c == d * q,
    ;
    assert((h * d) * t == b * c) by (nonlinear_arith)
        requires
            h * t == b * q,
            c == d * q,
    ;
    let (l, r) = (g * q, h * d);
    assert((l <= r <==> a <= b) && (l == r <==> a == b)) by (nonlinear_arith)
        requires
            l * t == a * c,
            r * t == b * c,
            t > 0,
            c > 0,
    ;
}

/// Whether `x` lies in the lower half between its neighbours.
spec fn nearer_low(x: Single, low: nat, e: int) -> bool {
    2 * (x.scaled() * denominator(e) - numerator(low, e)) < numerator(low + 1, e) - numerator(
        low,
        e,
    )
}

proof fn lemma_nearer_at(x: Single, low: nat, e: int, k: nat)
    requires
        e + k >= 0,
    ensures
        nearer_low(x, low, e) <==> 2 * (x.scaled() * pow10(k) - at(low, e, k)) < at(low + 1, e, k)
            - at(low, e, k),
{
    lemma_at(low, e, k);
    lemma_at(low + 1, e, k);
    lemma_pow10_positive(k);
    lemma_denominator(e);
    let (v, d, t) = (x.scaled(), denominator(e), pow10(k) as int);
    let (n, n1, a, a1) = (
        numerator(low, e),
        numerator(low + 1, e),
        at(low, e, k),
        at(low + 1, e, k),
    );
    let (l, r) = (2 * (v * d - n) - (n1 - n), 2 * (v * t - a) - (a1 - a));
    assert(l * t == r * d) by (nonlinear_arith)
        requires
            l == 2 * (v * d - n) - (n1 - n),
            r == 2 * (v * t - a) - (a1 - a),
            n * t == a * d,
            n1 * t == a1 * d,
    ;
    assert(l < 0 <==> r < 0) by (nonlinear_arith)
        requires
            l * t == r * d,
            t > 0,
            d > 0,
    ;
}

proof fn lemma_choice(x: Single, top: int, p: nat, low: nat, m: nat)
    requires
        on_grid(x, top, p, low),
        ({
            let e = top - p + 1;
            let (lo, hi) = (reads_as(low, e, x), reads_as(low + 1, e, x));
            ||| m == low && lo && (!hi || nearer_low(x, low, e))
            ||| m == low + 1 && hi && (!lo || !nearer_low(x, low, e))
        }),
    ensures
        is_closest(m, top - p + 1, p, x),
{
    let e = top - p + 1;
    assert forall|n: nat, f: int| #[trigger] reads_as(n, f, x) && n < pow10(p) implies {
        &&& gap(m, e, x) * denominator(f) <= gap(n, f, x) * denominator(e)
        &&& gap(m, e, x) * denominator(f) == gap(n, f, x) * denominator(e) ==> numerator(n, f)
            * denominator(e) <= numerator(m, e) * denominator(f)
    } by {
        let k = scale_for(e, f, top);
        lemma_neighbour_reads(x, top, p, low, n, f);
        lemma_nearer_at(x, low, e, k);
        lemma_gap_order(m, e, n, f, x, k);
        lemma_order_at(n, f, m, e, k);
    }
}

/// The bounds that a power of ten puts on the neighbours.
proof fn lemma_grid_range(x: Single, top: int, p: nat, low: nat)
    requires
        on_grid(x, top, p, low),
    ensures
        low >= pow10((p - 1) as nat),
        x.scaled() * denominator(top + 1) < numerator(1, top + 1) ==> low < pow10(p),
{
    let e = top - p + 1;
    let k = scale_for(e, top + 1, top);
    lemma_side_at(1, top, x, k);
    lemma_side_at(1, top + 1, x, k);
    lemma_side_at(low, e, x, k);
    lemma_side_at(low + 1, e, x, k);
    lemma_pow10_adds((p - 1) as nat, (e + k) as nat);
    lemma_pow10_adds(p, (e + k) as nat);
    lemma_pow10_positive((e + k) as nat);
    lemma_pow2_pos(149);
    let (a, u) = (pow10((e + k) as nat), pow2(149));
    let (w, w1) = (pow10((p - 1) as nat), pow10(p));
    let g = a * u;
    assert(g > 0) by (nonlinear_arith)
        requires
            g == a * u,
            a > 0,
            u > 0,
    ;
    assert(at(1, top, k) == w * g) by (nonlinear_arith)
        requires
            at(1, top, k) == 1 * (w * a) * u,
            g == a * u,
    ;
    assert(at(1, top + 1, k) == w1 * g) by (nonlinear_arith)
        requires
            at(1, top + 1, k) == 1 * (w1 * a) * u,
            g == a * u,
    ;
    assert(at(low, e, k) == low * g && at(low + 1, e, k) == (low + 1) * g) by (nonlinear_arith)
        requires
            at(low, e, k) == low * a * u,
            at(low + 1, e, k) == (low + 1) * a * u,
            g == a * u,
    ;
    assert(w * g < (low + 1) * g ==> w <= low) by (nonlinear_arith)
        requires
            g > 0,
    ;
    assert(low * g < w1 * g ==> low < w1) by (nonlinear_arith)
        requires
            g > 0,
    ;
}

/// A positive finite number as a quotient of whole numbers.
fn quotient_of(x: Single) -> (r: (BigNat, BigNat))
    requires
        x.is_finite(),
        x.rank() > 0,
    ensures
        r.1.value() > 0,
        x.scaled() * r.1.value() == r.0.value() * pow2(149),
{
    let mut n = BigNat::zero();
    n.scale(1, x.significand_of());
    let mut d = BigNat::zero();
    d.scale(1, 1);
    let k: u32 = x.step_of();
    let ghost s = n.value();
    let mut i: u32 = 0;
    proof {
        lemma_pow2_big();
        assert(s * 1 == s) by (nonlinear_arith);
    }
    if k >= 149 {
        while i < k - 149
            invariant
                149 <= k,
                i <= k - 149,
                n.value() == s * pow2(i as nat),
            decreases k - 149 - i,
        {
            proof {
                lemma_pow2_unfold((i + 1) as nat);
                let p = pow2(i as nat);
                assert((s * p) * 2 == s * (2 * p)) by (nonlinear_arith);
            }
            n.scale(2, 0);
            i += 1;
        }
        proof {
            lemma_pow2_adds((k - 149) as nat, 149);
            let (p, u) = (pow2((k - 149) as nat), pow2(149));
            assert(s * (p * u) * 1 == (s * p) * u) by (nonlinear_arith);
        }
    } else {
        while i < 149 - k
            invariant
                k < 149,
                i <= 149 - k,
                d.value() == pow2(i as nat),
            decreases 149 - k - i,
        {
            proof {
                lemma_pow2_unfold((i + 1) as nat);
            }
            d.scale(2, 0);
            i += 1;
        }
        proof {
            lemma_pow2_adds(k as nat, (149 - k) as nat);
            lemma_pow2_pos((149 - k) as nat);
            let (p, q) = (pow2(k as nat), pow2((149 - k) as nat));
            assert(s * p * q == s * (p * q)) by (nonlinear_arith);
        }
    }
    (n, d)
}

/// The power of ten at or below a positive finite number.
fn leading_power(x: Single, n: &BigNat, d: &BigNat) -> (top: i32)
    requires
        x.is_finite(),
        x.rank() > 0,
        d.value() > 0,
        x.scaled() * d.value() == n.value() * pow2(149),
    ensures
        -50 <= top <= 42,
        numerator(1, top as int) <= x.scaled() * denominator(top as int),
        x.scaled() * denominator(top + 1) < numerator(1, top + 1),
{
    let mut top: i32 = -50;
    proof {
        lemma_no_less_than_50(x);
    }
    loop
        invariant
            -50 <= top <= 42,
            x.is_finite(),
            d.value() > 0,
            x.scaled() * d.value() == n.value() * pow2(149),
            numerator(1, top as int) <= x.scaled() * denominator(top as int),
        ensures
            x.scaled() * denominator(top + 1) < numerator(1, top + 1),
        decreases 42 - top,
    {
        let (a, b) = over_power(n, d, top + 1);
        proof {
            let b1 = if top + 1 >= 0 {
                pow10((top + 1) as nat) as int
            } else {
                1
            };
            lemma_over_power(
                x,
                n.value() as int,
                d.value() as int,
                a.value() as int,
                b.value() as int,
                1,
                top + 1,
            );
            assert(1 * b.value() == b.value()) by (nonlinear_arith);
        }
        if !a.at_least(&b) {
            break;
        }
        proof {
            if top == 42 {
                lemma_no_more_than_43(x);
            }
        }
        top = top + 1;
    }
    top
}

proof fn lemma_pow10_nine()
    ensures
        pow10(8) == 100_000_000,
        pow10(9) == 1_000_000_000,
        pow10(10) == 10_000_000_000,
{
    reveal_with_fuel(pow10, 11);
}

/// The quotient by a power of ten has as many digits as asked for.
proof fn lemma_quotient_range(x: Single, n: nat, d: nat, a: nat, b: nat, top: int, p: nat)
    requires
        1 <= p <= 9,
        d > 0,
        x.scaled() * d == n * pow2(149),
        x.scaled() * denominator(top + 1) < numerator(1, top + 1),
        a == n * denominator(top - p + 1),
        b == d * if top - p + 1 >= 0 {
            pow10((top - p + 1) as nat)
        } else {
            1
        },
    ensures
        b > 0,
        a < b * 0x4000_0000,
{
    let e = top - p + 1;
    let w = pow10(p);
    let k = scale_for(e, top + 1, top);
    lemma_over_power(x, n as int, d as int, a as int, b as int, w, e);
    lemma_side_at(w, e, x, k);
    lemma_side_at(1, top + 1, x, k);
    lemma_pow10_adds(p, (e + k) as nat);
    let (t, u) = (pow10((e + k) as nat), pow2(149));
    assert(w * t * u == 1 * (w * t) * u) by (nonlinear_arith);
    assert(at(w, e, k) == at(1, top + 1, k));
    lemma_pow10_grows(p, 9);
    lemma_pow10_nine();
    let q = if e >= 0 {
        pow10(e as nat)
    } else {
        1
    };
    if e >= 0 {
        lemma_pow10_positive(e as nat);
    }
    assert(b > 0) by (nonlinear_arith)
        requires
            b == d * q,
            d > 0,
            q > 0,
    ;
    assert(w * b <= b * 0x4000_0000) by (nonlinear_arith)
        requires
            w <= 0x4000_0000,
            b > 0,
    ;
}

/// The shortest decimal that reads as a positive finite number.
fn shortest_decimal(x: Single) -> (r: (u32, i32))
    requires
        x.is_finite(),
        x.rank() > 0,
    ensures
        exists|p: nat| is_shortest(r.0 as nat, r.1 as int, p, x),
        -60 <= r.1 <= 60,
{
    let (n, d) = quotient_of(x);
    let top: i32 = leading_power(x, &n, &d);
    let mut p: u32 = 1;
    proof {
        lemma_needs_one_digit(x);
    }
    loop
        invariant
            x.is_finite(),
            x.rank() > 0,
            d.value() > 0,
            x.scaled() * d.value() == n.value() * pow2(149),
            -50 <= top <= 42,
            numerator(1, top as int) <= x.scaled() * denominator(top as int),
            x.scaled() * denominator(top + 1) < numerator(1, top + 1),
            1 <= p <= 9,
            needs_digits(p as nat, x),
        decreases 9 - p,
    {
        let e: i32 = top - p as i32 + 1;
        let (a, b) = over_power(&n, &d, e);
        proof {
            let (q, r) = (a.value(), b.value());
            lemma_quotient_range(x, n.value(), d.value(), q, r, top as int, p as nat);
        }
        let (low, rem) = a.divide(&b);
        proof {
            let (l, nv, dv) = (low as nat, n.value() as int, d.value() as int);
            lemma_over_power(x, nv, dv, a.value() as int, b.value() as int, l, e as int);
            lemma_over_power(x, nv, dv, a.value() as int, b.value() as int, l + 1, e as int);
            let z = b.value();
            assert((l + 1) * z == l * z + z) by (nonlinear_arith);
            lemma_grid_range(x, top as int, p as nat, l);
            let (w, u) = (b.value() as int, pow2(149) as int);
            let (g, h) = (
                2 * (x.scaled() * denominator(e as int) - numerator(l, e as int)),
                numerator(l + 1, e as int) - numerator(l, e as int),
            );
            let twice = 2 * rem.value();
            lemma_pow2_pos(149);
            assert(twice < w <==> g < h) by (nonlinear_arith)
                requires
                    twice * u == g * dv,
                    w * u == dv * h,
                    u > 0,
                    dv > 0,
            ;
            lemma_pow10_positive((p - 1) as nat);
            lemma_pow10_grows(p as nat, 9);
            lemma_pow10_nine();
        }
        let lo: bool = check(low, e, x);
        let hi: bool = check(low + 1, e, x);
        if lo || hi {
            let mut twice = rem.copy();
            twice.scale(2, 0);
            let nearer: bool = !twice.at_least(&b);
            let take_low: bool = lo && (!hi || nearer);
            let mut m: u32 = if take_low {
                low
            } else {
                low + 1
            };
            let mut f: i32 = e;
            proof {
                lemma_choice(x, top as int, p as nat, low as nat, m as nat);
            }
            assert(m * pow10(0) <= 1_000_000_000) by (nonlinear_arith)
                requires
                    m <= 1_000_000_000,
                    pow10(0) == 1,
            ;
            while m % 10 == 0
                invariant
                    m > 0,
                    m <= pow10(p as nat),
                    reads_as(m as nat, f as int, x),
                    is_closest(m as nat, f as int, p as nat, x),
                    -58 <= e <= f <= e + 9,
                    e <= 42,
                    m * pow10((f - e) as nat) <= 1_000_000_000,
                decreases m,
            {
                proof {
                    let tenth = (m / 10) as nat;
                    assert(m == 10 * tenth);
                    lemma_shift(tenth, f as int, p as nat, x);
                    let t = pow10((f - e) as nat);
                    assert(pow10((f + 1 - e) as nat) == 10 * t);
                    assert(tenth * (10 * t) == m * t) by (nonlinear_arith)
                        requires
                            m == 10 * tenth,
                    ;
                    assert(tenth * (10 * t) >= 10 * t) by (nonlinear_arith)
                        requires
                            tenth >= 1,
                            t >= 0,
                    ;
                    if f == e + 9 {
                        lemma_pow10_nine();
                    }
                }
                m = m / 10;
                f = f + 1;
            }
            proof {
                assert(pow10(p as nat) == 10 * pow10((p - 1) as nat));
            }
            let r: (u32, i32) = (m, f);
            assert(is_shortest(r.0 as nat, r.1 as int, p as nat, x));
            return r;
        }
        proof {
            if p == 9 {
                lemma_nine_digits(x, low as nat, e as int);
            }
            lemma_more_digits(x, top as int, p as nat, low as nat);
        }
        p = p + 1;
    }
}

// ---------------------------------------------------------------------------
// The text
// ---------------------------------------------------------------------------

/// A decimal that reads as a finite number is not too large to write out.
proof fn lemma_whole_fits(m: nat, e: int, x: Single)
    requires
        e >= 0,
        x.is_finite(),
        reads_as(m, e, x),
    ensures
        m * pow10(e as nat) < 0x1_0000_0000_0000_0000_0000_0000_0000_0000,
{
    let w = m * pow10(e as nat);
    let u = pow2(149) as int;
    let n = numerator(m, e);
    assert(n == w * u) by (nonlinear_arith)
        requires
            n == m * u * pow10(e as nat),
            w == m * pow10(e as nat),
    ;
    lemma_numerator(m, e);
    lemma_rounding_exists(n, 1, false);
    assert(n < overflow_limit());
    lemma_pow2_pos(149);
    lemma_pow2_pos(252);
    lemma_pow2_big();
    lemma_pow2_adds(128, 149);
    lemma_pow2_adds(25, 252);
    let (p, q) = (pow2(252) as int, pow2(128) as int);
    assert(pow2(25) * p == 0x200_0000 * p) by (nonlinear_arith)
        requires
            pow2(25) == 0x200_0000,
    ;
    assert(pow2(277) == q * u);
    assert(w < q) by (nonlinear_arith)
        requires
            w * u < 0x1FF_FFFF * p,
            q * u == 0x200_0000 * p,
            u > 0,
            p > 0,
    ;
}

fn fixed_string(m: u32, e: i32, Ghost(x): Ghost<Single>) -> (r: String)
    requires
        x.is_finite(),
        reads_as(m as nat, e as int, x),
        -60 <= e <= 60,
    ensures
        r@ == fixed_text(m as nat, e as int),
{
    if e >= 0 {
        let mut v: u128 = m as u128;
        let mut i: i32 = 0;
        let ghost total = m * pow10(e as nat);
        proof {
            lemma_whole_fits(m as nat, e as int, x);
            assert(m * 1 == m) by (nonlinear_arith);
        }
        while i < e
            invariant
                0 <= i <= e,
                v == m * pow10(i as nat),
                total == m * pow10(e as nat),
                total < 0x1_0000_0000_0000_0000_0000_0000_0000_0000,
            decreases e - i,
        {
            proof {
                let p = pow10(i as nat);
                assert((m * p) * 10 == m * (10 * p)) by (nonlinear_arith);
                lemma_pow10_grows((i + 1) as nat, e as nat);
                let (a, b) = (pow10((i + 1) as nat), pow10(e as nat));
                assert(m * a <= m * b) by (nonlinear_arith)
                    requires
                        a <= b,
                        m >= 0,
                ;
            }
            v = v * 10;
            i += 1;
        }
        return unsigned_text(v);
    }
    let places: u32 = (-e) as u32;
    let mut whole: u64 = 0;
    let mut rest: u64 = m as u64;
    if places < 10 {
        let mut p: u64 = 1;
        let mut i: u32 = 0;
        while i < places
            invariant
                i <= places < 10,
                p == pow10(i as nat),
            decreases places - i,
        {
            proof {
                lemma_pow10_grows(i as nat, 9);
                lemma_pow10_nine();
            }
            p = p * 10;
            i += 1;
        }
        proof {
            lemma_pow10_positive(places as nat);
        }
        whole = m as u64 / p;
        rest = m as u64 % p;
    } else {
        proof {
            lemma_pow10_grows(10, places as nat);
            lemma_pow10_nine();
            lemma_fundamental_div_mod_converse(m as int, pow10(places as nat) as int, 0, m as int);
        }
    }
    let mut out: String = unsigned_text(whole as u128);
    out.push('.');
    out.append(padded_unsigned_text(rest, places as usize).as_str());
    assert(out@ == fixed_text(m as nat, e as int));
    out
}

/// The text of a number, as short as reading it back allows.
pub fn single_string(x: Single) -> (r: String)
    ensures
        r@ == single_text(x),
{
    reveal(single_text);
    if x.is_nan_value() {
        return String::from_str("NaN");
    }
    let negative: bool = x.bits >= 0x8000_0000;
    let size: Single = if negative {
        x.negate()
    } else {
        x
    };
    let body: String = if !x.is_finite_value() {
        String::from_str("inf")
    } else if size.bits == 0 {
        String::from_str("0")
    } else {
        let (m, e) = shortest_decimal(size);
        proof {
            let p = choose|p: nat| is_shortest(m as nat, e as int, p, size);
            assert(is_shortest(m as nat, e as int, p, size));
            let (n, f, q) = choose|n: nat, f: int, q: nat| is_shortest(n, f, q, size);
            lemma_shortest_unique(m as nat, e as int, p, n, f, q, size);
        }
        fixed_string(m, e, Ghost(size))
    };
    if negative {
        let mut out: String = String::from_str("-");
        out.append(body.as_str());
        out
    } else {
        body
    }
}

// ---------------------------------------------------------------------------
// Reading back
// ---------------------------------------------------------------------------

/// Trailing zeros move into the power of ten.
proof fn lemma_strip(m: nat, e: int, p: nat, x: Single)
    requires
        p > 0,
        0 < m <= pow10(p),
        reads_as(m, e, x),
        needs_digits(p, x),
        is_closest(m, e, p, x),
    ensures
        exists|n: nat, f: int, q: nat| is_shortest(n, f, q, x),
    decreases m,
{
    if m % 10 == 0 {
        lemma_shift(m / 10, e, p, x);
        assert(10 * (m / 10) == m);
        lemma_strip(m / 10, e + 1, p, x);
    } else {
        assert(pow10(p) == 10 * pow10((p - 1) as nat));
        assert(is_shortest(m, e, p, x));
    }
}

proof fn lemma_shortest_from(x: Single, top: int, p: nat)
    requires
        x.is_finite(),
        x.rank() > 0,
        numerator(1, top) <= x.scaled() * denominator(top),
        x.scaled() * denominator(top + 1) < numerator(1, top + 1),
        1 <= p <= 9,
        needs_digits(p, x),
    ensures
        exists|m: nat, e: int, q: nat| is_shortest(m, e, q, x),
    decreases 9 - p,
{
    let e = top - p + 1;
    let power = if e >= 0 {
        e as nat
    } else {
        0
    };
    let unit = (pow2(149) * pow10(power)) as int;
    lemma_pow2_pos(149);
    lemma_pow10_positive(power);
    lemma_denominator(e);
    lemma_sign(x);
    assert(unit > 0) by (nonlinear_arith)
        requires
            unit == pow2(149) * pow10(power),
            pow2(149) > 0,
            pow10(power) > 0,
    ;
    let v = x.scaled() * denominator(e);
    assert(v >= 0) by (nonlinear_arith)
        requires
            v == x.scaled() * denominator(e),
            x.scaled() > 0,
            denominator(e) > 0,
    ;
    lemma_fundamental_div_mod(v, unit);
    lemma_div_pos_is_pos(v, unit);
    let low = (v / unit) as nat;
    let q = v / unit;
    assert(unit * q == q * unit && (q + 1) * unit == q * unit + unit) by (nonlinear_arith);
    assert(numerator(low, e) == low * unit && numerator(low + 1, e) == (low + 1) * unit)
        by (nonlinear_arith)
        requires
            numerator(low, e) == low * pow2(149) * pow10(power),
            numerator(low + 1, e) == (low + 1) * pow2(149) * pow10(power),
            unit == pow2(149) * pow10(power),
    ;
    assert(on_grid(x, top, p, low));
    lemma_grid_range(x, top, p, low);
    lemma_pow10_positive((p - 1) as nat);
    let (lo, hi) = (reads_as(low, e, x), reads_as(low + 1, e, x));
    if lo && (!hi || nearer_low(x, low, e)) {
        lemma_choice(x, top, p, low, low);
        lemma_strip(low, e, p, x);
    } else if hi {
        lemma_choice(x, top, p, low, low + 1);
        lemma_strip(low + 1, e, p, x);
    } else {
        if p == 9 {
            lemma_pow10_nine();
            lemma_nine_digits(x, low, e);
        }
        lemma_more_digits(x, top, p, low);
        lemma_shortest_from(x, top, p + 1);
    }
}

proof fn lemma_top_from(x: Single, from: int) -> (top: int)
    requires
        x.is_finite(),
        x.rank() > 0,
        -50 <= from <= 43,
        numerator(1, from) <= x.scaled() * denominator(from),
    ensures
        numerator(1, top) <= x.scaled() * denominator(top),
        x.scaled() * denominator(top + 1) < numerator(1, top + 1),
    decreases 43 - from,
{
    if from == 43 {
        lemma_no_more_than_43(x);
    }
    if x.scaled() * denominator(from + 1) < numerator(1, from + 1) {
        from
    } else {
        lemma_top_from(x, from + 1)
    }
}

/// Finite numbers lie below ten to the power of 43.
proof fn lemma_no_more_than_43(x: Single)
    requires
        x.is_finite(),
    ensures
        x.scaled() * denominator(43) < numerator(1, 43),
{
    lemma_below_limit(x);
    lemma_pow10_positive(43);
    lemma_pow2_adds(129, 149);
    lemma_pow2_adds(26, 252);
    lemma_pow2_unfold(26);
    lemma_pow2_big();
    lemma_pow2_pos(149);
    lemma_pow2_pos(252);
    let (p, t, u, q) = (
        pow10(43) as int,
        pow2(129) as int,
        pow2(149) as int,
        pow2(252) as int,
    );
    assert(1 * u * p >= t * u) by (nonlinear_arith)
        requires
            p >= t,
            u > 0,
    ;
    assert(pow2(26) * q == 0x400_0000 * q) by (nonlinear_arith)
        requires
            pow2(26) == 0x400_0000,
    ;
    assert(t * u == pow2(278));
    assert(0x400_0000 * q > 0x1FF_FFFF * q) by (nonlinear_arith)
        requires
            q > 0,
    ;
    assert(x.scaled() * 1 < t * u);
}

/// Finite numbers above zero lie above ten to the power of -50.
proof fn lemma_no_less_than_50(x: Single)
    requires
        x.is_finite(),
        x.rank() > 0,
    ensures
        numerator(1, -50) <= x.scaled() * denominator(-50),
{
    lemma_sign(x);
    lemma_pow10_positive(50);
    lemma_pow2_strictly_increases(149, 150);
    let (v, p, u) = (x.scaled(), pow10(50) as int, pow2(149) as int);
    assert(v * p >= p) by (nonlinear_arith)
        requires
            v >= 1,
            p > 0,
    ;
    assert(1 * u * 1 == u) by (nonlinear_arith);
}

/// No number but zero has no digits.
proof fn lemma_needs_one_digit(x: Single)
    requires
        x.rank() > 0,
    ensures
        needs_digits(1, x),
{
    assert forall|j: nat, f: int| j < pow10(0) implies !#[trigger] reads_as(j, f, x) by {
        lemma_denominator(f);
        let power = if f >= 0 {
            f as nat
        } else {
            0
        };
        assert(0 * pow2(149) * pow10(power) == 0) by (nonlinear_arith);
        lemma_zero_rounds(denominator(f), false);
    }
}

/// Every positive finite number has a shortest decimal.
proof fn lemma_shortest_exists(x: Single)
    requires
        x.is_finite(),
        x.rank() > 0,
    ensures
        exists|m: nat, e: int, p: nat| is_shortest(m, e, p, x),
{
    lemma_no_less_than_50(x);
    lemma_needs_one_digit(x);
    let top = lemma_top_from(x, -50);
    lemma_shortest_from(x, top, 1);
}

proof fn lemma_digits_joined(a: Seq<char>, b: Seq<char>)
    requires
        forall|i: int| 0 <= i < b.len() ==> is_digit(#[trigger] b[i]),
    ensures
        digits_value(a + b) == digits_value(a) * pow10(b.len()) + digits_value(b),
    decreases b.len(),
{
    if b.len() == 0 {
        assert(a + b == a);
        assert(digits_value(a) * 1 == digits_value(a)) by (nonlinear_arith);
    } else {
        assert((a + b).drop_last() == a + b.drop_last());
        assert(is_digit(b.last()));
        assert forall|i: int| 0 <= i < b.drop_last().len() implies is_digit(
            #[trigger] b.drop_last()[i],
        ) by {
            assert(is_digit(b[i]));
        }
        lemma_digits_joined(a, b.drop_last());
        let (v, p) = (digits_value(a), pow10((b.len() - 1) as nat));
        assert(10 * (v * p) == v * (10 * p)) by (nonlinear_arith);
    }
}

proof fn lemma_zeros(n: nat)
    ensures
        digits_value(Seq::new(n, |i: int| '0')) == 0,
    decreases n,
{
    if n > 0 {
        let z = Seq::new(n, |i: int| '0');
        assert(z.drop_last() == Seq::new((n - 1) as nat, |i: int| '0'));
        lemma_zeros((n - 1) as nat);
    }
}

/// A number of at most `w` digits has at most `w` digits.
proof fn lemma_nat_text_length(n: nat, w: nat)
    requires
        n < pow10(w),
        w > 0,
    ensures
        nat_text(n).len() <= w,
    decreases w,
{
    if n >= 10 {
        assert(pow10(w) == 10 * pow10((w - 1) as nat));
        if w == 1 {
            assert(pow10(1) == 10 * pow10(0));
        }
        lemma_nat_text_length(n / 10, (w - 1) as nat);
    }
}

proof fn lemma_padded(n: nat, w: nat)
    requires
        n < pow10(w),
        w > 0,
    ensures
        padded_text(n, w).len() == w,
        is_digits(padded_text(n, w)),
        digits_value(padded_text(n, w)) == n,
{
    lemma_nat_text_length(n, w);
    lemma_nat_text(n);
    let text = nat_text(n);
    let z = Seq::new((w - text.len()) as nat, |i: int| '0');
    lemma_zeros((w - text.len()) as nat);
    lemma_digits_joined(z, text);
    assert(0 * pow10(text.len()) == 0) by (nonlinear_arith);
    if text.len() < w {
        assert forall|i: int| 0 <= i < padded_text(n, w).len() implies is_digit(
            #[trigger] padded_text(n, w)[i],
        ) by {
            if i >= z.len() {
                assert(padded_text(n, w)[i] == text[i - z.len()]);
            }
        }
    } else {
        assert(padded_text(n, w) == text);
    }
}

/// Digits, and a point.
pub open spec fn is_plain(s: Seq<char>) -> bool {
    s.len() > 0 && is_digit(s[0]) && is_digit(s.last()) && forall|i: int|
        0 <= i < s.len() ==> is_digit(#[trigger] s[i]) || s[i] == '.'
}

/// Writing a decimal out and taking it apart again gives its value.
proof fn lemma_fixed_text(m: nat, e: int)
    ensures
        is_plain(fixed_text(m, e)),
        decimal_parts(fixed_text(m, e)) is Some,
        ({
            let (digits, exponent) = decimal_parts(fixed_text(m, e))->0;
            forall|negative: bool| #[trigger]
                decimal_value(digits, exponent, negative) == decimal(m, e, negative)
        }),
{
    let s = fixed_text(m, e);
    if e >= 0 {
        let w = m * pow10(e as nat);
        lemma_nat_text(w);
        assert forall|i: int| 0 <= i < s.len() implies s[i] != 'e' && s[i] != 'E' && s[i]
            != '.' by {
            assert(is_digit(s[i]));
        }
        lemma_find_unique(s, 'e', s.len() as int);
        lemma_find_unique(s, 'E', s.len() as int);
        lemma_find_unique(s, '.', s.len() as int);
        assert(s.take(s.len() as int) == s);
        assert(s + Seq::<char>::empty() == s);
        assert(is_digit(s[0]) && is_digit(s.last()));
        let (u, p) = (pow2(149), pow10(e as nat));
        assert((m * p) * u * 1 == m * u * p) by (nonlinear_arith);
        assert(numerator(w, 0) == numerator(m, e));
    } else {
        let f = (-e) as nat;
        let p = pow10(f);
        lemma_pow10_positive(f);
        let (whole, rest) = (nat_text(m / p), padded_text(m % p, f));
        lemma_nat_text(m / p);
        lemma_fundamental_div_mod(m as int, p as int);
        lemma_padded(m % p, f);
        assert forall|i: int| 0 <= i < s.len() implies s[i] != 'e' && s[i] != 'E' && (is_digit(
            #[trigger] s[i],
        ) || s[i] == '.') by {
            if i < whole.len() {
                assert(is_digit(whole[i]));
            } else if i > whole.len() {
                assert(is_digit(rest[i - whole.len() - 1]));
            }
        }
        assert(is_digit(whole[0]) && is_digit(rest.last()));
        assert(s[0] == whole[0] && s.last() == rest.last());
        lemma_find_unique(s, 'e', s.len() as int);
        lemma_find_unique(s, 'E', s.len() as int);
        assert(s.take(s.len() as int) == s);
        assert(!whole.contains('.')) by {
            lemma_digits_are_plain(whole, '.');
        }
        lemma_split_once(whole, rest, '.');
        let all = whole + rest;
        assert forall|i: int| 0 <= i < all.len() implies is_digit(#[trigger] all[i]) by {
            if i < whole.len() {
                assert(is_digit(whole[i]));
            } else {
                assert(is_digit(rest[i - whole.len()]));
            }
        }
        lemma_digits_joined(whole, rest);
        assert((m / p) * p == p * (m / p)) by (nonlinear_arith);
        assert(digits_value(all) == m);
    }
}

/// Every number but NaN reads back from its text.
pub proof fn law_numbers_read_back(x: Single)
    requires
        !x.is_nan(),
    ensures
        read_single(single_text(x)) == Some(x),
{
    reveal(read_single);
    reveal(single_text);
    reveal_strlit("inf");
    reveal_strlit("infinity");
    reveal_strlit("nan");
    reveal_strlit("-");
    reveal_strlit("0");
    let size = if x.is_negative() {
        x.negated()
    } else {
        x
    };
    let s = single_text(x);
    let body = if x.is_infinite() {
        "inf"@
    } else if x.is_zero() {
        "0"@
    } else {
        positive_text(size)
    };
    assert(x.is_negative() ==> s.drop_first() == body);
    if x.is_infinite() {
        assert(same_ignoring_case(body, "inf"@));
    } else {
        let (m, e) = if x.is_zero() {
            assert(nat_text(0) == "0"@);
            assert(0 * pow10(0) == 0) by (nonlinear_arith);
            (0nat, 0int)
        } else {
            lemma_shortest_exists(size);
            let (m, e, p) = choose|m: nat, e: int, p: nat| is_shortest(m, e, p, size);
            (m, e)
        };
        assert(body == fixed_text(m, e));
        lemma_fixed_text(m, e);
        assert(ascii_lower(body[0]) != 'i' && ascii_lower(body[0]) != 'n');
        assert(!same_ignoring_case(body, "inf"@)) by {
            assert(ascii_lower("inf"@[0]) == 'i');
        }
        assert(!same_ignoring_case(body, "infinity"@)) by {
            assert(ascii_lower("infinity"@[0]) == 'i');
        }
        assert(!same_ignoring_case(body, "nan"@)) by {
            assert(ascii_lower("nan"@[0]) == 'n');
        }
        let (digits, exponent) = decimal_parts(body)->0;
        lemma_numerator(m, e);
        lemma_denominator(e);
        assert(decimal_value(digits, exponent, x.is_negative()) == decimal(m, e, x.is_negative()));
        if x.is_zero() {
            lemma_zero_rounds(1, x.is_negative());
            assert(0 * pow2(149) * 1 == 0) by (nonlinear_arith);
        } else {
            lemma_rounding_exists(numerator(m, e), denominator(e), false);
            lemma_numerator_positive(m, e);
            lemma_signed(size, numerator(m, e), denominator(e), x.is_negative());
        }
    }
}

/// The text of a number holds no white space at its ends and no line break.
pub proof fn lemma_single_text(x: Single)
    requires
        x.is_finite(),
    ensures
        is_trimmed(single_text(x)),
        !single_text(x).contains('\n'),
{
    reveal(single_text);
    reveal_strlit("-");
    reveal_strlit("0");
    let size = if x.is_negative() {
        x.negated()
    } else {
        x
    };
    let body = if x.is_zero() {
        "0"@
    } else {
        positive_text(size)
    };
    let s = single_text(x);
    if !x.is_zero() {
        let (m, e, p) = choose|m: nat, e: int, p: nat| is_shortest(m, e, p, size);
        lemma_fixed_text(m, e);
    }
    assert(is_plain(body));
    assert(s.last() == body.last());
    assert(s[0] == if x.is_negative() {
        '-'
    } else {
        body[0]
    });
    assert forall|i: int| 0 <= i < s.len() implies s[i] != '\n' by {
        if x.is_negative() {
            if i > 0 {
                assert(s[i] == body[i - 1]);
            }
        } else {
            assert(s[i] == body[i]);
        }
    }
}

proof fn lemma_numerator_positive(m: nat, e: int)
    requires
        m > 0,
    ensures
        numerator(m, e) > 0,
{
    let power = if e >= 0 {
        e as nat
    } else {
        0
    };
    lemma_pow10_positive(power);
    lemma_pow2_pos(149);
    let (u, p) = (pow2(149), pow10(power));
    assert(m * u * p > 0) by (nonlinear_arith)
        requires
            m > 0,
            u > 0,
            p > 0,
    ;
}

} // verus!
