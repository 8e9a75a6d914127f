//! What the animation promises: everything moves toward where it belongs, at
//! its pace, and never past it.

use crate::app_state::AppState;
use crate::config::limited;
use crate::draw::hundredths;
use crate::frame::lemma_hundredths;
use crate::motion::{
    faded_in, faded_out, fallen, frame_count, frame_seconds, glided, in_unit,
    law_the_animation_stays_in_range, law_the_meters_stay_in_range, lemma_billion, lemma_long_frame,
    lemma_part, lemma_rise, lemma_sinks, popped_in, popped_out, seconds, size_of, sunk, thousandths,
    FrameInput,
};
use crate::precision::{
    fine, is_close, lemma_minus_error, lemma_over_error, lemma_plus_error, lemma_room,
    lemma_rounding_error, lemma_times_error, lemma_units, unit,
};
use crate::rounding::{
    lemma_negated, lemma_one_scaled, lemma_over_rounds, lemma_plus_keeps_order, lemma_plus_rounds,
    lemma_plus_zero, lemma_pow2_big, lemma_rank_order, lemma_rounding_exists, lemma_rounding_places,
    lemma_scaled_of_parts, lemma_share, lemma_sign, lemma_signed_exact, lemma_single_of_exact,
    lemma_zero_rounds,
};
use crate::scale::{lemma_complement, lemma_plus_commutes, HUNDRED};
use crate::single::{abs, is_nearest, of_bits, single_of, zero, Single, ONE};
use vstd::arithmetic::div_mod::lemma_fundamental_div_mod;
use vstd::arithmetic::power2::{lemma_pow2_adds, lemma_pow2_pos, lemma_pow2_unfold, pow2};
use vstd::prelude::*;

verus! {

/// Every multiple of a power of two with at most 24 bits is a number.
pub proof fn lemma_on_grid(q: int, k: nat) -> (f: Single)
    requires
        0 <= q <= 0x100_0000,
        k < 200,
    ensures
        f.is_finite(),
        f.scaled() == q * pow2(k),
    decreases k,
{
    if q >= 0x80_0000 || k == 0 {
        let f = Single { bits: (k * 0x80_0000 + q) as u32 };
        lemma_scaled_of_parts(f, k, q);
        f
    } else {
        lemma_pow2_unfold(k);
        let f = lemma_on_grid(2 * q, (k - 1) as nat);
        let p = pow2((k - 1) as nat) as int;
        assert((2 * q) * p == q * (2 * p)) by (nonlinear_arith);
        f
    }
}

/// The steps of a percentage: what it is a multiple of, and how far the next
/// number is.
proof fn lemma_percentage(n: int)
    requires
        1 <= n <= 100,
    ensures
        ({
            let t = single_of(n);
            &&& t.is_finite() && !t.is_negative()
            &&& t.scaled() == n * unit()
            &&& 126 <= t.step() <= 132
            &&& t.significand() % 2 == 0
            &&& t.rank() % 2 == 0
            &&& t.scaled() == t.significand() * pow2(t.step())
        }),
{
    let t = single_of(n);
    lemma_units();
    lemma_signed_exact(n);
    lemma_signed_exact(1);
    lemma_one_scaled();
    let hundred = of_bits(HUNDRED);
    assert(hundred.step() == 132 && hundred.significand() == 0xC8_0000);
    lemma_pow2_big();
    lemma_pow2_adds(17, 132);
    let u = unit();
    assert(1 * u <= n * u <= 100 * u) by (nonlinear_arith)
        requires
            1 <= n <= 100,
            u > 0,
    ;
    lemma_rank_order(of_bits(ONE), t);
    lemma_rank_order(t, hundred);
    let (k, s) = (t.step(), t.significand());
    let j = (148 - k) as nat;
    lemma_pow2_adds((149 - k) as nat, k);
    lemma_pow2_unfold((149 - k) as nat);
    lemma_pow2_pos(k);
    let (p, h) = (pow2(k) as int, pow2(j) as int);
    assert(s == 2 * (n * h)) by (nonlinear_arith)
        requires
            s * p == n * ((2 * h) * p),
            p > 0,
    ;
}

/// From below, the whole way leads no further than the percentage.
proof fn lemma_whole_way_up(d: Single, n: int)
    requires
        1 <= n <= 100,
        d.is_finite(),
        0 <= d.rank(),
        d.scaled() < n * unit(),
    ensures
        ({
            let diff = single_of(n).minus_spec(d);
            &&& diff.is_finite()
            &&& diff.rank() >= 0
            &&& d.plus_spec(diff).rank() <= single_of(n).rank()
        }),
{
    let t = single_of(n);
    let diff = t.minus_spec(d);
    lemma_units();
    lemma_percentage(n);
    lemma_sign(d);
    lemma_sign(diff);
    let (k, s) = (t.step(), t.significand());
    let u = pow2(k) as int;
    lemma_pow2_pos(k);
    lemma_pow2_unfold(k);
    let h = pow2((k - 1) as nat) as int;
    let m = t.scaled() - d.scaled();
    let bits = unit();
    assert(n * bits <= 100 * bits) by (nonlinear_arith)
        requires
            n <= 100,
            bits > 0,
    ;
    lemma_minus_error(t, d);
    // The multiple of the step nearest to the difference.
    let q = (m + h) / u;
    lemma_fundamental_div_mod(m + h, u);
    assert(0 <= q <= s && abs(q * u - m) <= h) by (nonlinear_arith)
        requires
            m + h == u * q + (m + h) % u,
            0 <= (m + h) % u < u,
            0 < m <= s * u,
            u == 2 * h,
            h > 0,
    ;
    let f = lemma_on_grid(q, k);
    reveal(Single::minus_spec);
    lemma_negated(d);
    let negative = lemma_plus_rounds(t, d.negated());
    lemma_room(m, 1);
    assert(is_nearest(diff, m, 1));
    assert(f.scaled() * 1 - m == q * u - m);
    assert(abs(diff.scaled() - m) <= h);
    lemma_rounding_places(diff, m, 1, negative);
    // Rounding the sum leads to the percentage, as it is even.
    let sum = d.plus_spec(diff);
    let v = d.scaled() + diff.scaled();
    let sign = lemma_plus_rounds(d, diff);
    lemma_plus_error(d, diff);
    lemma_room(v, 1);
    if sum.rank() > t.rank() {
        let next = Single { bits: (t.bits + 1) as u32 };
        lemma_scaled_of_parts(next, k, s + 1);
        assert((s + 1) * u == s * u + u) by (nonlinear_arith);
        lemma_rank_order(next, sum);
        lemma_rank_order(t, sum);
        assert(is_nearest(sum, v, 1));
        assert(abs(sum.scaled() * 1 - v) <= abs(t.scaled() * 1 - v));
        assert(sum.scaled() >= t.scaled() + u);
        assert(v == t.scaled() + h);
        assert(sum.scaled() == t.scaled() + u);
        lemma_rank_order(next, sum);
    }
}

/// From above, the whole way leads exactly to the percentage.
proof fn lemma_whole_way_down(d: Single, n: int)
    requires
        0 <= n <= 100,
        d.is_finite(),
        d.scaled() <= 100 * unit(),
        d.scaled() > n * unit(),
    ensures
        ({
            let diff = single_of(n).minus_spec(d);
            &&& diff.is_finite()
            &&& diff.rank() <= 0
            &&& d.plus_spec(diff).rank() == single_of(n).rank()
        }),
{
    let t = single_of(n);
    let diff = t.minus_spec(d);
    let bits = unit();
    lemma_units();
    lemma_signed_exact(n);
    assert(n * bits >= 0) by (nonlinear_arith)
        requires
            n >= 0,
            bits > 0,
    ;
    lemma_sign(d);
    lemma_sign(diff);
    let hundred = of_bits(HUNDRED);
    assert(hundred.step() == 132 && hundred.significand() == 0xC8_0000);
    lemma_pow2_big();
    lemma_pow2_adds(17, 132);
    lemma_rank_order(d, hundred);
    let (k, s) = (d.step(), d.significand());
    assert(k <= 132);
    lemma_pow2_adds((149 - k) as nat, k);
    lemma_pow2_pos(k);
    lemma_pow2_pos((149 - k) as nat);
    let (u, c) = (pow2(k) as int, pow2((149 - k) as nat) as int);
    let q = s - n * c;
    let m = t.scaled() - d.scaled();
    assert(m == -(q * u) && 0 < q <= s) by (nonlinear_arith)
        requires
            q == s - n * c,
            m == n * (c * u) - s * u,
            m < 0,
            u > 0,
            n * c >= 0,
    ;
    assert(n * c >= 0) by (nonlinear_arith)
        requires
            n >= 0,
            c > 0,
    ;
    let plain = lemma_on_grid(q, k);
    let f = plain.negated();
    lemma_negated(plain);
    reveal(Single::minus_spec);
    lemma_negated(d);
    let negative = lemma_plus_rounds(t, d.negated());
    lemma_room(m, 1);
    assert(is_nearest(diff, m, 1));
    assert(f.scaled() * 1 - m == 0);
    assert(diff.scaled() == m);
    lemma_rounding_places(diff, m, 1, negative);
    let sum = d.plus_spec(diff);
    let sign = lemma_plus_rounds(d, diff);
    lemma_room(t.scaled(), 1);
    assert(is_nearest(sum, t.scaled(), 1));
    assert(t.scaled() * 1 - t.scaled() == 0);
    assert(sum.scaled() == t.scaled());
    lemma_rank_order(sum, t);
}

/// The level on show after a frame lies between the level before it and the
/// percentage, whichever of them is higher: it never moves away from the
/// percentage and never passes it.
pub proof fn law_the_level_glides_toward_the_percentage(display: Single, percent: int, keep: Single)
    requires
        display.is_finite(),
        0 <= display.scaled() <= 100 * pow2(149),
        0 <= percent <= 100,
        in_unit(keep),
    ensures
        ({
            let next = glided(display, percent, keep);
            let (from, to) = (display.scaled(), percent * pow2(149));
            &&& next.is_finite()
            &&& from <= to ==> from <= next.scaled() <= to
            &&& to <= from ==> to <= next.scaled() <= from
        }),
{
    let (d, t) = (display, single_of(percent));
    let diff = t.minus_spec(d);
    let k = of_bits(ONE).minus_spec(keep);
    let next = glided(d, percent, keep);
    lemma_units();
    lemma_signed_exact(percent);
    lemma_sign(d);
    lemma_complement(keep);
    let bits = unit();
    assert(percent * bits >= 0) by (nonlinear_arith)
        requires
            percent >= 0,
            bits > 0,
    ;
    if d.scaled() == t.scaled() {
        lemma_minus_error(t, d);
        lemma_even(t, d);
    } else if size_of(diff).below_spec(hundredths(40)) {
    } else {
        let part = diff.times_spec(k);
        if d.scaled() < t.scaled() {
            if percent == 0 {
                assert(0 * bits == 0) by (nonlinear_arith);
            }
            lemma_whole_way_up(d, percent);
        } else {
            lemma_whole_way_down(d, percent);
        }
        lemma_share(diff, k);
        lemma_plus_commutes(d, part);
        lemma_plus_commutes(d, diff);
        lemma_plus_commutes(d, zero(false));
        lemma_plus_zero(d, zero(false));
        if d.scaled() < t.scaled() {
            lemma_plus_keeps_order(zero(false), part, d);
            lemma_plus_keeps_order(part, diff, d);
        } else {
            lemma_plus_keeps_order(part, zero(false), d);
            lemma_plus_keeps_order(diff, part, d);
        }
        lemma_rank_order(d, t);
        lemma_rank_order(d, next);
        lemma_rank_order(next, t);
    }
}

/// A number less itself is nothing, and nothing is close.
proof fn lemma_even(a: Single, b: Single)
    requires
        a.is_finite(),
        b.is_finite(),
        a.scaled() == b.scaled(),
    ensures
        size_of(a.minus_spec(b)).below_spec(hundredths(40)),
{
    reveal(Single::minus_spec);
    reveal(Single::plus_spec);
    lemma_negated(b);
    lemma_zero_rounds(1, false);
    lemma_zero_rounds(1, true);
    lemma_hundredths(40);
    lemma_negated(zero(true));
    lemma_negated(zero(false));
}

// ---------------------------------------------------------------------------
// Pace
// ---------------------------------------------------------------------------

/// `x * y` is close to `a * b` where `x` is close to `a` and `y` to `b`.
pub proof fn lemma_products_close(x: int, y: int, a: int, b: int, e: int, f: int, m: int, n: int)
    requires
        abs(x - a) <= e,
        abs(y - b) <= f,
        abs(x) <= m,
        abs(b) <= n,
    ensures
        abs(x * y - a * b) <= m * f + e * n,
{
    assert(x * y - a * b == x * (y - b) + (x - a) * b) by (nonlinear_arith);
    let (p, q) = (y - b, x - a);
    assert(abs(x * p) <= m * f) by (nonlinear_arith)
        requires
            abs(x) <= m,
            abs(p) <= f,
    ;
    assert(abs(q * b) <= e * n) by (nonlinear_arith)
        requires
            abs(q) <= e,
            abs(b) <= n,
    ;
}

/// Going from one number toward another, with a share `keep` of the distance
/// left: how far that is from exact.
proof fn lemma_approach(from: Single, to: Single, keep: Single)
    requires
        from.is_finite(),
        to.is_finite(),
        0 <= from.scaled() <= 100 * unit(),
        0 <= to.scaled() <= 100 * unit(),
        in_unit(keep),
    ensures
        ({
            let next = from.plus_spec(
                to.minus_spec(from).times_spec(of_bits(ONE).minus_spec(keep)),
            );
            &&& next.is_finite()
            &&& 10_000 * abs(
                next.scaled() * unit() - (to.scaled() * unit() - (to.scaled() - from.scaled())
                    * keep.scaled()),
            ) <= unit() * unit()
        }),
{
    let (u, e) = (unit(), fine());
    let (d, t, z) = (from.scaled(), to.scaled(), keep.scaled());
    let diff = to.minus_spec(from);
    let k = of_bits(ONE).minus_spec(keep);
    let part = diff.times_spec(k);
    let next = from.plus_spec(part);
    lemma_units();
    lemma_one_scaled();
    lemma_sign(keep);
    lemma_rank_order(keep, of_bits(ONE));
    lemma_complement(keep);
    lemma_sign(k);
    lemma_rank_order(k, of_bits(ONE));
    lemma_minus_error(to, from);
    lemma_minus_error(of_bits(ONE), keep);
    let (x, y) = (diff.scaled(), k.scaled());
    assert(abs(x - (t - d)) <= 101 * e);
    assert(abs(y - (u - z)) <= 2 * e);
    assert(abs(x) <= 101 * u);
    assert(abs(x * y) <= 101 * u * u && 101 * u * u <= 0x100_0000_0000 * u * u) by (nonlinear_arith)
        requires
            abs(x) <= 101 * u,
            0 <= y <= u,
    ;
    lemma_times_error(diff, k);
    lemma_products_close(x, y, t - d, u - z, 101 * e, 2 * e, 101 * u, u);
    let p = part.scaled();
    let w = x * y;
    assert(0x80_0000 * (101 * (e * u)) == 101 * u * u) by (nonlinear_arith)
        requires
            u == 0x80_0000 * e,
    ;
    assert((101 * u) * (2 * e) + (101 * e) * u == 303 * (e * u)) by (nonlinear_arith);
    assert(u <= e * u) by (nonlinear_arith)
        requires
            e >= 1,
            u > 0,
    ;
    assert(abs(p * u - w) <= 102 * (e * u));
    assert(abs(p) <= 102 * u) by (nonlinear_arith)
        requires
            abs(p * u - w) <= 102 * (e * u),
            abs(w) <= 101 * u * u,
            102 * e <= u,
            u > 0,
    ;
    lemma_plus_error(from, part);
    let r = next.scaled();
    assert(abs(r - (d + p)) <= 203 * e);
    assert(abs(r * u - (d * u + p * u)) <= 203 * (e * u)) by (nonlinear_arith)
        requires
            abs(r - (d + p)) <= 203 * e,
            u > 0,
    ;
    assert((t - d) * (u - z) + d * u == t * u - (t - d) * z) by (nonlinear_arith);
    assert(u * u == 0x80_0000 * (e * u)) by (nonlinear_arith)
        requires
            u == 0x80_0000 * e,
    ;
}

/// The pace of the level: unless it is within 0.4 percent of the percentage
/// and snaps to it, what is left of the distance after a frame is `keep` times
/// what it was, within a ten-thousandth of a percent.
pub proof fn law_the_level_keeps_its_share_of_the_distance(
    display: Single,
    percent: int,
    keep: Single,
)
    requires
        display.is_finite(),
        0 <= display.scaled() <= 100 * pow2(149),
        0 <= percent <= 100,
        in_unit(keep),
    ensures
        ({
            let one = pow2(149) as int;
            let left = percent * one - glided(display, percent, keep).scaled();
            let before = percent * one - display.scaled();
            &&& 10 * abs(before) >= 4 * one + one / 1000 ==> 10_000 * abs(
                left * one - before * keep.scaled(),
            ) <= one * one
            &&& 10 * abs(before) <= 4 * one - one / 1000 ==> left == 0
        }),
{
    let (u, e) = (unit(), fine());
    lemma_units();
    lemma_signed_exact(percent);
    assert(0 <= percent * u <= 100 * u) by (nonlinear_arith)
        requires
            0 <= percent <= 100,
            u > 0,
    ;
    let t = single_of(percent);
    let diff = t.minus_spec(display);
    lemma_approach(display, t, keep);
    lemma_minus_error(t, display);
    lemma_sign(diff);
    lemma_negated(diff);
    let size = size_of(diff);
    assert(size.scaled() == abs(diff.scaled()));
    lemma_hundredth(40);
    lemma_rank_order(size, hundredths(40));
    let r = glided(display, percent, keep).scaled();
    let (a, b) = (t.scaled(), (t.scaled() - display.scaled()) * keep.scaled());
    assert((a - r) * u - b == -(r * u - (a * u - b))) by (nonlinear_arith);
}

/// A number of hundredths is what it says, nearly.
pub proof fn lemma_hundredth(n: int)
    requires
        0 <= n <= 200,
    ensures
        hundredths(n).is_finite(),
        abs(100 * hundredths(n).scaled() - n * unit()) <= (n + 1) * fine(),
{
    let (u, e) = (unit(), fine());
    lemma_units();
    lemma_signed_exact(n);
    lemma_signed_exact(100);
    let (a, c) = (single_of(n), single_of(100));
    lemma_sign(c);
    let r = hundredths(n).scaled();
    assert(0 <= (n * u) * u <= 200 * (u * u) && 200 * (u * u) <= 0x100_0000_0000 * u * (100 * u))
        by (nonlinear_arith)
        requires
            0 <= n <= 200,
            u > 0,
    ;
    lemma_over_error(a, c);
    let r = a.over_spec(c).scaled();
    assert(r * (100 * u) - (n * u) * u == (100 * r - n * u) * u) by (nonlinear_arith);
    let (x, y) = (100 * r - n * u, n * u);
    assert(0x80_0000 * abs(x) <= y + 0x80_0000 * 100) by (nonlinear_arith)
        requires
            0x80_0000 * abs(x * u) <= y * u + 0x80_0000 * (100 * u),
            u > 0,
            y >= 0,
    ;
    assert(n * u == 0x80_0000 * (n * e)) by (nonlinear_arith)
        requires
            u == 0x80_0000 * e,
    ;
    assert((n + 1) * e == n * e + e) by (nonlinear_arith);
}

/// A time over `n` hundredths of a second.
proof fn lemma_rate(dt: Single, n: int)
    requires
        11 <= n <= 26,
        dt.is_finite(),
        0 <= 10 * dt.scaled() <= unit() + 10 * fine(),
    ensures
        dt.over_spec(hundredths(n)).is_finite(),
        abs(n * dt.over_spec(hundredths(n)).scaled() - 100 * dt.scaled()) <= 127 * fine(),
        0 <= dt.over_spec(hundredths(n)).scaled() <= unit(),
{
    let (u, e) = (unit(), fine());
    lemma_units();
    lemma_hundredth(n);
    let (c, x) = (hundredths(n), dt.scaled());
    let z = c.scaled();
    assert(n * u >= 11 * u && n * u <= 26 * u && (n + 1) * e <= 27 * e) by (nonlinear_arith)
        requires
            11 <= n <= 26,
            u > 0,
            e > 0,
    ;
    lemma_sign(c);
    assert(10 * z >= u && z <= u);
    assert(0 <= x * u && x * u <= 0x100_0000_0000 * u * z) by (nonlinear_arith)
        requires
            0 <= x <= u,
            10 * z >= u,
            u > 0,
    ;
    lemma_over_error(dt, c);
    lemma_over_rounds(dt, c);
    let q = dt.over_spec(c).scaled();
    lemma_rounding_places(dt.over_spec(c), x * u, z, dt.is_negative());
    lemma_sign(dt.over_spec(c));
    assert(q >= 0);
    // q z is nearly x u, and 100 z nearly n u.
    assert(abs(q * z - x * u) <= (e * u)) by (nonlinear_arith)
        requires
            0x80_0000 * abs(q * z - x * u) <= x * u + 0x80_0000 * z,
            10 * x <= u + 10 * e,
            z <= u,
            u == 0x80_0000 * e,
            e >= 0x1_0000_0000,
            x >= 0,
            q * z - x * u == q * z - x * u,
    ;
    assert(q <= u) by (nonlinear_arith)
        requires
            abs(q * z - x * u) <= e * u,
            10 * x <= u + 10 * e,
            100 * z >= n * u - 27 * e,
            n >= 11,
            u == 0x80_0000 * e,
            e > 0,
            q >= 0,
    ;
    let s = 100 * z - n * u;
    assert(q * (100 * z) == 100 * (q * z)) by (nonlinear_arith);
    assert(q * (100 * z) == (n * q) * u + q * s) by (nonlinear_arith)
        requires
            s == 100 * z - n * u,
    ;
    assert(abs(q * s) <= 27 * (e * u)) by (nonlinear_arith)
        requires
            0 <= q <= u,
            abs(s) <= 27 * e,
    ;
    let w = n * q - 100 * x;
    assert(w * u == (n * q) * u - 100 * (x * u)) by (nonlinear_arith)
        requires
            w == n * q - 100 * x,
    ;
    assert(abs(w * u) <= 127 * (e * u));
    assert(abs(w) <= 127 * e) by (nonlinear_arith)
        requires
            abs(w * u) <= 127 * (e * u),
            u > 0,
    ;
}

/// The smaller of two whole numbers.
pub open spec fn least(a: int, b: int) -> int {
    if a < b {
        a
    } else {
        b
    }
}

pub open spec fn most(a: int, b: int) -> int {
    if a < b {
        b
    } else {
        a
    }
}

/// A number from 0 to 1, in steps.
pub proof fn lemma_in_unit(x: Single)
    ensures
        in_unit(x) ==> 0 <= x.scaled() <= unit(),
        x.is_finite() && 0 < x.scaled() <= unit() ==> in_unit(x),
{
    lemma_one_scaled();
    lemma_sign(x);
    lemma_units();
    if x.is_finite() {
        lemma_rank_order(x, of_bits(ONE));
    }
}

/// A number from 0 to 1 that rises or falls by `dt` over `n` hundredths.
proof fn lemma_rise_and_fall(x: Single, dt: Single, n: int)
    requires
        in_unit(x),
        11 <= n <= 26,
        dt.is_finite(),
        0 <= 10 * dt.scaled() <= unit() + 10 * fine(),
    ensures
        ({
            let u = unit();
            let q = dt.over_spec(hundredths(n));
            let up = x.plus_spec(q).smaller(of_bits(ONE));
            let down = x.minus_spec(q);
            let (m, t) = (n * x.scaled(), 100 * dt.scaled());
            &&& 10_000 * abs(n * up.scaled() - least(m + t, n * u)) <= n * u
            &&& 10_000 * abs(n * down.scaled() - (m - t)) <= n * u
            &&& 10_000 * abs(n * down.larger(zero(false)).scaled() - most(m - t, 0)) <= n * u
        }),
{
    let (u, e) = (unit(), fine());
    lemma_units();
    lemma_one_scaled();
    lemma_in_unit(x);
    lemma_rate(dt, n);
    let (one, none) = (of_bits(ONE), zero(false));
    lemma_sign(none);
    let q = dt.over_spec(hundredths(n));
    lemma_plus_error(x, q);
    lemma_minus_error(x, q);
    lemma_rank_order(x.plus_spec(q), one);
    lemma_rank_order(x.minus_spec(q), none);
    let (v, w) = (x.scaled(), q.scaled());
    let (a, b) = (x.plus_spec(q).scaled(), x.minus_spec(q).scaled());
    assert(abs(n * a - (n * v + n * w)) <= 100 * e && abs(n * b - (n * v - n * w)) <= 100 * e)
        by (nonlinear_arith)
        requires
            abs(a - (v + w)) <= 3 * e,
            abs(b - (v - w)) <= 3 * e,
            11 <= n <= 26,
            e > 0,
    ;
    assert(n * u >= 11 * u && (a <= u ==> n * a <= n * u) && (a >= u ==> n * a >= n * u) && (b <= 0
        ==> n * b <= 0) && (b >= 0 ==> n * b >= 0) && n * 0 == 0) by (nonlinear_arith)
        requires
            11 <= n <= 26,
            u > 0,
    ;
}

/// The bar comes and goes at a steady pace, whatever the length of a frame: it
/// fades in within 0.11 s and out within 0.22 s, pops out within 0.26 s and
/// back in within 0.2 s. In a frame of `dt` seconds each of them moves by `dt`
/// over its time and stops at the end, within a ten-thousandth.
pub proof fn law_the_bar_comes_and_goes_at_a_steady_pace(alpha: Single, pop: Single, dt: Single)
    requires
        in_unit(alpha),
        in_unit(pop),
        dt.is_finite(),
        0 <= dt.scaled(),
        10 * dt.scaled() <= pow2(149) + pow2(149) as int / 1_000_000,
    ensures
        ({
            let one = pow2(149) as int;
            let (a, p, t) = (alpha.scaled(), pop.scaled(), 100 * dt.scaled());
            &&& 10_000 * abs(11 * faded_in(alpha, dt).scaled() - least(11 * a + t, 11 * one)) <= 11
                * one
            &&& 10_000 * abs(22 * faded_out(alpha, dt).scaled() - (22 * a - t)) <= 22 * one
            &&& 10_000 * abs(26 * popped_out(pop, dt).scaled() - least(26 * p + t, 26 * one)) <= 26
                * one
            &&& 10_000 * abs(20 * popped_in(pop, dt).scaled() - most(20 * p - t, 0)) <= 20 * one
        }),
{
    lemma_units();
    lemma_rise_and_fall(alpha, dt, 11);
    lemma_rise_and_fall(alpha, dt, 22);
    lemma_rise_and_fall(pop, dt, 26);
    lemma_rise_and_fall(pop, dt, 20);
}

/// The peak marker sinks by 0.4 a second until it meets the meter, and goes up
/// with it at once, within a ten-thousandth.
pub proof fn law_the_peak_sinks_at_a_steady_pace(peak: Single, meter: Single, dt: Single)
    requires
        in_unit(peak),
        in_unit(meter),
        dt.is_finite(),
        0 <= dt.scaled(),
        10 * dt.scaled() <= pow2(149) + pow2(149) as int / 1_000_000,
    ensures
        100 * abs(
            100 * sunk(peak, meter, dt).scaled() - most(
                100 * peak.scaled() - 40 * dt.scaled(),
                100 * meter.scaled(),
            ),
        ) <= pow2(149),
{
    let (u, e) = (unit(), fine());
    lemma_units();
    lemma_in_unit(peak);
    lemma_in_unit(meter);
    lemma_rank_order(peak, meter);
    lemma_hundredth(40);
    let (c, x) = (hundredths(40), dt.scaled());
    let z = c.scaled();
    assert(0 <= z <= u && abs(x * z) == x * z && x * z <= u * u && u * u <= 0x100_0000_0000 * u * u)
        by (nonlinear_arith)
        requires
            0 <= x <= u,
            abs(100 * z - 40 * u) <= 41 * e,
            u == 0x80_0000 * e,
            e > 0,
    ;
    lemma_times_error(dt, c);
    let step = dt.times_spec(c);
    let p = step.scaled();
    // 100 p u is nearly 100 x z, which is nearly 40 x u.
    let (s, w) = (100 * z - 40 * u, 100 * p - 40 * x);
    assert(100 * (x * z) == 40 * (x * u) + x * s) by (nonlinear_arith)
        requires
            s == 100 * z - 40 * u,
    ;
    assert(abs(x * s) <= 41 * (e * u)) by (nonlinear_arith)
        requires
            0 <= x <= u,
            abs(s) <= 41 * e,
    ;
    assert(w * u == 100 * (p * u) - 40 * (x * u)) by (nonlinear_arith)
        requires
            w == 100 * p - 40 * x,
    ;
    assert(u * u == 0x80_0000 * (e * u)) by (nonlinear_arith)
        requires
            u == 0x80_0000 * e,
    ;
    assert(u <= e * u) by (nonlinear_arith)
        requires
            e >= 1,
            u > 0,
    ;
    assert(abs(w * u) <= 300 * (e * u));
    assert(abs(w) <= 300 * e) by (nonlinear_arith)
        requires
            abs(w * u) <= 300 * (e * u),
            u > 0,
    ;
    lemma_minus_error(peak, step);
    lemma_rank_order(peak.minus_spec(step), meter);
}

/// The meter snaps up to the signal and falls back slowly: where the signal is
/// lower, what is left of the distance after a frame is `keep` times what it
/// was, within a ten-thousandth.
pub proof fn law_the_meter_keeps_its_share_of_the_distance(
    meter: Single,
    level: Single,
    keep: Single,
)
    requires
        in_unit(meter),
        in_unit(level),
        in_unit(keep),
    ensures
        ({
            let one = pow2(149) as int;
            let left = fallen(meter, level, keep).scaled() - level.scaled();
            let before = meter.scaled() - level.scaled();
            &&& before < 0 ==> left == 0
            &&& before >= 0 ==> 10_000 * abs(left * one - before * keep.scaled()) <= one * one
        }),
{
    lemma_units();
    lemma_in_unit(meter);
    lemma_in_unit(level);
    lemma_rank_order(meter, level);
    lemma_approach(meter, level, keep);
    let u = unit();
    let (r, a, d, z) = (
        fallen(meter, level, keep).scaled(),
        level.scaled(),
        meter.scaled(),
        keep.scaled(),
    );
    assert((r - a) * u - (d - a) * z == r * u - (a * u - (a - d) * z)) by (nonlinear_arith);
}

/// A frame accounts for the time that really passed, but for at least a
/// thousandth and at most a tenth of a second, within a millionth of a second.
pub proof fn law_a_frame_accounts_for_the_time_that_passed(nanos: int)
    requires
        nanos >= 0,
    ensures
        is_close(
            frame_seconds(nanos),
            limited(nanos, 1_000_000, 100_000_000),
            1_000_000_000,
            1_000_000,
        ),
{
    let (u, e) = (unit(), fine());
    lemma_units();
    lemma_thousandth(1);
    lemma_thousandth(100);
    let (lo, hi) = (thousandths(1), thousandths(100));
    lemma_rank_order(lo, hi);
    let dt = frame_seconds(nanos);
    if nanos >= 1_000_000_000 {
        lemma_long_frame(nanos);
    } else {
        let c = single_of(1_000_000_000);
        let n = nanos as int;
        lemma_single_of_exact(0);
        lemma_billion();
        lemma_sign(c);
        lemma_single_error(n);
        let x = single_of(n);
        let v = x.scaled();
        assert(abs(v * u) <= 2_000_000_000 * (u * u) && 2_000_000_000 * (u * u)
            <= 0x100_0000_0000 * u * (1_000_000_000 * u)) by (nonlinear_arith)
            requires
                abs(v) <= 2_000_000_000 * u,
                u > 0,
        ;
        lemma_over_error(x, c);
        let q = x.over_spec(c);
        let p = q.scaled();
        assert(p * (1_000_000_000 * u) - v * u == (1_000_000_000 * p - v) * u) by (nonlinear_arith);
        let g = 1_000_000_000 * p - v;
        assert(abs(v * u) == abs(v) * u) by (nonlinear_arith)
            requires
                u > 0,
        ;
        assert(0x80_0000 * abs(g) <= abs(v) + 0x80_0000 * 1_000_000_000) by (nonlinear_arith)
            requires
                0x80_0000 * abs(g * u) <= abs(v) * u + 0x80_0000 * (1_000_000_000 * u),
                u > 0,
        ;
        assert(n * e <= 1_000_000_000 * e && n * u <= 1_000_000_000 * u) by (nonlinear_arith)
            requires
                n <= 1_000_000_000,
                e > 0,
                u > 0,
        ;
        // Whole seconds add nothing.
        let sum = zero(false).plus_spec(q);
        lemma_plus_zero(q, zero(false));
        lemma_sign(zero(false));
        lemma_plus_error(zero(false), q);
        lemma_rank_order(sum, q);
        assert(nanos / 1_000_000_000 == 0 && nanos % 1_000_000_000 == nanos);
        assert(seconds(nanos) == sum);
        lemma_rank_order(sum, lo);
        lemma_rank_order(hi, sum);
        let k = limited(n, 1_000_000, 100_000_000);
        assert((n < 1_000_000 ==> n * u <= 1_000_000 * u) && (n > 100_000_000 ==> n * u
            >= 100_000_000 * u) && (n >= 1_000_000 ==> n * u >= 1_000_000 * u) && (n <= 100_000_000
            ==> n * u <= 100_000_000 * u)) by (nonlinear_arith)
            requires
                u > 0,
        ;
        assert(abs(1_000_000_000 * p - n * u) <= 3_000_000_000 * e);
        let r = dt.scaled();
        assert(k * u == if n < 1_000_000 {
            1_000_000 * u
        } else if n > 100_000_000 {
            100_000_000 * u
        } else {
            n * u
        });
        assert(r == if p < lo.scaled() {
            lo.scaled()
        } else if p > hi.scaled() {
            hi.scaled()
        } else {
            p
        });
        assert(abs(1_000_000_000 * r - k * u) <= 4_000_000_000 * e);
    }
}

proof fn lemma_thousandth(n: int)
    requires
        0 <= n <= 100,
    ensures
        thousandths(n).is_finite(),
        abs(1000 * thousandths(n).scaled() - n * unit()) <= 101 * fine(),
{
    let (u, e) = (unit(), fine());
    lemma_units();
    lemma_signed_exact(n);
    lemma_signed_exact(1000);
    let (a, c) = (single_of(n), single_of(1000));
    lemma_sign(c);
    assert(0 <= (n * u) * u <= 100 * (u * u) && 100 * (u * u) <= 0x100_0000_0000 * u * (1000 * u)
        && 0 <= n * u <= 100 * u) by (nonlinear_arith)
        requires
            0 <= n <= 100,
            u > 0,
    ;
    lemma_over_error(a, c);
    let r = a.over_spec(c).scaled();
    assert(r * (1000 * u) - (n * u) * u == (1000 * r - n * u) * u) by (nonlinear_arith);
    let (x, y) = (1000 * r - n * u, n * u);
    assert(0x80_0000 * abs(x) <= y + 0x80_0000 * 1000) by (nonlinear_arith)
        requires
            0x80_0000 * abs(x * u) <= y * u + 0x80_0000 * (1000 * u),
            u > 0,
            y >= 0,
    ;
}

/// An integer in single precision is off by at most one part in 2^23.
proof fn lemma_single_error(n: int)
    requires
        0 <= n <= 1_000_000_000,
    ensures
        single_of(n).is_finite(),
        abs(single_of(n).scaled() - n * unit()) <= n * fine() + 1,
        abs(single_of(n).scaled()) <= 2_000_000_000 * unit(),
{
    let (u, e) = (unit(), fine());
    lemma_units();
    reveal(single_of);
    assert(0 <= n * u <= 1_000_000_000 * u && n * u == 0x80_0000 * (n * e) && n * e
        <= 1_000_000_000 * e) by (nonlinear_arith)
        requires
            0 <= n <= 1_000_000_000,
            u == 0x80_0000 * e,
            e > 0,
    ;
    lemma_rounding_exists(n * u, 1, false);
    lemma_room(n * u, 1);
    lemma_rounding_error(single_of(n), n * u, 1, false);
}

/// A frame of 16 ms counts as one: the number of frames in a time is the time
/// over that, within a thousandth.
pub proof fn law_frames_are_counted_by_16_milliseconds(dt: Single)
    requires
        dt.is_finite(),
        0 <= dt.scaled(),
        10 * dt.scaled() <= pow2(149) + pow2(149) as int / 1_000_000,
    ensures
        ({
            let one = pow2(149) as int;
            1000 * abs(16 * frame_count(dt).scaled() - 1000 * dt.scaled()) <= 16 * one
        }),
{
    let (u, e) = (unit(), fine());
    lemma_units();
    lemma_thousandth(16);
    let (c, x) = (thousandths(16), dt.scaled());
    let z = c.scaled();
    lemma_sign(c);
    assert(100 * z >= u && z <= u);
    assert(0 <= x * u && x * u <= 0x100_0000_0000 * u * z) by (nonlinear_arith)
        requires
            0 <= x <= u,
            100 * z >= u,
            u > 0,
    ;
    lemma_over_error(dt, c);
    let q = frame_count(dt).scaled();
    assert(abs(q * z - x * u) <= e * u) by (nonlinear_arith)
        requires
            0x80_0000 * abs(q * z - x * u) <= x * u + 0x80_0000 * z,
            2 * x <= u,
            z <= u,
            u == 0x80_0000 * e,
            e >= 0x1_0000_0000,
            x >= 0,
    ;
    assert(abs(q) <= 100 * u) by (nonlinear_arith)
        requires
            abs(q * z - x * u) <= e * u,
            2 * x <= u,
            x >= 0,
            100 * z >= u,
            u == 0x80_0000 * e,
            e > 0,
    ;
    let s = 1000 * z - 16 * u;
    assert(1000 * (q * z) == (16 * q) * u + q * s) by (nonlinear_arith)
        requires
            s == 1000 * z - 16 * u,
    ;
    assert(abs(q * s) <= 10_100 * (e * u)) by (nonlinear_arith)
        requires
            abs(q) <= 100 * u,
            abs(s) <= 101 * e,
    ;
    let w = 16 * q - 1000 * x;
    assert(w * u == (16 * q) * u - 1000 * (x * u)) by (nonlinear_arith)
        requires
            w == 16 * q - 1000 * x,
    ;
    assert(abs(w) <= 12_000 * e) by (nonlinear_arith)
        requires
            abs(w * u) <= 12_000 * (e * u),
            u > 0,
    ;
}

/// A frame moves everything toward where it belongs. The level on show goes
/// toward the channel's percentage and keeps `keep_level` of the distance; the
/// meter goes up with the signal and falls toward it with `keep_meter` of the
/// distance left, and its peak is never below it. A bar whose time is not over
/// gets no fainter and no smaller and is drawn; one whose time is over gets no
/// stronger and no larger, and is gone once it has faded out. All stay between
/// 0 and 1, and neither the settings nor the channel are touched.
pub proof fn law_a_frame_moves_everything_toward_its_place(
    before: AppState,
    input: FrameInput,
    visible: bool,
    after: AppState,
)
    requires
        before.is_frame(input, visible, after),
        before.display_pct.is_finite(),
        0 <= before.display_pct.scaled() <= 100 * pow2(149),
        0 <= before.channel.percent <= 100,
        in_unit(before.meter) && in_unit(before.meter_peak),
        in_unit(before.anim_alpha) && in_unit(before.pop),
        in_unit(input.level) && in_unit(input.keep_meter) && in_unit(input.keep_level),
        input.dt.is_finite(),
        0 <= input.dt.scaled(),
    ensures
        ({
            let one = pow2(149) as int;
            let to = before.channel.percent * one;
            let (from, shown) = (before.display_pct.scaled(), after.display_pct.scaled());
            &&& from <= to ==> from <= shown <= to
            &&& to <= from ==> to <= shown <= from
            &&& 10 * abs(to - from) >= 4 * one + one / 1000 ==> 10_000 * abs(
                (to - shown) * one - (to - from) * input.keep_level.scaled(),
            ) <= one * one
        }),
        in_unit(after.meter) && in_unit(after.meter_peak),
        in_unit(after.anim_alpha) && in_unit(after.pop),
        after.meter.at_most_spec(after.meter_peak),
        before.meter.below_spec(input.level) ==> after.meter == input.level,
        input.level.at_most_spec(before.meter) ==> after.meter.at_most_spec(before.meter) && 10_000
            * abs(
            (after.meter.scaled() - input.level.scaled()) * pow2(149) - (before.meter.scaled()
                - input.level.scaled()) * input.keep_meter.scaled(),
        ) <= pow2(149) * pow2(149),
        !before.is_expired(input) ==> visible && before.anim_alpha.at_most_spec(after.anim_alpha)
            && before.pop.at_most_spec(after.pop),
        before.is_expired(input) ==> after.anim_alpha.at_most_spec(before.anim_alpha)
            && after.pop.at_most_spec(before.pop),
        !visible ==> before.is_expired(input) && after.anim_alpha.scaled() == 0
            && after.pop.scaled() == 0 && !after.animating && after.hide_at is None,
        visible ==> after.animating == before.animating,
        after.settings == before.settings && after.channel == before.channel,
        after.last_frame == input.now,
{
    lemma_sign(input.dt);
    lemma_frame_level(before.display_pct, before.channel.percent as int, input.keep_level);
    lemma_frame_meter(
        before.meter,
        before.meter_peak,
        input.level,
        input.keep_meter,
        input.dt,
    );
    lemma_frame_pace(before.anim_alpha, before.pop, input.dt);
}

/// Where a frame takes the level on show.
proof fn lemma_frame_level(from: Single, percent: int, keep: Single)
    requires
        from.is_finite(),
        0 <= from.scaled() <= 100 * pow2(149),
        0 <= percent <= 100,
        in_unit(keep),
    ensures
        ({
            let one = pow2(149) as int;
            let to = percent * one;
            let shown = glided(from, percent, keep).scaled();
            &&& from.scaled() <= to ==> from.scaled() <= shown <= to
            &&& to <= from.scaled() ==> to <= shown <= from.scaled()
            &&& 10 * abs(to - from.scaled()) >= 4 * one + one / 1000 ==> 10_000 * abs(
                (to - shown) * one - (to - from.scaled()) * keep.scaled(),
            ) <= one * one
        }),
{
    law_the_level_glides_toward_the_percentage(from, percent, keep);
    law_the_level_keeps_its_share_of_the_distance(from, percent, keep);
}

/// Where a frame takes the meter and its peak.
proof fn lemma_frame_meter(meter: Single, peak: Single, level: Single, keep: Single, dt: Single)
    requires
        in_unit(meter) && in_unit(peak) && in_unit(level) && in_unit(keep),
        dt.is_finite(),
        dt.rank() >= 0,
    ensures
        ({
            let after = fallen(meter, level, keep);
            let top = sunk(peak, after, dt);
            &&& in_unit(after) && in_unit(top)
            &&& after.at_most_spec(top)
            &&& meter.below_spec(level) ==> after == level
            &&& level.at_most_spec(meter) ==> after.at_most_spec(meter) && 10_000 * abs(
                (after.scaled() - level.scaled()) * pow2(149) - (meter.scaled() - level.scaled())
                    * keep.scaled(),
            ) <= pow2(149) * pow2(149)
        }),
{
    law_the_meters_stay_in_range(meter, peak, level, keep, dt);
    law_the_meters_stay_in_range(fallen(meter, level, keep), peak, level, keep, dt);
    law_the_meter_keeps_its_share_of_the_distance(meter, level, keep);
    lemma_in_unit(meter);
    lemma_in_unit(level);
    lemma_rank_order(level, meter);
}

/// Where a frame takes the opacity and the size of a bar.
proof fn lemma_frame_pace(alpha: Single, pop: Single, dt: Single)
    requires
        in_unit(alpha) && in_unit(pop),
        dt.is_finite(),
        dt.rank() >= 0,
    ensures
        in_unit(faded_in(alpha, dt)) && in_unit(popped_out(pop, dt)) && in_unit(popped_in(pop, dt)),
        !faded_out(alpha, dt).at_most_spec(zero(false)) ==> in_unit(faded_out(alpha, dt)),
        alpha.at_most_spec(faded_in(alpha, dt)) && pop.at_most_spec(popped_out(pop, dt)),
        faded_out(alpha, dt).at_most_spec(alpha) && popped_in(pop, dt).at_most_spec(pop),
        in_unit(zero(false)) && zero(false).scaled() == 0,
        zero(false).at_most_spec(alpha) && zero(false).at_most_spec(pop),
{
    law_the_animation_stays_in_range(alpha, pop, dt);
    lemma_sign(zero(false));
    lemma_comes_and_goes(alpha, dt, 11);
    lemma_comes_and_goes(alpha, dt, 22);
    lemma_comes_and_goes(pop, dt, 26);
    lemma_comes_and_goes(pop, dt, 20);
}

/// Adding a time over a part of a second makes nothing smaller, and taking it
/// away nothing larger.
proof fn lemma_comes_and_goes(x: Single, dt: Single, n: int)
    requires
        in_unit(x),
        dt.is_finite(),
        dt.rank() >= 0,
        0 < n <= 100,
    ensures
        ({
            let q = dt.over_spec(hundredths(n));
            &&& x.at_most_spec(x.plus_spec(q).smaller(of_bits(ONE)))
            &&& x.minus_spec(q).at_most_spec(x)
            &&& x.minus_spec(q).larger(zero(false)).at_most_spec(x)
        }),
{
    let q = dt.over_spec(hundredths(n));
    lemma_part(dt, n);
    lemma_sinks(x, q);
    lemma_rise(x, q);
    if q.is_finite() {
        lemma_plus_commutes(x, q);
        lemma_plus_commutes(x, zero(false));
        lemma_plus_keeps_order(zero(false), q, x);
        lemma_plus_zero(x, zero(false));
    } else {
        reveal(Single::plus_spec);
    }
}

} // verus!
