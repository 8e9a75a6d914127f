//! What the scales promise: a gain as a percentage, a signal on the meter, the
//! easing of the bar's way, decibels in words, and turns of the wheel.

use crate::animation_laws::{lemma_in_unit, lemma_products_close};
use crate::frame_laws::lemma_none_over;
use crate::motion::in_unit;
use crate::precision::{
    fine, lemma_minus_error, lemma_over_error, lemma_times_error, lemma_to_int, lemma_units, unit,
};
use crate::rounding::{
    lemma_exact, lemma_negated, lemma_one_scaled, lemma_over_keeps_order, lemma_plus_rounds,
    lemma_pow2_big, lemma_rank_order, lemma_rounding_order, lemma_rounding_places, lemma_sign,
};
use crate::scale::{
    eased, fraction, law_percent_spans_the_range, lemma_complement, lemma_unit_product,
    meter_position, percent, share, span, tenths, WheelSteps, HUNDRED, SILENCE, TWENTY,
};
use crate::single::{abs, of_bits, zero, Single, ONE};
use vstd::arithmetic::div_mod::lemma_fundamental_div_mod;
use vstd::arithmetic::power2::{lemma2_to64, lemma_pow2_adds, pow2};
use vstd::prelude::*;

verus! {

/// How far along the display range a gain is, before rounding to percent.
proof fn lemma_share_of_range(gain: Single, lo: Single, hi: Single)
    requires
        gain.is_finite(),
        lo.is_finite(),
        hi.is_finite(),
        -60 * unit() <= lo.scaled() <= gain.scaled() <= hi.scaled() <= 12 * unit(),
        hi.scaled() - lo.scaled() >= unit(),
    ensures
        ({
            let q = share(gain, lo, hi);
            let range = hi.scaled() - lo.scaled();
            &&& q.is_finite()
            &&& 0 <= q.scaled() <= 2 * unit()
            &&& abs(q.scaled() * range - (gain.scaled() - lo.scaled()) * unit()) <= 400 * (unit()
                * fine())
        }),
{
    let (u, e) = (unit(), fine());
    let (none, one) = (zero(false), of_bits(ONE));
    lemma_units();
    lemma_one_scaled();
    lemma_sign(none);
    let exact = hi.scaled() - lo.scaled();
    lemma_minus_error(hi, lo);
    lemma_minus_error(gain, lo);
    lemma_rank_order(hi.minus_spec(lo), one);
    let (s, z) = (span(lo, hi), gain.minus_spec(lo));
    assert(abs(s.scaled() - exact) <= 73 * e && s.is_finite() && s.scaled() >= u);
    lemma_sign(s);
    lemma_sign(z);
    // The difference has the sign of the exact one.
    assert(z.scaled() >= 0) by {
        reveal(Single::minus_spec);
        lemma_negated(lo);
        let negative = lemma_plus_rounds(gain, lo.negated());
        lemma_rounding_places(z, gain.scaled() - lo.scaled(), 1, negative);
    }
    lemma_rank_order(none, z);
    let (x, y) = (z.scaled(), s.scaled());
    assert(abs(x * u) == x * u && x * u <= 0x100_0000_0000 * u * y && x * u <= 73 * (u * u))
        by (nonlinear_arith)
        requires
            0 <= x <= 73 * u,
            y >= u,
            u > 0,
    ;
    lemma_over_error(z, s);
    lemma_over_keeps_order(none, z, s);
    lemma_none_over(s);
    let q = z.over_spec(s);
    lemma_rank_order(none, q);
    let p = q.scaled();
    assert(u * u == 0x80_0000 * (u * e)) by (nonlinear_arith)
        requires
            u == 0x80_0000 * e,
    ;
    assert(y <= u * e) by (nonlinear_arith)
        requires
            y <= 74 * u,
            e >= 74,
            u > 0,
    ;
    assert(abs(p * y - x * u) <= 74 * (u * e));
    let g = gain.scaled() - lo.scaled();
    assert(abs(x - g) <= 73 * e);
    assert(p <= 2 * u) by (nonlinear_arith)
        requires
            abs(p * y - x * u) <= 74 * (u * e),
            abs(x - g) <= 73 * e,
            abs(y - exact) <= 73 * e,
            0 <= g <= exact,
            exact >= u,
            u == 0x80_0000 * e,
            e > 0,
            p >= 0,
    ;
    assert(abs(p * exact - p * y) <= 146 * (u * e)) by (nonlinear_arith)
        requires
            abs(y - exact) <= 73 * e,
            0 <= p <= 2 * u,
    ;
    assert(abs(x * u - g * u) <= 73 * (u * e)) by (nonlinear_arith)
        requires
            abs(x - g) <= 73 * e,
            u > 0,
    ;
}

/// The percentage of a gain is its part of the display range, to the nearest
/// percent: nowhere is it off by more than 0.51 percent, for ranges of a
/// decibel or more. Beyond the range it is 0 or 100.
pub proof fn law_the_percentage_is_the_part_of_the_range(gain: Single, lo: Single, hi: Single)
    requires
        gain.is_finite(),
        lo.is_finite(),
        hi.is_finite(),
        -60 * pow2(149) <= lo.scaled(),
        hi.scaled() <= 12 * pow2(149),
        hi.scaled() - lo.scaled() >= pow2(149),
    ensures
        ({
            let range = hi.scaled() - lo.scaled();
            let p = percent(gain, lo, hi);
            &&& 0 <= p <= 100
            &&& lo.scaled() <= gain.scaled() <= hi.scaled() ==> 100 * abs(
                p * range - 100 * (gain.scaled() - lo.scaled()),
            ) <= 51 * range
            &&& gain.scaled() <= lo.scaled() ==> p == 0
            &&& gain.scaled() >= hi.scaled() ==> p == 100
        }),
{
    let (u, e) = (unit(), fine());
    lemma_units();
    let (hundred, one) = (of_bits(HUNDRED), of_bits(ONE));
    lemma_one_scaled();
    lemma_rank_order(gain, lo);
    lemma_rank_order(hi, gain);
    law_percent_spans_the_range(gain, lo, hi);
    lemma_minus_error(hi, lo);
    assert(hi.minus_spec(lo).rank() >= 0x3F80_0000) by {
        reveal(Single::minus_spec);
        lemma_negated(lo);
        let negative = lemma_plus_rounds(hi, lo.negated());
        lemma_exact(one, 1, false);
        lemma_rounding_order(
            one,
            u,
            false,
            hi.minus_spec(lo),
            hi.scaled() - lo.scaled(),
            negative,
            1,
        );
    }
    if lo.scaled() <= gain.scaled() <= hi.scaled() {
        lemma_share_of_range(gain, lo, hi);
        let q = share(gain, lo, hi);
        assert(hundred.step() == 132 && hundred.significand() == 0xC8_0000);
        lemma_pow2_big();
        lemma_pow2_adds(17, 132);
        assert(hundred.scaled() == 100 * u);
        let x = q.scaled();
        assert(abs(x * (100 * u)) == 100 * (x * u) && 100 * (x * u) <= 200 * (u * u) && 200 * (u
            * u) <= 0x100_0000_0000 * u * u) by (nonlinear_arith)
            requires
                0 <= x <= 2 * u,
                u > 0,
        ;
        lemma_times_error(q, hundred);
        let h = q.times_spec(hundred);
        let w = h.scaled();
        assert(w * u - x * (100 * u) == (w - 100 * x) * u) by (nonlinear_arith);
        let g = w - 100 * x;
        assert(abs(g) <= 201 * e) by (nonlinear_arith)
            requires
                0x80_0000 * abs(g * u) <= 200 * (u * u) + 0x80_0000 * u,
                u == 0x80_0000 * e,
                e >= 1,
        ;
        lemma_to_int(h);
        let n = h.to_int(true);
        let p = percent(gain, lo, hi);
        let (range, d) = (hi.scaled() - lo.scaled(), gain.scaled() - lo.scaled());
        lemma_percent_error(n, w, x, range, d);
        // Limiting to 0-100 does not lead away from a part of the range.
        if n < 0 {
            assert(p * range == 0) by (nonlinear_arith)
                requires
                    p == 0,
            ;
            assert(n * range <= -range) by (nonlinear_arith)
                requires
                    n <= -1,
                    range > 0,
            ;
        }
        if n > 100 {
            assert(p * range == 100 * range && n * range >= 101 * range) by (nonlinear_arith)
                requires
                    p == 100,
                    n >= 101,
                    range > 0,
            ;
        }
    }
}

proof fn lemma_percent_error(n: int, w: int, x: int, range: int, d: int)
    requires
        2 * abs(n * unit() - w) <= unit(),
        abs(w - 100 * x) <= 201 * fine(),
        abs(x * range - d * unit()) <= 400 * (unit() * fine()),
        unit() <= range <= 72 * unit(),
    ensures
        100 * abs(n * range - 100 * d) <= 51 * range,
{
    let (u, e) = (unit(), fine());
    lemma_units();
    let r = range;
    assert(2 * abs((n * u) * r - w * r) <= u * r) by (nonlinear_arith)
        requires
            2 * abs(n * u - w) <= u,
            r > 0,
    ;
    assert(abs(w * r - 100 * (x * r)) <= 201 * (e * r)) by (nonlinear_arith)
        requires
            abs(w - 100 * x) <= 201 * e,
            r > 0,
    ;
    assert(u * e <= e * r && u * r == 0x80_0000 * (e * r)) by (nonlinear_arith)
        requires
            u <= r,
            e > 0,
            u == 0x80_0000 * e,
    ;
    assert((n * u) * r == (n * r) * u) by (nonlinear_arith);
    let z = n * r - 100 * d;
    assert(z * u == (n * r) * u - 100 * (d * u)) by (nonlinear_arith)
        requires
            z == n * r - 100 * d,
    ;
    assert(100 * abs(z * u) <= 51 * (u * r));
    assert(100 * abs(z) <= 51 * r) by (nonlinear_arith)
        requires
            100 * abs(z * u) <= 51 * (u * r),
            u > 0,
    ;
}

/// The fraction of the track at a gain is its part of the display range,
/// within a ten-thousandth, for ranges of a decibel or more.
pub proof fn law_the_fraction_is_the_part_of_the_range(gain: Single, lo: Single, hi: Single)
    requires
        gain.is_finite(),
        lo.is_finite(),
        hi.is_finite(),
        -60 * pow2(149) <= lo.scaled() <= gain.scaled() <= hi.scaled() <= 12 * pow2(149),
        hi.scaled() - lo.scaled() >= pow2(149),
    ensures
        ({
            let one = pow2(149) as int;
            let range = hi.scaled() - lo.scaled();
            let f = fraction(gain, lo, hi);
            &&& 0 <= f.scaled() <= one
            &&& 10_000 * abs(f.scaled() * range - (gain.scaled() - lo.scaled()) * one) <= one
                * range
        }),
{
    let (u, e) = (unit(), fine());
    lemma_units();
    lemma_one_scaled();
    lemma_sign(zero(false));
    lemma_share_of_range(gain, lo, hi);
    let q = share(gain, lo, hi);
    lemma_rank_order(zero(false), q);
    lemma_rank_order(q, of_bits(ONE));
    let (range, d, x) = (
        hi.scaled() - lo.scaled(),
        gain.scaled() - lo.scaled(),
        q.scaled(),
    );
    assert(0x80_0000 * (u * e) <= u * range) by (nonlinear_arith)
        requires
            u == 0x80_0000 * e,
            range >= u,
            u > 0,
    ;
    if x > u {
        assert(d * u <= u * range && u * range <= x * range) by (nonlinear_arith)
            requires
                d <= range,
                u < x,
                range > 0,
                u > 0,
        ;
    }
}

/// The meter's scale is in decibels: an amplitude whose logarithm is `log10`
/// lies at 20 times that, and its position is the part of the way from the
/// floor up to 0 dB, within a thousandth. At the floor and below the meter is
/// empty.
pub proof fn law_the_meter_is_a_decibel_scale(amplitude: Single, log10: Single, floor_db: Single)
    requires
        !amplitude.is_nan(),
        !amplitude.at_most_spec(of_bits(SILENCE)),
        log10.is_finite(),
        -5 * pow2(149) <= log10.scaled() <= 5 * pow2(149),
        floor_db.is_finite(),
        -60 * pow2(149) <= floor_db.scaled() <= -(pow2(149) as int),
    ensures
        ({
            let one = pow2(149) as int;
            let (db, floor) = (20 * log10.scaled(), floor_db.scaled());
            let p = meter_position(amplitude, log10, floor_db).scaled();
            &&& 0 <= p <= one
            &&& floor <= db <= 0 ==> 1000 * abs(p * floor + (db - floor) * one) <= -(one * floor)
            &&& db < floor ==> 1000 * p <= one
            &&& db > 0 ==> 1000 * (one - p) <= one
        }),
{
    let (u, e) = (unit(), fine());
    let (twenty, none, one) = (of_bits(TWENTY), zero(false), of_bits(ONE));
    lemma_units();
    lemma_one_scaled();
    lemma_sign(none);
    assert(twenty.step() == 130 && twenty.significand() == 0xA0_0000);
    lemma_pow2_big();
    lemma2_to64();
    lemma_pow2_adds(19, 130);
    assert(twenty.scaled() == 20 * u);
    let l = log10.scaled();
    assert(abs((20 * u) * l) == 20 * (u * abs(l)) && 20 * (u * abs(l)) <= 100 * (u * u) && 100 * (u
        * u) <= 0x100_0000_0000 * u * u) by (nonlinear_arith)
        requires
            abs(l) <= 5 * u,
            u > 0,
    ;
    lemma_times_error(twenty, log10);
    let db = twenty.times_spec(log10);
    let x = db.scaled();
    assert(x * u - (20 * u) * l == (x - 20 * l) * u && u * u == 0x80_0000 * (u * e))
        by (nonlinear_arith)
        requires
            u == 0x80_0000 * e,
    ;
    let g = x - 20 * l;
    assert(abs(g) <= 101 * e) by (nonlinear_arith)
        requires
            0x80_0000 * abs(g * u) <= 100 * (0x80_0000 * (u * e)) + 0x80_0000 * u,
            u > 0,
            e >= 1,
    ;
    lemma_minus_error(db, floor_db);
    let z = db.minus_spec(floor_db);
    let c = floor_db.negated();
    lemma_negated(floor_db);
    lemma_sign(c);
    let (v, k) = (z.scaled(), c.scaled());
    let f = floor_db.scaled();
    assert(abs(v - (20 * l - f)) <= 300 * e);
    assert(abs(v * u) <= 200 * (u * u) && 200 * (u * u) <= 0x100_0000_0000 * u * k)
        by (nonlinear_arith)
        requires
            abs(v) <= 200 * u,
            k >= u,
            u > 0,
    ;
    lemma_over_error(z, c);
    let q = z.over_spec(c);
    let p = q.scaled();
    lemma_rank_order(none, q);
    lemma_rank_order(q, one);
    let r = meter_position(amplitude, log10, floor_db);
    let m = r.scaled();
    assert(k <= u * e) by (nonlinear_arith)
        requires
            k <= 60 * u,
            e >= 60,
            u > 0,
    ;
    assert(abs(p * k - v * u) <= 201 * (u * e));
    let t = 20 * l - f;
    assert(abs(v * u - t * u) <= 300 * (u * e)) by (nonlinear_arith)
        requires
            abs(v - t) <= 300 * e,
            u > 0,
    ;
    assert(abs(p * k - t * u) <= 501 * (u * e));
    assert(1000 * (501 * (u * e)) <= u * k) by (nonlinear_arith)
        requires
            u == 0x80_0000 * e,
            k >= u,
            u > 0,
    ;
    assert(m == if p < 0 {
        0
    } else if p > u {
        u
    } else {
        p
    });
    assert(m * f + t * u == -(m * k - t * u) && u * f == -(u * k)) by (nonlinear_arith)
        requires
            k == -f,
    ;
    if t < 0 {
        assert(t * u <= 0) by (nonlinear_arith)
            requires
                t < 0,
                u > 0,
        ;
        assert(1000 * (p * k) <= u * k);
        assert(1000 * p <= u) by (nonlinear_arith)
            requires
                1000 * (p * k) <= u * k,
                k > 0,
        ;
    } else if 20 * l > 0 {
        assert(t * u >= u * k) by (nonlinear_arith)
            requires
                t >= k,
                u > 0,
        ;
        assert(1000 * (u - p) <= u) by (nonlinear_arith)
            requires
                1000 * (u * k - p * k) <= u * k,
                k > 0,
        ;
    } else {
        assert(0 <= t * u <= u * k) by (nonlinear_arith)
            requires
                0 <= t <= k,
                u > 0,
        ;
        if p < 0 {
            assert(p * k <= 0 && m * k == 0) by (nonlinear_arith)
                requires
                    p < 0,
                    k > 0,
                    m == 0,
            ;
        }
        if p > u {
            assert(p * k >= u * k && m * k == u * k) by (nonlinear_arith)
                requires
                    p > u,
                    k > 0,
                    m == u,
            ;
        }
    }
}

/// Decibels in words are the gain to the nearest tenth.
pub proof fn law_decibels_are_rounded_to_tenths(gain: Single)
    requires
        gain.is_finite(),
    ensures
        2 * abs(tenths(gain) * pow2(149) - 10 * abs(gain.scaled())) <= pow2(149),
        tenths(gain) >= 0,
{
    let u = unit();
    lemma_units();
    let size = 10 * abs(gain.scaled());
    lemma_fundamental_div_mod(size, u);
    let cut = size / u;
    assert(cut * u == u * cut && (cut + 1) * u == u * cut + u) by (nonlinear_arith);
    assert(cut >= 0) by (nonlinear_arith)
        requires
            size == u * cut + size % u,
            0 <= size % u < u,
            size >= 0,
    ;
}

/// The easing is a cubic curve: what is left of the way at `t` is the cube of
/// what is left of the time, within a hundred-thousandth.
pub proof fn law_easing_is_cubic(t: Single)
    requires
        in_unit(t),
    ensures
        ({
            let one = pow2(149) as int;
            let left = one - t.scaled();
            let way = one - eased(t).scaled();
            100_000 * abs(way * (one * one) - left * left * left) <= one * (one * one)
        }),
{
    let (u, e) = (unit(), fine());
    let one = of_bits(ONE);
    lemma_units();
    lemma_one_scaled();
    lemma_in_unit(t);
    lemma_complement(t);
    let a = one.minus_spec(t);
    assert(t.clamped(zero(false), one) == t);
    lemma_minus_error(one, t);
    lemma_unit_product(a, a, a, a);
    let b = a.times_spec(a);
    lemma_unit_product(b, b, a, a);
    let c = b.times_spec(a);
    lemma_complement(c);
    let r = one.minus_spec(c);
    lemma_in_unit(a);
    lemma_in_unit(b);
    lemma_in_unit(c);
    lemma_minus_error(one, c);
    let (x, y, z, w) = (a.scaled(), b.scaled(), c.scaled(), r.scaled());
    let l = u - t.scaled();
    assert(abs(x * x) == x * x && x * x <= u * u && u * u <= 0x100_0000_0000 * u * u && abs(y * x)
        == y * x && y * x <= u * u && u * u == 0x80_0000 * (u * e) && u <= u * e)
        by (nonlinear_arith)
        requires
            0 <= x <= u,
            0 <= y <= u,
            u == 0x80_0000 * e,
            e >= 1,
    ;
    lemma_times_error(a, a);
    lemma_times_error(b, a);
    assert(abs(x - l) <= 2 * e);
    lemma_products_close(x, x, l, l, 2 * e, 2 * e, u, u);
    assert(u * (2 * e) + (2 * e) * u == 4 * (u * e)) by (nonlinear_arith);
    assert(abs(y * u - l * l) <= 6 * (u * e));
    // z u u is nearly y x u, which is nearly l l l.
    assert(abs(z * u - y * x) <= 2 * (u * e));
    assert(abs(z * (u * u) - (y * u) * x) <= 2 * (u * (u * e))) by (nonlinear_arith)
        requires
            abs(z * u - y * x) <= 2 * (u * e),
            u > 0,
    ;
    assert(l * l <= u * u && 0 <= l * l) by (nonlinear_arith)
        requires
            0 <= l <= u,
    ;
    assert(abs(y * u) <= u * u) by (nonlinear_arith)
        requires
            0 <= y <= u,
            u > 0,
    ;
    lemma_products_close(y * u, x, l * l, l, 6 * (u * e), 2 * e, u * u, u);
    assert((u * u) * (2 * e) + (6 * (u * e)) * u == 8 * (u * (u * e))) by (nonlinear_arith);
    assert(abs((u - w) - z) <= 2 * e);
    assert(abs((u - w) * (u * u) - z * (u * u)) <= 2 * (u * (u * e))) by (nonlinear_arith)
        requires
            abs((u - w) - z) <= 2 * e,
            u > 0,
            e > 0,
    ;
    assert((l * l) * l == l * l * l);
    assert(u * (u * u) == 0x80_0000 * (u * (u * e))) by (nonlinear_arith)
        requires
            u == 0x80_0000 * e,
    ;
}

// ---------------------------------------------------------------------------
// The wheel
// ---------------------------------------------------------------------------

/// The sum of a list of numbers.
pub open spec fn sum(list: Seq<int>) -> int
    decreases list.len(),
{
    if list.len() == 0 {
        0
    } else {
        sum(list.drop_last()) + list.last()
    }
}

/// A wheel that is turned: each event leads from one state to the next.
pub open spec fn is_turned(states: Seq<WheelSteps>, deltas: Seq<int>, steps: Seq<int>) -> bool {
    &&& states.len() == deltas.len() + 1
    &&& steps.len() == deltas.len()
    &&& states[0].wf()
    &&& forall|i: int|
        0 <= i < deltas.len() ==> (#[trigger] states[i]).is_fed(
            deltas[i],
            steps[i],
            states[i + 1],
        )
}

/// However finely a wheel reports its turning in one direction, the notches
/// add up: 120 make a step, nothing is lost and nothing is counted twice.
pub proof fn law_small_turns_add_up(
    states: Seq<WheelSteps>,
    deltas: Seq<int>,
    steps: Seq<int>,
    up: bool,
)
    requires
        is_turned(states, deltas, steps),
        states[0].partial() == 0,
        forall|i: int| 0 <= i < deltas.len() ==> (up ==> #[trigger] deltas[i] >= 0) && (!up
            ==> deltas[i] <= 0),
    ensures
        120 * sum(steps) + states.last().partial() == sum(deltas),
        -120 < states.last().partial() < 120,
        up ==> states.last().partial() >= 0,
        !up ==> states.last().partial() <= 0,
    decreases deltas.len(),
{
    if deltas.len() > 0 {
        let n = (deltas.len() - 1) as int;
        let (s, d, t) = (states.drop_last(), deltas.drop_last(), steps.drop_last());
        assert forall|i: int| 0 <= i < d.len() implies (#[trigger] s[i]).is_fed(
            d[i],
            t[i],
            s[i + 1],
        ) by {
            assert(states[i].is_fed(deltas[i], steps[i], states[i + 1]));
        }
        assert forall|i: int| 0 <= i < d.len() implies (up ==> #[trigger] d[i] >= 0) && (!up
            ==> d[i] <= 0) by {
            assert(deltas[i] == d[i]);
        }
        law_small_turns_add_up(s, d, t, up);
        assert(states[n].is_fed(deltas[n], steps[n], states[n + 1]));
        assert(s.last() == states[n]);
        assert(states.last() == states[n + 1]);
        assert((up ==> deltas[n] >= 0) && (!up ==> deltas[n] <= 0));
    }
}

/// Turning the other way starts fresh: half a notch one way doesn't swallow
/// any of a turn back.
pub proof fn law_turning_back_starts_fresh(
    before: WheelSteps,
    fresh: WheelSteps,
    delta: int,
    steps: int,
    after: WheelSteps,
    fresh_steps: int,
    fresh_after: WheelSteps,
)
    requires
        before.wf(),
        fresh.partial() == 0,
        (before.partial() > 0 && delta < 0) || (before.partial() < 0 && delta > 0),
        before.is_fed(delta, steps, after),
        fresh.is_fed(delta, fresh_steps, fresh_after),
    ensures
        steps == fresh_steps,
        after.partial() == fresh_after.partial(),
        delta <= -120 ==> steps < 0,
        delta >= 120 ==> steps > 0,
{
}

} // verus!
