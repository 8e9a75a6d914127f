//! What the wheel, the shortcuts and the mute promise.

use crate::config::{Settings, FADER_MAX_DB, FADER_MIN_DB, SMALLEST_STEP_DB};
use crate::precision::{fine, lemma_plus_error, lemma_times_error, lemma_units, unit};
use crate::rounding::{
    lemma_plus_rounds, lemma_plus_zero, lemma_pow2_big, lemma_rank_order, lemma_rounding_exists,
    lemma_rounding_order, lemma_sign, lemma_signed_exact, lemma_single_of_exact,
    lemma_times_keeps_order, lemma_zero_rounds,
};
use crate::single::{abs, of_bits, single_of, zero, Single};
use crate::state::Channel;
use vstd::arithmetic::power2::{lemma2_to64, lemma_pow2_adds, lemma_pow2_pos, pow2};
use vstd::prelude::*;

verus! {

/// The limits of the fader and the smallest step, in numbers.
proof fn lemma_fader()
    ensures
        of_bits(FADER_MIN_DB).scaled() == -60 * unit(),
        of_bits(FADER_MAX_DB).scaled() == 12 * unit(),
        10 * of_bits(SMALLEST_STEP_DB).scaled() >= unit(),
        11 * of_bits(SMALLEST_STEP_DB).scaled() <= 2 * unit(),
{
    let (lo, hi, step) = (of_bits(FADER_MIN_DB), of_bits(FADER_MAX_DB), of_bits(SMALLEST_STEP_DB));
    assert(lo.step() == 131 && lo.significand() == 0xF0_0000);
    assert(hi.step() == 129 && hi.significand() == 0xC0_0000);
    assert(step.step() == 122 && step.significand() == 0xCC_CCCD);
    lemma_pow2_big();
    lemma2_to64();
    lemma_pow2_adds(18, 131);
    lemma_pow2_adds(20, 129);
    lemma_pow2_adds(27, 122);
    lemma_pow2_pos(122);
    lemma_pow2_pos(129);
    lemma_pow2_pos(131);
}

/// Integers keep their order in single precision.
pub proof fn lemma_single_of_order(a: int, b: int)
    requires
        a <= b,
    ensures
        single_of(a).rank() <= single_of(b).rank(),
        !single_of(a).is_nan(),
        !single_of(b).is_nan(),
{
    reveal(single_of);
    let u = unit();
    lemma_units();
    assert(a * u <= b * u) by (nonlinear_arith)
        requires
            a <= b,
            u > 0,
    ;
    assert((a < 0 <==> a * u < 0) && (b < 0 <==> b * u < 0)) by (nonlinear_arith)
        requires
            u > 0,
    ;
    lemma_rounding_exists(a * u, 1, a < 0);
    lemma_rounding_exists(b * u, 1, b < 0);
    lemma_rounding_order(single_of(a), a * u, a < 0, single_of(b), b * u, b < 0, 1);
}

/// The part of a nudge that goes up: `steps` notches of `step`, added to a
/// gain on the fader.
proof fn lemma_nudge_up(g: Single, step: Single, steps: int)
    requires
        g.is_finite(),
        -60 * unit() <= g.scaled() <= 12 * unit(),
        step.is_finite(),
        unit() <= 10 * step.scaled(),
        step.scaled() <= 12 * unit(),
        steps > 0,
    ensures
        ({
            let sum = g.plus_spec(single_of(steps).times_spec(step));
            let exact = g.scaled() + steps * step.scaled();
            &&& !sum.is_nan()
            &&& exact <= 13 * unit() ==> sum.is_finite() && 10_000 * abs(sum.scaled() - exact)
                <= unit()
            &&& exact > 13 * unit() ==> sum.rank() >= of_bits(FADER_MAX_DB).rank()
            &&& sum.rank() > g.rank()
        }),
{
    lemma_units();
    lemma_fader();
    lemma_sign(step);
    let (u, e, s, v) = (unit(), fine(), single_of(steps), step.scaled());
    let p = s.times_spec(step);
    let sum = g.plus_spec(p);
    // No more than 3000 notches fit on the fader.
    let few = if steps <= 3000 {
        steps
    } else {
        3000
    };
    lemma_signed_exact(few);
    lemma_single_of_order(few, steps);
    let q = single_of(few).times_spec(step);
    lemma_times_keeps_order(single_of(few), s, step);
    assert(abs((few * u) * v) == (few * v) * u && few * v <= 36_000 * u && few * v >= v && (few
        * u) * v <= 0x100_0000_0000 * u * u) by (nonlinear_arith)
        requires
            0 < few <= 3000,
            0 < v <= 12 * u,
            u > 0,
    ;
    lemma_times_error(single_of(few), step);
    let (x, y) = (q.scaled(), few * v);
    assert(0x80_0000 * abs(x - y) <= y + 0x80_0000) by (nonlinear_arith)
        requires
            0x80_0000 * abs(x * u - y * u) <= y * u + 0x80_0000 * u,
            u > 0,
    ;
    lemma_plus_error(g, q);
    let low = g.plus_spec(q);
    assert(g.scaled() < low.scaled());
    lemma_rank_order(g, low);
    // The whole nudge goes at least as far.
    if p.is_finite() {
        lemma_rank_order(q, p);
        let a = lemma_plus_rounds(g, q);
        let b = lemma_plus_rounds(g, p);
        lemma_rounding_order(
            low,
            g.scaled() + q.scaled(),
            a,
            sum,
            g.scaled() + p.scaled(),
            b,
            1,
        );
    } else {
        reveal(Single::plus_spec);
    }
    if steps > 3000 {
        assert(10 * (steps * v) > 3000 * u) by (nonlinear_arith)
            requires
                steps > 3000,
                10 * v >= u,
                u > 0,
        ;
        lemma_rank_order(of_bits(FADER_MAX_DB), low);
    } else {
        assert(p == q);
        if g.scaled() + steps * v > 13 * u {
            lemma_rank_order(of_bits(FADER_MAX_DB), low);
        }
    }
}

/// Each notch moves the gain by the step, unless a limit of the fader stops
/// it: what the notches ask for is the gain plus the notches times the step.
/// Where that lies on the fader the target is that number, within a
/// ten-thousandth of a decibel. Where it lies beyond a limit, the target is
/// the limit: within as much, and exactly from a decibel beyond it on. Every
/// step up raises a gain below the upper limit, every step down lowers one
/// above the lower limit, and no step keeps it.
pub proof fn law_each_notch_moves_the_gain_by_the_step(
    channel: Channel,
    settings: Settings,
    steps: int,
)
    requires
        channel.last_gain is Some,
        channel.last_gain->0.is_finite(),
        -60 * pow2(149) <= channel.last_gain->0.scaled() <= 12 * pow2(149),
        settings.step_db.is_finite(),
        pow2(149) <= 10 * settings.step_db.scaled(),
        settings.step_db.scaled() <= 12 * pow2(149),
    ensures
        channel.nudged(settings, steps) is Some,
        ({
            let one = pow2(149) as int;
            let gain = channel.last_gain->0;
            let target = channel.nudged(settings, steps)->0;
            let asked = gain.scaled() + steps * settings.step_db.scaled();
            &&& target.is_finite()
            &&& -60 * one <= target.scaled() <= 12 * one
            &&& -60 * one <= asked <= 12 * one ==> 10_000 * abs(target.scaled() - asked) <= one
            &&& asked > 12 * one ==> 10_000 * abs(target.scaled() - 12 * one) <= one
            &&& asked < -60 * one ==> 10_000 * abs(target.scaled() + 60 * one) <= one
            &&& asked > 13 * one ==> target.scaled() == 12 * one
            &&& asked < -61 * one ==> target.scaled() == -60 * one
            &&& steps > 0 && gain.scaled() < 12 * one ==> target.scaled() > gain.scaled()
            &&& steps < 0 && gain.scaled() > -60 * one ==> target.scaled() < gain.scaled()
            &&& steps == 0 ==> target.scaled() == gain.scaled()
        }),
{
    lemma_units();
    lemma_fader();
    let (g, step, u) = (channel.last_gain->0, settings.step_db, unit());
    let (lo, hi) = (of_bits(FADER_MIN_DB), of_bits(FADER_MAX_DB));
    let p = single_of(steps).times_spec(step);
    let sum = g.plus_spec(p);
    let v = step.scaled();
    lemma_sign(step);
    lemma_rank_order(lo, g);
    lemma_rank_order(g, hi);
    lemma_rank_order(lo, hi);
    if steps > 0 {
        lemma_nudge_up(g, step, steps);
        assert(steps * v > 0) by (nonlinear_arith)
            requires
                steps > 0,
                v > 0,
        ;
        if sum.is_finite() {
            lemma_rank_order(sum, hi);
            lemma_rank_order(lo, sum);
            lemma_rank_order(g, sum);
        }
    } else if steps == 0 {
        lemma_single_of_exact(0);
        lemma_zero_product(step);
        lemma_plus_zero(g, p);
        assert(0 * v == 0) by (nonlinear_arith);
        assert(sum.is_finite()) by {
            assert(sum.rank() == g.rank());
            lemma_plus_error(g, p);
        }
        lemma_rank_order(g, sum);
    } else {
        lemma_nudge_down(g, step, steps);
        assert(steps * v < 0) by (nonlinear_arith)
            requires
                steps < 0,
                v > 0,
        ;
        if sum.is_finite() {
            lemma_rank_order(sum, hi);
            lemma_rank_order(lo, sum);
            lemma_rank_order(g, sum);
        }
    }
}

/// Nothing times a number is nothing.
pub proof fn lemma_zero_product(x: Single)
    requires
        x.is_finite(),
    ensures
        zero(false).times_spec(x).rank() == 0,
        zero(false).times_spec(x).is_finite(),
        zero(false).times_spec(x).scaled() == 0,
{
    reveal(Single::times_spec);
    lemma_units();
    lemma_sign(zero(false));
    lemma_sign(zero(true));
    let v = x.scaled();
    assert(0 * v == 0) by (nonlinear_arith);
    lemma_zero_rounds(unit(), false);
    lemma_zero_rounds(unit(), true);
}

proof fn lemma_nudge_down(g: Single, step: Single, steps: int)
    requires
        g.is_finite(),
        -60 * unit() <= g.scaled() <= 12 * unit(),
        step.is_finite(),
        unit() <= 10 * step.scaled(),
        step.scaled() <= 12 * unit(),
        steps < 0,
    ensures
        ({
            let sum = g.plus_spec(single_of(steps).times_spec(step));
            let exact = g.scaled() + steps * step.scaled();
            &&& !sum.is_nan()
            &&& exact >= -61 * unit() ==> sum.is_finite() && 10_000 * abs(sum.scaled() - exact)
                <= unit()
            &&& exact < -61 * unit() ==> sum.rank() <= of_bits(FADER_MIN_DB).rank()
            &&& sum.rank() < g.rank()
        }),
{
    lemma_units();
    lemma_fader();
    lemma_sign(step);
    let (u, e, s, v) = (unit(), fine(), single_of(steps), step.scaled());
    let p = s.times_spec(step);
    let sum = g.plus_spec(p);
    let few = if -steps <= 3000 {
        -steps
    } else {
        3000
    };
    lemma_signed_exact(-few);
    lemma_single_of_order(steps, -few);
    let q = single_of(-few).times_spec(step);
    lemma_times_keeps_order(s, single_of(-few), step);
    assert(abs(((-few) * u) * v) == (few * v) * u && ((-few) * u) * v == -((few * v) * u) && few
        * v <= 36_000 * u && few * v >= v && (few * u) * v <= 0x100_0000_0000 * u * u && (few * v)
        * u <= 0x100_0000_0000 * u * u) by (nonlinear_arith)
        requires
            0 < few <= 3000,
            0 < v <= 12 * u,
            u > 0,
    ;
    lemma_times_error(single_of(-few), step);
    let (x, y) = (q.scaled(), -(few * v));
    assert(y * u == -((few * v) * u) && (-y) * u == (few * v) * u) by (nonlinear_arith)
        requires
            y == -(few * v),
    ;
    assert(0x80_0000 * abs(x - y) <= -y + 0x80_0000) by (nonlinear_arith)
        requires
            0x80_0000 * abs(x * u - y * u) <= (-y) * u + 0x80_0000 * u,
            u > 0,
    ;
    lemma_plus_error(g, q);
    let high = g.plus_spec(q);
    assert(high.scaled() < g.scaled());
    lemma_rank_order(high, g);
    if p.is_finite() {
        lemma_rank_order(p, q);
        let a = lemma_plus_rounds(g, p);
        let b = lemma_plus_rounds(g, q);
        lemma_rounding_order(
            sum,
            g.scaled() + p.scaled(),
            a,
            high,
            g.scaled() + q.scaled(),
            b,
            1,
        );
    } else {
        reveal(Single::plus_spec);
    }
    if steps < -3000 {
        assert(10 * (steps * v) < -3000 * u) by (nonlinear_arith)
            requires
                steps < -3000,
                10 * v >= u,
                u > 0,
        ;
        lemma_rank_order(high, of_bits(FADER_MIN_DB));
    } else {
        assert(p == q);
        assert(steps * v == -(few * v)) by (nonlinear_arith)
            requires
                few == -steps,
        ;
        if g.scaled() + steps * v < -61 * u {
            lemma_rank_order(high, of_bits(FADER_MIN_DB));
        }
    }
}

} // verus!
