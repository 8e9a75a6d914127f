//! How the bar moves: its animation from frame to frame, and being dragged.

use crate::app_state::AppState;
use crate::config::{Position, Settings};
use crate::draw::{hundredths, hundredths_of};
use crate::frame::lemma_hundredths;
use crate::osd::fits;
use crate::rounding::{
    lemma_exact, lemma_negated, lemma_one_scaled, lemma_over_keeps_order, lemma_plus_keeps_order,
    lemma_plus_rounds, lemma_plus_zero, lemma_rank_order, lemma_rounding_exists,
    lemma_rounding_order, lemma_rounding_places, lemma_share, lemma_sign, lemma_single_of_exact,
    lemma_times_keeps_order, lemma_zero_rounds,
};
use crate::scale::{lemma_complement, lemma_plus_commutes, lemma_whole_share};
use crate::single::{abs, of_bits, rounds_to, single_of, zero, Single, HALF, ONE};
use crate::state::{DragAnchor, FRAME_MS};
use crate::time::{Duration, Instant};
use vstd::arithmetic::power2::{lemma2_to64, lemma_pow2_adds, lemma_pow2_pos, pow2};
use vstd::prelude::*;

verus! {

// ---------------------------------------------------------------------------
// Time between frames
// ---------------------------------------------------------------------------

/// `n` thousandths.
pub open spec fn thousandths(n: int) -> Single {
    single_of(n).over_spec(single_of(1000))
}

fn thousandths_of(n: i32) -> (r: Single)
    ensures
        r == thousandths(n as int),
{
    Single::from_i32(n).over(Single::from_i32(1000))
}

/// A span of time in seconds.
pub open spec fn seconds(nanos: int) -> Single {
    single_of(nanos / 1_000_000_000).plus_spec(
        single_of(nanos % 1_000_000_000).over_spec(single_of(1_000_000_000)),
    )
}

/// The seconds that a frame accounts for: the time that really passed, within
/// bounds.
pub open spec fn frame_seconds(nanos: int) -> Single {
    seconds(nanos).clamped(thousandths(1), thousandths(100))
}

/// The frames of 16 ms that a time makes up.
pub open spec fn frame_count(dt: Single) -> Single {
    dt.over_spec(single_of(FRAME_MS as int).over_spec(single_of(1000)))
}

/// The bits of 1000000000.0.
const BILLION: u32 = 0x4E6E_6B28;

/// A whole number from one on is at least one in single precision.
proof fn lemma_at_least_one(n: int)
    requires
        n >= 1,
    ensures
        !single_of(n).is_nan(),
        0x3F80_0000 <= single_of(n).rank(),
{
    reveal(single_of);
    let (one, unit) = (of_bits(ONE), pow2(149) as int);
    lemma_pow2_pos(149);
    lemma_one_scaled();
    lemma_exact(one, 1, false);
    assert(unit <= n * unit) by (nonlinear_arith)
        requires
            n >= 1,
            unit > 0,
    ;
    lemma_rounding_exists(n * unit, 1, false);
    lemma_rounding_order(one, unit, false, single_of(n), n * unit, false, 1);
}

pub proof fn lemma_billion()
    ensures
        single_of(1_000_000_000).is_finite(),
        single_of(1_000_000_000).scaled() == 1_000_000_000 * pow2(149),
        !single_of(1_000_000_000).is_negative(),
{
    let (unit, r) = (pow2(149) as int, of_bits(BILLION));
    lemma_pow2_pos(149);
    lemma_pow2_adds(6, 149);
    lemma2_to64();
    assert(r.step() == 155 && r.significand() == 15_625_000);
    assert(r.scaled() == 1_000_000_000 * unit);
    lemma_exact(r, 1, false);
    assert(single_of(1_000_000_000) == r) by {
        reveal(single_of);
    }
}

/// The part of a second lies between 0 and 1.
proof fn lemma_part_of_second(m: int)
    requires
        0 <= m < 1_000_000_000,
    ensures
        single_of(m).over_spec(single_of(1_000_000_000)).is_finite(),
        0 <= single_of(m).over_spec(single_of(1_000_000_000)).rank() <= 0x3F80_0000,
{
    let (x, c, unit) = (single_of(m), single_of(1_000_000_000), pow2(149) as int);
    lemma_pow2_pos(149);
    lemma_billion();
    lemma_exact(c, 1, false);
    lemma_sign(c);
    assert(0 <= m * unit <= 1_000_000_000 * unit) by (nonlinear_arith)
        requires
            0 <= m < 1_000_000_000,
            unit > 0,
    ;
    lemma_rounding_exists(m * unit, 1, false);
    assert(rounds_to(x, m * unit, 1, false)) by {
        reveal(single_of);
    }
    lemma_rounding_places(x, m * unit, 1, false);
    lemma_rounding_order(x, m * unit, false, c, 1_000_000_000 * unit, false, 1);
    lemma_over_keeps_order(x, c, c);
    lemma_whole_share(c);
    lemma_over_keeps_order(zero(false), x, c);
    assert(zero(false).over_spec(c).rank() == 0) by {
        reveal(Single::over_spec);
        lemma_sign(zero(false));
        lemma_sign(c);
        assert(0 * unit == 0) by (nonlinear_arith);
        lemma_zero_rounds(c.scaled(), false);
    }
}

proof fn lemma_thousandths(n: int)
    requires
        0 <= n <= 1000,
    ensures
        !thousandths(n).is_nan(),
        thousandths(n).rank() <= 0x3F80_0000,
{
    let unit = pow2(149) as int;
    lemma_pow2_pos(149);
    lemma_single_of_exact(n);
    lemma_single_of_exact(1000);
    assert(n * unit <= 1000 * unit) by (nonlinear_arith)
        requires
            n <= 1000,
            unit > 0,
    ;
    lemma_rank_order(single_of(n), single_of(1000));
    lemma_over_keeps_order(single_of(n), single_of(1000), single_of(1000));
    lemma_whole_share(single_of(1000));
}

/// A second or more counts as a tenth of one.
pub proof fn lemma_long_frame(nanos: int)
    requires
        nanos >= 1_000_000_000,
    ensures
        frame_seconds(nanos) == thousandths(100),
{
    let (whole, m) = (single_of(nanos / 1_000_000_000), nanos % 1_000_000_000);
    let part = single_of(m).over_spec(single_of(1_000_000_000));
    lemma_at_least_one(nanos / 1_000_000_000);
    lemma_part_of_second(m);
    if whole.is_finite() {
        lemma_plus_commutes(whole, part);
        lemma_plus_commutes(whole, zero(false));
        lemma_plus_keeps_order(zero(false), part, whole);
        lemma_plus_zero(whole, zero(false));
    } else {
        reveal(Single::plus_spec);
    }
    lemma_thousandths(1);
    lemma_thousandths(100);
}

/// The seconds since the last frame and the number of frames they make up.
/// Timers are coarse and get coalesced under load, so the animation steps by
/// the time that really passed rather than assuming a perfect 16 ms.
pub fn frame_time(last: Instant, now: Instant) -> (r: (Single, Single))
    ensures
        ({
            let passed = if last.nanos <= now.nanos {
                now.nanos - last.nanos
            } else {
                0
            };
            &&& r.0 == frame_seconds(passed)
            &&& r.1 == frame_count(r.0)
        }),
{
    let passed: u128 = now.since(last).nanos;
    let dt: Single = if passed < 1_000_000_000 {
        let part: Single = Single::from_i64(passed as i64).over(Single::from_i32(1_000_000_000));
        Single::from_i32(0).plus(part).clamp_between(thousandths_of(1), thousandths_of(100))
    } else {
        proof {
            lemma_long_frame(passed as int);
        }
        thousandths_of(100)
    };
    let frames: Single = dt.over(Single::from_i32(FRAME_MS as i32).over(Single::from_i32(1000)));
    (dt, frames)
}

// ---------------------------------------------------------------------------
// Animation
// ---------------------------------------------------------------------------

/// A meter snaps up and falls back slowly: how a VU meter is expected to
/// behave. `keep` is the part of the distance that is left after the frame.
pub open spec fn fallen(meter: Single, level: Single, keep: Single) -> Single {
    if meter.below_spec(level) {
        level
    } else {
        meter.plus_spec(level.minus_spec(meter).times_spec(of_bits(ONE).minus_spec(keep)))
    }
}

/// The peak marker follows the meter up and sinks at a steady pace.
pub open spec fn sunk(peak: Single, meter: Single, dt: Single) -> Single {
    if peak.at_most_spec(meter) {
        meter
    } else {
        peak.minus_spec(dt.times_spec(hundredths(40))).larger(meter)
    }
}

/// A number without its sign.
pub open spec fn size_of(x: Single) -> Single {
    if x.is_negative() {
        x.negated()
    } else {
        x
    }
}

/// The level glides toward the percentage, and snaps to it when close.
pub open spec fn glided(display: Single, percent: int, keep: Single) -> Single {
    let target = single_of(percent);
    let diff = target.minus_spec(display);
    if size_of(diff).below_spec(hundredths(40)) {
        target
    } else {
        display.plus_spec(diff.times_spec(of_bits(ONE).minus_spec(keep)))
    }
}

fn fall(meter: Single, level: Single, keep: Single) -> (r: Single)
    ensures
        r == fallen(meter, level, keep),
{
    if meter.below(level) {
        level
    } else {
        meter.plus(level.minus(meter).times(Single::from_bits(ONE).minus(keep)))
    }
}

fn sink(peak: Single, meter: Single, dt: Single) -> (r: Single)
    ensures
        r == sunk(peak, meter, dt),
{
    if peak.at_most(meter) {
        meter
    } else {
        peak.minus(dt.times(hundredths_of(40))).larger_of(meter)
    }
}

fn glide(display: Single, percent: i32, keep: Single) -> (r: Single)
    ensures
        r == glided(display, percent as int, keep),
{
    let target: Single = Single::from_i32(percent);
    let diff: Single = target.minus(display);
    let size: Single = if diff.bits >= 0x8000_0000 {
        diff.negate()
    } else {
        diff
    };
    if size.below(hundredths_of(40)) {
        target
    } else {
        display.plus(diff.times(Single::from_bits(ONE).minus(keep)))
    }
}

/// What a frame is told: how long it took, what is left of the meter's and
/// the level's distance after it, the signal level, and whether the pointer
/// is on the bar.
#[derive(Clone, Copy, Debug)]
pub struct FrameInput {
    pub dt: Single,
    pub keep_meter: Single,
    pub keep_level: Single,
    pub level: Single,
    pub hovering: bool,
    pub now: Instant,
}

/// The bar's opacity while it fades out.
pub open spec fn faded_out(alpha: Single, dt: Single) -> Single {
    alpha.minus_spec(dt.over_spec(hundredths(22)))
}

pub open spec fn faded_in(alpha: Single, dt: Single) -> Single {
    alpha.plus_spec(dt.over_spec(hundredths(11))).smaller(of_bits(ONE))
}

/// How far the bar is popped out while it retracts.
pub open spec fn popped_in(pop: Single, dt: Single) -> Single {
    pop.minus_spec(dt.over_spec(hundredths(20))).larger(zero(false))
}

pub open spec fn popped_out(pop: Single, dt: Single) -> Single {
    pop.plus_spec(dt.over_spec(hundredths(26))).smaller(of_bits(ONE))
}

impl AppState {
    /// Whether the pointer on the bar keeps it up, since it's clickable and
    /// scrollable.
    pub open spec fn is_held(self, input: FrameInput) -> bool {
        of_bits(HALF).below_spec(self.anim_alpha) && input.hovering
    }

    /// When the bar hides: later, while the pointer is on it.
    pub open spec fn stay_until(self, input: FrameInput) -> Option<int> {
        if self.is_held(input) {
            Some(input.now.nanos + 400_000_000)
        } else {
            match self.hide_at {
                Some(at) => Some(at.nanos as int),
                None => None,
            }
        }
    }

    /// Whether the bar's time is over.
    pub open spec fn is_expired(self, input: FrameInput) -> bool {
        match self.stay_until(input) {
            Some(at) => input.now.nanos >= at,
            None => true,
        }
    }

    /// Whether the frame is the one in which the bar is gone.
    pub open spec fn is_gone(self, input: FrameInput) -> bool {
        self.is_expired(input) && faded_out(self.anim_alpha, input.dt).at_most_spec(zero(false))
    }

    /// What a frame makes of the bar; `visible` says whether it is still to be
    /// drawn.
    pub open spec fn is_frame(self, input: FrameInput, visible: bool, after: AppState) -> bool {
        let expired = self.is_expired(input);
        &&& visible == !self.is_gone(input)
        &&& after.meter == fallen(self.meter, input.level, input.keep_meter)
        &&& after.meter_peak == sunk(self.meter_peak, after.meter, input.dt)
        &&& after.display_pct == glided(
            self.display_pct,
            self.channel.percent as int,
            input.keep_level,
        )
        &&& after.anim_alpha == if !visible {
            zero(false)
        } else if expired {
            faded_out(self.anim_alpha, input.dt)
        } else {
            faded_in(self.anim_alpha, input.dt)
        }
        &&& after.pop == if !visible {
            zero(false)
        } else if expired {
            popped_in(self.pop, input.dt)
        } else {
            popped_out(self.pop, input.dt)
        }
        &&& match after.hide_at {
            Some(at) => visible && self.stay_until(input) == Some(at.nanos as int),
            None => !visible || self.stay_until(input) is None,
        }
        &&& after == (AppState {
            last_frame: input.now,
            meter: after.meter,
            meter_peak: after.meter_peak,
            display_pct: after.display_pct,
            anim_alpha: after.anim_alpha,
            pop: after.pop,
            animating: visible && self.animating,
            hide_at: after.hide_at,
            ..self
        })
    }

    /// One frame of the animation. Says whether the bar is still to be drawn.
    pub fn animate(&mut self, input: FrameInput) -> (visible: bool)
        requires
            old(self).is_held(input) ==> input.now.nanos + 400_000_000 <= u128::MAX,
        ensures
            old(self).is_frame(input, visible, *final(self)),
            visible == !old(self).is_gone(input),
            final(self).last_frame == input.now,
            final(self).meter == fallen(old(self).meter, input.level, input.keep_meter),
            final(self).meter_peak == sunk(old(self).meter_peak, final(self).meter, input.dt),
            final(self).display_pct == glided(
                old(self).display_pct,
                old(self).channel.percent as int,
                input.keep_level,
            ),
            final(self).anim_alpha == if !visible {
                zero(false)
            } else if old(self).is_expired(input) {
                faded_out(old(self).anim_alpha, input.dt)
            } else {
                faded_in(old(self).anim_alpha, input.dt)
            },
            final(self).pop == if !visible {
                zero(false)
            } else if old(self).is_expired(input) {
                popped_in(old(self).pop, input.dt)
            } else {
                popped_out(old(self).pop, input.dt)
            },
            final(self).animating == (visible && old(self).animating),
            match final(self).hide_at {
                Some(at) => visible && old(self).stay_until(input) == Some(at.nanos as int),
                None => !visible || old(self).stay_until(input) is None,
            },
            *final(self) == (AppState {
                last_frame: final(self).last_frame,
                meter: final(self).meter,
                meter_peak: final(self).meter_peak,
                display_pct: final(self).display_pct,
                anim_alpha: final(self).anim_alpha,
                pop: final(self).pop,
                animating: final(self).animating,
                hide_at: final(self).hide_at,
                ..*old(self)
            }),
    {
        self.last_frame = input.now;
        self.meter = fall(self.meter, input.level, input.keep_meter);
        self.meter_peak = sink(self.meter_peak, self.meter, input.dt);
        self.display_pct = glide(self.display_pct, self.channel.percent, input.keep_level);
        if Single::from_bits(HALF).below(self.anim_alpha) && input.hovering {
            self.hide_at = Some(input.now.plus(Duration::from_millis(400)));
        }
        let expired: bool = match self.hide_at {
            Some(at) => input.now.nanos >= at.nanos,
            None => true,
        };
        if expired {
            self.anim_alpha = self.anim_alpha.minus(input.dt.over(hundredths_of(22)));
            self.pop = self.pop.minus(input.dt.over(hundredths_of(20))).larger_of(
                Single::from_bits(0),
            );
            if self.anim_alpha.at_most(Single::from_bits(0)) {
                self.anim_alpha = Single::from_bits(0);
                self.pop = Single::from_bits(0);
                self.animating = false;
                self.hide_at = None;
                return false;
            }
        } else {
            self.anim_alpha = self.anim_alpha.plus(input.dt.over(hundredths_of(11))).smaller_of(
                Single::from_bits(ONE),
            );
            self.pop = self.pop.plus(input.dt.over(hundredths_of(26))).smaller_of(
                Single::from_bits(ONE),
            );
        }
        true
    }
}

/// Between 0 and 1.
pub open spec fn in_unit(x: Single) -> bool {
    x.is_finite() && 0 <= x.rank() <= 0x3F80_0000
}

/// A time over a part of a second is not negative.
pub proof fn lemma_part(dt: Single, n: int)
    requires
        dt.is_finite(),
        dt.rank() >= 0,
        0 < n <= 100,
    ensures
        !dt.over_spec(hundredths(n)).is_nan(),
        dt.over_spec(hundredths(n)).rank() >= 0,
{
    let c = hundredths(n);
    lemma_hundredths(n);
    lemma_over_keeps_order(dt, dt, c);
    lemma_over_keeps_order(zero(false), dt, c);
    assert(zero(false).over_spec(c).rank() == 0) by {
        reveal(Single::over_spec);
        lemma_sign(zero(false));
        lemma_sign(c);
        let unit = pow2(149) as int;
        assert(0 * unit == 0) by (nonlinear_arith);
        lemma_zero_rounds(c.scaled(), false);
    }
}

/// Adding what is not negative and capping at 1 stays between 0 and 1.
pub proof fn lemma_rise(x: Single, step: Single)
    requires
        in_unit(x),
        !step.is_nan(),
        step.rank() >= 0,
    ensures
        in_unit(x.plus_spec(step).smaller(of_bits(ONE))),
{
    lemma_one_scaled();
    lemma_sign(x);
    lemma_sign(step);
    if step.is_finite() {
        let negative = lemma_plus_rounds(x, step);
        lemma_rounding_places(x.plus_spec(step), x.scaled() + step.scaled(), 1, negative);
    } else {
        reveal(Single::plus_spec);
    }
}

/// Taking away what is not negative makes nothing larger.
pub proof fn lemma_sinks(x: Single, step: Single)
    requires
        in_unit(x),
        !step.is_nan(),
        step.rank() >= 0,
    ensures
        !x.minus_spec(step).is_nan(),
        x.minus_spec(step).rank() <= x.rank(),
{
    reveal(Single::minus_spec);
    lemma_negated(step);
    lemma_sign(x);
    if step.is_finite() {
        lemma_plus_keeps_order(x, x, step.negated());
        lemma_sign(step);
        lemma_plus_commutes(x, step.negated());
        lemma_plus_commutes(x, zero(true));
        lemma_plus_keeps_order(step.negated(), zero(true), x);
        lemma_plus_zero(x, zero(true));
    } else {
        reveal(Single::plus_spec);
    }
}

/// The bar's opacity and growth stay between 0 and 1 from frame to frame,
/// whether it comes or goes.
pub proof fn law_the_animation_stays_in_range(alpha: Single, pop: Single, dt: Single)
    requires
        in_unit(alpha),
        in_unit(pop),
        dt.is_finite(),
        dt.rank() >= 0,
    ensures
        in_unit(faded_in(alpha, dt)),
        in_unit(popped_out(pop, dt)),
        in_unit(popped_in(pop, dt)),
        !faded_out(alpha, dt).at_most_spec(zero(false)) ==> in_unit(faded_out(alpha, dt)),
{
    lemma_part(dt, 11);
    lemma_part(dt, 20);
    lemma_part(dt, 22);
    lemma_part(dt, 26);
    lemma_rise(alpha, dt.over_spec(hundredths(11)));
    lemma_rise(pop, dt.over_spec(hundredths(26)));
    lemma_sinks(pop, dt.over_spec(hundredths(20)));
    lemma_sinks(alpha, dt.over_spec(hundredths(22)));
}

/// Between 0 and 1, a meter that falls stays at 0 or above and doesn't rise.
proof fn lemma_fallen(meter: Single, level: Single, keep: Single)
    requires
        in_unit(meter),
        in_unit(level),
        in_unit(keep),
        level.rank() <= meter.rank(),
    ensures
        in_unit(fallen(meter, level, keep)),
        fallen(meter, level, keep).rank() <= meter.rank(),
{
    let k = of_bits(ONE).minus_spec(keep);
    lemma_complement(keep);
    let low = meter.negated();
    lemma_negated(meter);
    let diff = level.minus_spec(meter);
    reveal(Single::minus_spec);
    lemma_plus_keeps_order(zero(false), level, low);
    lemma_plus_zero(low, zero(false));
    lemma_plus_keeps_order(level, meter, low);
    assert(meter.plus_spec(low).rank() == 0) by {
        reveal(Single::plus_spec);
        lemma_zero_rounds(1, false);
        lemma_zero_rounds(1, true);
    }
    assert(low.rank() <= diff.rank() <= 0);
    lemma_share(diff, k);
    let part = diff.times_spec(k);
    lemma_plus_commutes(meter, part);
    lemma_plus_commutes(meter, low);
    lemma_plus_keeps_order(low, part, meter);
    lemma_plus_keeps_order(part, zero(false), meter);
    lemma_plus_zero(meter, zero(false));
}

/// The meter and its peak marker stay between 0 and 1 from frame to frame.
/// The meter is never above the signal and where it was before, the marker
/// is never below the meter, and neither rises on its own.
pub proof fn law_the_meters_stay_in_range(
    meter: Single,
    peak: Single,
    level: Single,
    keep: Single,
    dt: Single,
)
    requires
        in_unit(meter),
        in_unit(peak),
        in_unit(level),
        in_unit(keep),
        dt.is_finite(),
        dt.rank() >= 0,
    ensures
        in_unit(fallen(meter, level, keep)),
        meter.below_spec(level) ==> fallen(meter, level, keep) == level,
        level.at_most_spec(meter) ==> fallen(meter, level, keep).at_most_spec(meter),
        in_unit(sunk(peak, meter, dt)),
        meter.at_most_spec(sunk(peak, meter, dt)),
        meter.at_most_spec(peak) ==> sunk(peak, meter, dt).at_most_spec(peak),
{
    if level.rank() <= meter.rank() {
        lemma_fallen(meter, level, keep);
    }
    let step = dt.times_spec(hundredths(40));
    lemma_hundredths(40);
    lemma_times_keeps_order(zero(false), dt, hundredths(40));
    assert(zero(false).times_spec(hundredths(40)).rank() == 0) by {
        reveal(Single::times_spec);
        lemma_pow2_pos(149);
        lemma_sign(zero(false));
        let n = hundredths(40).scaled();
        assert(0 * n == 0) by (nonlinear_arith);
        lemma_zero_rounds(pow2(149) as int, false);
        lemma_zero_rounds(pow2(149) as int, true);
    }
    lemma_sinks(peak, step);
}

// ---------------------------------------------------------------------------
// Dragging
// ---------------------------------------------------------------------------

/// What letting go of the button amounts to.
#[derive(Clone, Copy, PartialEq, Eq, Debug, Structural)]
pub enum Release {
    /// The bar was dragged and stays where it is.
    Dragged,
    /// The bar was only clicked.
    Clicked,
}

pub open spec fn distance_1(a: (i32, i32), b: (i32, i32)) -> int {
    abs(a.0 - b.0) + abs(a.1 - b.1)
}

/// Whether a grab counts as a drag with the pointer at `cursor`.
pub open spec fn is_drag(anchor: DragAnchor, cursor: (i32, i32)) -> bool {
    anchor.moved || distance_1(cursor, anchor.cursor) > 6
}

/// Where the window goes when the pointer is at `cursor`.
pub open spec fn dragged_to(anchor: DragAnchor, cursor: (i32, i32)) -> (int, int) {
    (
        anchor.window.0 + (cursor.0 - anchor.cursor.0),
        anchor.window.1 + (cursor.1 - anchor.cursor.1),
    )
}

impl AppState {
    /// The state after the button went down on the bar.
    pub open spec fn after_press(self, cursor: (i32, i32), window: (i32, i32)) -> AppState {
        AppState { drag: Some(DragAnchor { cursor, window, moved: false }), ..self }
    }

    /// Where the bar goes when the pointer moves, if it is being dragged.
    pub open spec fn drag_target(self, cursor: (i32, i32)) -> Option<(int, int)> {
        match self.drag {
            Some(a) if is_drag(a, cursor) => Some(dragged_to(a, cursor)),
            _ => None,
        }
    }

    /// The state after the pointer moved. A real drag repositions the bar for
    /// good, and ends the pop animation so it tracks the pointer.
    pub open spec fn after_motion(self, cursor: (i32, i32), now: Instant) -> AppState {
        match self.drag_target(cursor) {
            Some(p) => {
                let anchor = self.drag->0;
                AppState {
                    drag: Some(DragAnchor { moved: true, ..anchor }),
                    settings: Settings {
                        position: if anchor.moved {
                            self.settings.position
                        } else {
                            Position::Custom
                        },
                        custom_x: p.0 as i32,
                        custom_y: p.1 as i32,
                        ..self.settings
                    },
                    pop: if anchor.moved {
                        self.pop
                    } else {
                        of_bits(ONE)
                    },
                    anim_alpha: if anchor.moved {
                        self.anim_alpha
                    } else {
                        of_bits(ONE)
                    },
                    hide_at: Some(Instant { nanos: (now.nanos + 600_000_000) as u128 }),
                    ..self
                }
            },
            None => self,
        }
    }

    /// What letting go of the button amounts to.
    pub open spec fn outcome(self) -> Release {
        match self.drag {
            Some(a) if a.moved => Release::Dragged,
            _ => Release::Clicked,
        }
    }

    /// The state after the button came up.
    pub open spec fn after_release(self, now: Instant) -> AppState {
        AppState {
            drag: None,
            hide_at: if self.outcome() == Release::Dragged {
                Some(Instant { nanos: (now.nanos + self.settings.hide_ms * 1_000_000) as u128 })
            } else {
                self.hide_at
            },
            ..self
        }
    }

    /// The button goes down on the bar.
    pub fn press(&mut self, cursor: (i32, i32), window: (i32, i32))
        ensures
            *final(self) == old(self).after_press(cursor, window),
    {
        self.drag = Some(DragAnchor { cursor, window, moved: false });
    }

    /// The pointer moves. Where the bar goes, if it is being dragged.
    pub fn motion(&mut self, cursor: (i32, i32), now: Instant) -> (r: Option<(i32, i32)>)
        requires
            match old(self).drag_target(cursor) {
                Some(p) => fits(p.0) && fits(p.1) && now.nanos + 600_000_000 <= u128::MAX,
                None => true,
            },
        ensures
            match (old(self).drag_target(cursor), r) {
                (Some(to), Some(p)) => p.0 == to.0 && p.1 == to.1,
                (None, None) => true,
                _ => false,
            },
            *final(self) == old(self).after_motion(cursor, now),
    {
        let anchor = match self.drag {
            Some(a) => a,
            None => {
                return None;
            },
        };
        let dx: i64 = cursor.0 as i64 - anchor.cursor.0 as i64;
        let dy: i64 = cursor.1 as i64 - anchor.cursor.1 as i64;
        let far: i64 = (if dx < 0 {
            -dx
        } else {
            dx
        }) + (if dy < 0 {
            -dy
        } else {
            dy
        });
        if !anchor.moved && far <= 6 {
            return None;
        }
        if !anchor.moved {
            self.settings.position = Position::Custom;
            self.pop = Single::from_bits(ONE);
            self.anim_alpha = Single::from_bits(ONE);
        }
        self.drag = Some(DragAnchor { moved: true, ..anchor });
        let x: i32 = (anchor.window.0 as i64 + dx) as i32;
        let y: i32 = (anchor.window.1 as i64 + dy) as i32;
        self.settings.custom_x = x;
        self.settings.custom_y = y;
        self.hide_at = Some(now.plus(Duration::from_millis(600)));
        Some((x, y))
    }

    /// The button comes up. Dragging keeps the new place, to be saved; a click
    /// brings Voicemeeter up.
    pub fn release(&mut self, now: Instant) -> (r: Release)
        requires
            old(self).outcome() == Release::Dragged ==> now.nanos + old(self).settings.hide_ms
                * 1_000_000 <= u128::MAX,
        ensures
            r == old(self).outcome(),
            *final(self) == old(self).after_release(now),
    {
        let was_drag: bool = match self.drag {
            Some(a) => a.moved,
            None => false,
        };
        self.drag = None;
        if was_drag {
            self.hide_at = Some(now.plus(Duration::from_millis(self.settings.hide_ms as u64)));
            Release::Dragged
        } else {
            Release::Clicked
        }
    }

    /// Capture lost without a button-up (alt-tab, etc.): drops the drag.
    pub fn capture_lost(&mut self)
        ensures
            *final(self) == (AppState { drag: None, ..*old(self) }),
    {
        self.drag = None;
    }
}

/// The bar keeps its place under the pointer: pointer and bar move by the
/// same amount.
pub proof fn law_a_dragged_bar_follows_the_pointer(
    anchor: DragAnchor,
    a: (i32, i32),
    b: (i32, i32),
)
    ensures
        dragged_to(anchor, anchor.cursor) == (anchor.window.0 as int, anchor.window.1 as int),
        dragged_to(anchor, b).0 - dragged_to(anchor, a).0 == b.0 - a.0,
        dragged_to(anchor, b).1 - dragged_to(anchor, a).1 == b.1 - a.1,
{
}

/// The state after the pointer went to each of the places in turn.
pub open spec fn after_motions(
    app: AppState,
    moves: Seq<((i32, i32), Instant)>,
) -> AppState
    decreases moves.len(),
{
    if moves.len() == 0 {
        app
    } else {
        after_motions(app, moves.drop_last()).after_motion(moves.last().0, moves.last().1)
    }
}

/// Whether the pointer went far enough from `start` for a drag.
pub open spec fn went_far(start: (i32, i32), moves: Seq<((i32, i32), Instant)>) -> bool {
    exists|i: int| 0 <= i < moves.len() && distance_1((#[trigger] moves[i]).0, start) > 6
}

/// A whole grab up to letting go: until the pointer went far nothing but the
/// anchor changes, and from then on the bar follows it.
proof fn lemma_grab(
    app: AppState,
    start: (i32, i32),
    window: (i32, i32),
    moves: Seq<((i32, i32), Instant)>,
)
    ensures
        ({
            let grabbed = app.after_press(start, window);
            let end = after_motions(grabbed, moves);
            let far = went_far(start, moves);
            &&& end.drag == Some(DragAnchor { cursor: start, window, moved: far })
            &&& !far ==> end == grabbed
            &&& far ==> {
                let to = dragged_to(grabbed.drag->0, moves.last().0);
                end.settings == (Settings {
                    position: Position::Custom,
                    custom_x: to.0 as i32,
                    custom_y: to.1 as i32,
                    ..app.settings
                })
            }
        }),
    decreases moves.len(),
{
    if moves.len() > 0 {
        let before = moves.drop_last();
        lemma_grab(app, start, window, before);
        if went_far(start, before) {
            let i = choose|i: int|
                0 <= i < before.len() && distance_1((#[trigger] before[i]).0, start) > 6;
            assert(distance_1(moves[i].0, start) > 6);
        } else {
            assert forall|i: int| 0 <= i < before.len() implies distance_1(
                (#[trigger] moves[i]).0,
                start,
            ) <= 6 by {
                assert(before[i] == moves[i]);
            }
            if distance_1(moves.last().0, start) > 6 {
                assert(distance_1(moves[moves.len() - 1].0, start) > 6);
            }
        }
    }
}

/// A press on the bar, any motions of the pointer, and letting go. Where the
/// pointer never went further than 6 from the press, that is a click: the
/// bar's state is what it was, so the settings are unchanged. Otherwise it is
/// a drag: the position is a custom one, the place is that of the window at
/// the press plus the pointer's last offset, and the rest of the settings is
/// unchanged. Either way the drag is over.
pub proof fn law_a_grab_is_a_click_or_a_drag(
    app: AppState,
    start: (i32, i32),
    window: (i32, i32),
    moves: Seq<((i32, i32), Instant)>,
    now: Instant,
)
    requires
        went_far(start, moves) ==> fits(window.0 + (moves.last().0.0 - start.0)) && fits(
            window.1 + (moves.last().0.1 - start.1),
        ),
    ensures
        ({
            let held = after_motions(app.after_press(start, window), moves);
            let end = held.after_release(now);
            &&& end.drag is None
            &&& !went_far(start, moves) ==> {
                &&& held.outcome() == Release::Clicked
                &&& end == (AppState { drag: None, ..app })
                &&& end.settings == app.settings
            }
            &&& went_far(start, moves) ==> {
                &&& held.outcome() == Release::Dragged
                &&& end.settings.position == Position::Custom
                &&& end.settings.custom_x == window.0 + (moves.last().0.0 - start.0)
                &&& end.settings.custom_y == window.1 + (moves.last().0.1 - start.1)
                &&& end.settings == (Settings {
                    position: Position::Custom,
                    custom_x: end.settings.custom_x,
                    custom_y: end.settings.custom_y,
                    ..app.settings
                })
            }
        }),
{
    lemma_grab(app, start, window, moves);
}

/// What is under the user's hand stays in sight: a bar that is dragged stays
/// for another 600 ms after each move, one that was let go for the time of the
/// settings, and one that the pointer is on for another 400 ms.
pub proof fn law_a_bar_in_use_stays_in_sight(
    app: AppState,
    cursor: (i32, i32),
    now: Instant,
    input: FrameInput,
)
    requires
        now.nanos + 600_000_000 <= u128::MAX,
        now.nanos + app.settings.hide_ms * 1_000_000 <= u128::MAX,
    ensures
        app.drag_target(cursor) is Some ==> {
            let next = app.after_motion(cursor, now);
            &&& next.hide_at is Some && next.hide_at->0.nanos == now.nanos + 600_000_000
            &&& next.anim_alpha == of_bits(ONE) || app.drag->0.moved
            &&& next.pop == of_bits(ONE) || app.drag->0.moved
        },
        app.drag is Some && app.drag->0.moved ==> {
            let next = app.after_release(now);
            next.hide_at is Some && next.hide_at->0.nanos == now.nanos + app.settings.hide_ms
                * 1_000_000
        },
        of_bits(HALF).below_spec(app.anim_alpha) && input.hovering ==> app.stay_until(input)
            == Some(input.now.nanos + 400_000_000),
        !input.hovering && app.hide_at is Some ==> app.stay_until(input) == Some(
            app.hide_at->0.nanos as int,
        ),
{
}

} // verus!
