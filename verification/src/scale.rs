//! Conversions between fader gains in decibels, display percentages and meter
//! positions, and the mouse wheel's notches.

use crate::rounding::{
    lemma_exact, lemma_negated, lemma_one_scaled, lemma_over_keeps_order, lemma_plus_keeps_order,
    lemma_plus_zero, lemma_pow2_big, lemma_share, lemma_sign, lemma_times_keeps_order,
    lemma_to_int_keeps_order, lemma_whole_small, lemma_zero_rounds,
};
use crate::single::{abs, of_bits, zero, Single, ONE};
use crate::text::{nat_text, unsigned_text};
use vstd::arithmetic::div_mod::{lemma_fundamental_div_mod, lemma_fundamental_div_mod_converse};
use vstd::arithmetic::power2::{
    lemma_pow2_adds, lemma_pow2_pos, lemma_pow2_strictly_increases, lemma_pow2_unfold, pow2,
};
use vstd::prelude::*;

verus! {

/// The bits of 100.0.
pub const HUNDRED: u32 = 0x42C8_0000;

/// The bits of 20.0.
pub const TWENTY: u32 = 0x41A0_0000;

/// The bits of 0.000015, the loudest amplitude that counts as silence.
pub const SILENCE: u32 = 0x377B_A882;

/// Standard delta for one detent of a notched mouse wheel.
pub const WHEEL_DELTA: i32 = 120;

// ---------------------------------------------------------------------------
// Fader gains
// ---------------------------------------------------------------------------

/// The width of the display range, at least one decibel.
pub open spec fn span(min_db: Single, max_db: Single) -> Single {
    max_db.minus_spec(min_db).larger(of_bits(ONE))
}

/// How far up the display range a gain sits, as a part of one.
pub open spec fn share(gain: Single, min_db: Single, max_db: Single) -> Single {
    gain.minus_spec(min_db).over_spec(span(min_db, max_db))
}

/// The same in whole percent, from 0 to 100.
pub open spec fn percent(gain: Single, min_db: Single, max_db: Single) -> int {
    let p = share(gain, min_db, max_db).times_spec(of_bits(HUNDRED)).to_int(true);
    if p < 0 {
        0
    } else if p > 100 {
        100
    } else {
        p
    }
}

fn share_of(gain: Single, min_db: Single, max_db: Single) -> (r: Single)
    ensures
        r == share(gain, min_db, max_db),
{
    let range: Single = max_db.minus(min_db).larger_of(Single::from_bits(ONE));
    gain.minus(min_db).over(range)
}

/// Maps a fader gain in dB onto 0-100 across the configured range.
pub fn gain_to_percent(gain: Single, min_db: Single, max_db: Single) -> (r: i32)
    ensures
        r == percent(gain, min_db, max_db),
        0 <= r <= 100,
{
    let p: i32 = share_of(gain, min_db, max_db).times(Single::from_bits(HUNDRED)).to_i32(true);
    if p < 0 {
        0
    } else if p > 100 {
        100
    } else {
        p
    }
}

/// Fraction of the track a given dB value sits at.
pub open spec fn fraction(gain: Single, min_db: Single, max_db: Single) -> Single {
    share(gain, min_db, max_db).clamped(zero(false), of_bits(ONE))
}

/// Fraction of the track a given dB value sits at, for drawing marks.
pub fn gain_fraction(gain: Single, min_db: Single, max_db: Single) -> (r: Single)
    ensures
        r == fraction(gain, min_db, max_db),
{
    share_of(gain, min_db, max_db).clamp_between(Single::from_bits(0), Single::from_bits(ONE))
}

/// Where on a meter an amplitude lies: a part of one, on a decibel scale
/// that starts at `floor_db`. `log10` is the amplitude's decimal logarithm.
pub open spec fn meter_position(amplitude: Single, log10: Single, floor_db: Single) -> Single {
    if amplitude.at_most_spec(of_bits(SILENCE)) {
        zero(false)
    } else {
        of_bits(TWENTY).times_spec(log10).minus_spec(floor_db).over_spec(
            floor_db.negated(),
        ).clamped(zero(false), of_bits(ONE))
    }
}

/// Levels come as linear amplitude; gives a 0-1 meter position on a dB scale,
/// so quiet signal is still visible.
pub fn amplitude_to_meter(amplitude: Single, log10: Single, floor_db: Single) -> (r: Single)
    ensures
        r == meter_position(amplitude, log10, floor_db),
{
    if amplitude.at_most(Single::from_bits(SILENCE)) {
        return Single::from_bits(0);
    }
    let db: Single = Single::from_bits(TWENTY).times(log10);
    db.minus(floor_db).over(floor_db.negate()).clamp_between(
        Single::from_bits(0),
        Single::from_bits(ONE),
    )
}

// ---------------------------------------------------------------------------
// The wheel
// ---------------------------------------------------------------------------

/// Turns raw wheel deltas into whole steps. Precision touchpads and
/// free-spinning wheels report fractions of a detent; dividing each event
/// by 120 would throw those away, so the remainder carries over.
pub struct WheelSteps {
    remainder: i32,
}

impl WheelSteps {
    /// The part of a notch that has not made a step yet.
    pub closed spec fn partial(&self) -> int {
        self.remainder as int
    }

    pub open spec fn wf(&self) -> bool {
        -WHEEL_DELTA < self.partial() < WHEEL_DELTA
    }

    /// The partial notch that the next event adds to: a change of direction
    /// starts fresh.
    pub open spec fn carried(&self, delta: int) -> int {
        if (delta > 0 && self.partial() < 0) || (delta < 0 && self.partial() > 0) {
            0
        } else {
            self.partial()
        }
    }

    /// What an event makes of the partial notch: all of it and the event are
    /// the whole steps and what is left, and none of these points the other
    /// way.
    pub open spec fn is_fed(self, delta: int, steps: int, after: WheelSteps) -> bool {
        let total = self.carried(delta) + delta;
        &&& after.wf()
        &&& steps * WHEEL_DELTA + after.partial() == total
        &&& total >= 0 ==> steps >= 0 && after.partial() >= 0
        &&& total <= 0 ==> steps <= 0 && after.partial() <= 0
    }

    /// Adds one wheel event and returns the whole steps it completes.
    pub fn feed(&mut self, delta: i32) -> (steps: i32)
        requires
            old(self).wf(),
            i32::MIN <= old(self).carried(delta as int) + delta <= i32::MAX,
        ensures
            old(self).is_fed(delta as int, steps as int, *final(self)),
            final(self).wf(),
            steps * WHEEL_DELTA + final(self).partial() == old(self).carried(delta as int) + delta,
            delta >= 0 && old(self).carried(delta as int) >= 0 ==> steps >= 0
                && final(self).partial() >= 0,
            delta <= 0 && old(self).carried(delta as int) <= 0 ==> steps <= 0
                && final(self).partial() <= 0,
    {
        if (delta > 0 && self.remainder < 0) || (delta < 0 && self.remainder > 0) {
            self.remainder = 0;
        }
        self.remainder = self.remainder + delta;
        let total: i64 = self.remainder as i64;
        let size: i64 = if total < 0 {
            -total
        } else {
            total
        };
        let whole: i64 = size / 120;
        let steps: i64 = if total < 0 {
            -whole
        } else {
            whole
        };
        self.remainder = (total - steps * 120) as i32;
        steps as i32
    }
}

impl Default for WheelSteps {
    fn default() -> (r: WheelSteps)
        ensures
            r.wf(),
            r.partial() == 0,
    {
        WheelSteps { remainder: 0 }
    }
}

// ---------------------------------------------------------------------------
// Easing and text
// ---------------------------------------------------------------------------

/// A cubic curve that starts fast and settles gently, from 0 to 1.
pub open spec fn eased(t: Single) -> Single {
    let one = of_bits(ONE);
    let rest = one.minus_spec(t.clamped(zero(false), one));
    one.minus_spec(rest.times_spec(rest).times_spec(rest))
}

pub fn ease_out_cubic(t: Single) -> (r: Single)
    ensures
        r == eased(t),
{
    let one = Single::from_bits(ONE);
    let inv: Single = one.minus(t.clamp_between(Single::from_bits(0), one));
    one.minus(inv.times(inv).times(inv))
}

/// The tenths in the absolute value of a finite number, rounded to the
/// nearest, ties to even.
pub open spec fn tenths(gain: Single) -> int {
    let unit = pow2(149) as int;
    let size = 10 * abs(gain.scaled());
    let cut = size / unit;
    let rest = size % unit;
    if 2 * rest > unit || (2 * rest == unit && cut % 2 == 1) {
        cut + 1
    } else {
        cut
    }
}

/// A gain in decibels with one decimal.
pub open spec fn db_text(gain: Single) -> Seq<char> {
    let sign = if gain.is_negative() {
        "-"@
    } else {
        ""@
    };
    if gain.is_nan() {
        "NaN dB"@
    } else if gain.is_infinite() {
        sign + "inf dB"@
    } else {
        sign + nat_text((tenths(gain) / 10) as nat) + "."@ + nat_text((tenths(gain) % 10) as nat)
            + " dB"@
    }
}

proof fn lemma_tenths_large(gain: Single, up: nat)
    requires
        gain.step() == 149 + up,
    ensures
        tenths(gain) == 10 * (gain.significand() * pow2(up)),
{
    let (m, p, unit) = (gain.significand(), pow2(up) as int, pow2(149) as int);
    lemma_pow2_adds(up, 149);
    lemma_pow2_pos(up);
    lemma_pow2_pos(149);
    let w = m * p;
    assert(m * (p * unit) == w * unit) by (nonlinear_arith)
        requires
            w == m * p,
    ;
    assert(w * unit >= 0) by (nonlinear_arith)
        requires
            w == m * p,
            m >= 0,
            p > 0,
            unit > 0,
    ;
    assert(10 * (w * unit) == unit * (10 * w)) by (nonlinear_arith);
    lemma_fundamental_div_mod_converse(10 * (w * unit), unit, 10 * w, 0);
}

proof fn lemma_tenths_small(gain: Single, down: nat)
    requires
        gain.step() + down == 149,
    ensures
        ({
            let unit = pow2(down) as int;
            let size = 10 * gain.significand();
            tenths(gain) == if 2 * (size % unit) > unit || (2 * (size % unit) == unit && (size
                / unit) % 2 == 1) {
                size / unit + 1
            } else {
                size / unit
            }
        }),
        down > 28 ==> tenths(gain) == 0,
{
    let (m, p, k) = (gain.significand(), pow2(down) as int, pow2(gain.step()) as int);
    let size = 10 * m;
    lemma_pow2_adds(down, gain.step());
    lemma_pow2_pos(down);
    lemma_pow2_pos(gain.step());
    let unit = p * k;
    let cut = size / p;
    let rest = size % p;
    lemma_fundamental_div_mod(size, p);
    assert(0 <= m * k) by (nonlinear_arith)
        requires
            m >= 0,
            k > 0,
    ;
    assert(10 * (m * k) == unit * cut + rest * k && 0 <= rest * k < unit) by (nonlinear_arith)
        requires
            size == 10 * m,
            size == p * cut + rest,
            0 <= rest < p,
            k > 0,
            unit == p * k,
    ;
    lemma_fundamental_div_mod_converse(10 * (m * k), unit, cut, rest * k);
    assert((2 * (rest * k) > unit <==> 2 * rest > p) && (2 * (rest * k) == unit <==> 2 * rest
        == p)) by (nonlinear_arith)
        requires
            k > 0,
            unit == p * k,
    ;
    if down > 28 {
        lemma_pow2_big();
        if down > 29 {
            lemma_pow2_strictly_increases(29, down);
        }
        lemma_fundamental_div_mod_converse(size, p, 0, size);
    }
}

fn power_of_two(n: u32) -> (r: u128)
    requires
        n <= 104,
    ensures
        r == pow2(n as nat),
{
    let mut r: u128 = 1;
    let mut i: u32 = 0;
    proof {
        lemma_pow2_big();
    }
    while i < n
        invariant
            i <= n <= 104,
            r == pow2(i as nat),
        decreases n - i,
    {
        proof {
            lemma_pow2_unfold((i + 1) as nat);
            lemma_pow2_big();
            lemma_pow2_strictly_increases(i as nat, 104);
        }
        r = r * 2;
        i = i + 1;
    }
    r
}

/// The whole decibels and the tenths of a finite gain, without its sign.
fn tenths_of(gain: Single) -> (r: (u128, u128))
    requires
        gain.is_finite(),
    ensures
        r.0 == tenths(gain) / 10,
        r.1 == tenths(gain) % 10,
{
    let m: u128 = gain.significand_of() as u128;
    let k: u32 = gain.step_of();
    if k >= 149 {
        let up: u32 = k - 149;
        proof {
            lemma_tenths_large(gain, up as nat);
            lemma_pow2_big();
            if up < 104 {
                lemma_pow2_strictly_increases(up as nat, 104);
            }
            let p = pow2(up as nat);
            assert(0 <= m * p < 0x1_0000_0000_0000_0000_0000_0000_0000_0000) by (nonlinear_arith)
                requires
                    0 <= m < 0x100_0000,
                    0 <= p <= 0x100_0000_0000_0000_0000_0000_0000,
            ;
        }
        return (m * (power_of_two(up)), 0);
    }
    let down: u32 = 149 - k;
    proof {
        lemma_tenths_small(gain, down as nat);
    }
    if down > 28 {
        return (0, 0);
    }
    proof {
        lemma_pow2_big();
        if down < 29 {
            lemma_pow2_strictly_increases(down as nat, 29);
        }
        lemma_pow2_pos(down as nat);
    }
    let unit: u128 = power_of_two(down);
    let cut: u128 = 10 * m / unit;
    let rest: u128 = 10 * m % unit;
    let t: u128 = if 2 * rest > unit || (2 * rest == unit && cut % 2 == 1) {
        cut + 1
    } else {
        cut
    };
    (t / 10, t % 10)
}

/// A gain in decibels with one decimal; nothing where there is no gain.
pub fn format_db(gain: Option<Single>) -> (r: String)
    ensures
        r@ == match gain {
            Some(g) => db_text(g),
            None => ""@,
        },
{
    match gain {
        None => String::from_str(""),
        Some(g) => {
            if g.is_nan_value() {
                return String::from_str("NaN dB");
            }
            let mut out: String = String::from_str(
                if g.bits >= 0x8000_0000 {
                    "-"
                } else {
                    ""
                },
            );
            if !g.is_finite_value() {
                out.append("inf dB");
                return out;
            }
            let (whole, tenth) = tenths_of(g);
            out.append(unsigned_text(whole).as_str());
            out.append(".");
            out.append(unsigned_text(tenth).as_str());
            out.append(" dB");
            out
        },
    }
}

// ---------------------------------------------------------------------------
// Laws
// ---------------------------------------------------------------------------

proof fn lemma_one()
    ensures
        of_bits(ONE).scaled() == pow2(149),
        of_bits(ONE).rank() == 0x3F80_0000,
        of_bits(HUNDRED).scaled() > 0,
        of_bits(HUNDRED).to_int(true) == 100,
        zero(false).scaled() == 0,
        zero(false).to_int(true) == 0,
{
    reveal(Single::to_int);
    let hundred = of_bits(HUNDRED);
    lemma_pow2_big();
    lemma_one_scaled();
    assert(hundred.step() == 132 && hundred.significand() == 0xC8_0000);
    lemma_sign(hundred);
    lemma_sign(zero(false));
    lemma_whole_small(hundred, 17, true);
    let (top, bottom) = (2 * hundred.significand() + pow2(17), 2 * pow2(17));
    assert(top == 0x192_0000 && bottom == 0x4_0000);
    lemma_fundamental_div_mod_converse(top, bottom as int, 100, 0x2_0000);
    lemma_to_int_keeps_order(zero(false), zero(true), true);
    lemma_to_int_keeps_order(zero(true), zero(false), true);
}

/// The quotient of a positive finite number by itself is one.
pub proof fn lemma_whole_share(x: Single)
    requires
        x.is_finite(),
        x.rank() > 0,
    ensures
        x.over_spec(x) == of_bits(ONE),
{
    reveal(Single::over_spec);
    let one = of_bits(ONE);
    lemma_one();
    lemma_sign(x);
    lemma_exact(one, x.scaled(), false);
    let (v, unit) = (x.scaled(), pow2(149) as int);
    assert(v * unit == unit * v) by (nonlinear_arith);
}

proof fn lemma_zero_share(x: Single)
    requires
        !x.is_nan(),
        x.rank() > 0,
    ensures
        zero(false).over_spec(x) == zero(false),
{
    reveal(Single::over_spec);
    lemma_one();
    lemma_sign(x);
    if x.is_finite() {
        lemma_zero_rounds(x.scaled(), false);
        assert(0 * pow2(149) == 0) by (nonlinear_arith);
    }
}

/// One and zero times a hundred are exact.
proof fn lemma_hundredfold()
    ensures
        of_bits(ONE).times_spec(of_bits(HUNDRED)) == of_bits(HUNDRED),
        zero(false).times_spec(of_bits(HUNDRED)) == zero(false),
        zero(true).times_spec(of_bits(HUNDRED)) == zero(true),
{
    reveal(Single::times_spec);
    let hundred = of_bits(HUNDRED);
    lemma_one();
    lemma_pow2_pos(149);
    let (h, unit) = (hundred.scaled(), pow2(149) as int);
    lemma_exact(hundred, unit, false);
    assert(unit * h == h * unit) by (nonlinear_arith);
    lemma_zero_rounds(unit, false);
    lemma_zero_rounds(unit, true);
    lemma_sign(zero(true));
    assert(0 * h == 0) by (nonlinear_arith);
}

proof fn lemma_span(min_db: Single, max_db: Single)
    ensures
        !span(min_db, max_db).is_nan(),
        span(min_db, max_db).rank() >= 0x3F80_0000,
{
    reveal(Single::minus_spec);
    lemma_one();
}

/// The share of a gain, in percent, before it is limited to 0-100.
pub open spec fn raw_percent(gain: Single, min_db: Single, max_db: Single) -> int {
    share(gain, min_db, max_db).times_spec(of_bits(HUNDRED)).to_int(true)
}

proof fn lemma_infinite_span(gain: Single, min_db: Single, max_db: Single)
    requires
        span(min_db, max_db).is_infinite(),
    ensures
        raw_percent(gain, min_db, max_db) == 0,
{
    reveal(Single::over_spec);
    reveal(Single::times_spec);
    reveal(Single::to_int);
    lemma_span(min_db, max_db);
    lemma_hundredfold();
    lemma_one();
    lemma_to_int_keeps_order(zero(false), zero(true), true);
    lemma_to_int_keeps_order(zero(true), zero(false), true);
}

proof fn lemma_difference(gain: Single, min_db: Single)
    requires
        !gain.is_nan(),
        min_db.is_finite(),
    ensures
        !gain.minus_spec(min_db).is_nan(),
        gain.rank() <= min_db.rank() ==> gain.minus_spec(min_db).rank() <= 0,
{
    reveal(Single::minus_spec);
    reveal(Single::plus_spec);
    lemma_negated(min_db);
    if gain.is_finite() {
        lemma_plus_keeps_order(gain, gain, min_db.negated());
        if gain.rank() <= min_db.rank() {
            lemma_plus_keeps_order(gain, min_db, min_db.negated());
            lemma_zero_rounds(1, false);
        }
    }
}

/// Moving a fader up never lowers the percentage shown.
pub proof fn law_percent_keeps_order(a: Single, b: Single, min_db: Single, max_db: Single)
    requires
        !a.is_nan(),
        !b.is_nan(),
        a.rank() <= b.rank(),
        min_db.is_finite(),
    ensures
        percent(a, min_db, max_db) <= percent(b, min_db, max_db),
{
    reveal(Single::minus_spec);
    reveal(Single::plus_spec);
    let range = span(min_db, max_db);
    let hundred = of_bits(HUNDRED);
    lemma_span(min_db, max_db);
    lemma_difference(a, min_db);
    lemma_difference(b, min_db);
    if range.is_infinite() {
        lemma_infinite_span(a, min_db, max_db);
        lemma_infinite_span(b, min_db, max_db);
    } else {
        lemma_negated(min_db);
        if a.is_finite() && b.is_finite() {
            lemma_plus_keeps_order(a, b, min_db.negated());
        }
        lemma_over_keeps_order(a.minus_spec(min_db), b.minus_spec(min_db), range);
        lemma_times_keeps_order(
            share(a, min_db, max_db),
            share(b, min_db, max_db),
            hundred,
        );
        lemma_to_int_keeps_order(
            share(a, min_db, max_db).times_spec(hundred),
            share(b, min_db, max_db).times_spec(hundred),
            true,
        );
    }
}

/// The display range spans 0 to 100: a gain at or below its lower end shows
/// as 0, and one at or above its upper end as 100.
pub proof fn law_percent_spans_the_range(gain: Single, min_db: Single, max_db: Single)
    requires
        !gain.is_nan(),
        min_db.is_finite(),
        max_db.is_finite(),
    ensures
        gain.rank() <= min_db.rank() ==> percent(gain, min_db, max_db) == 0,
        gain.rank() >= max_db.rank() && max_db.minus_spec(min_db).is_finite()
            && 0x3F80_0000 <= max_db.minus_spec(min_db).rank() ==> percent(gain, min_db, max_db)
            == 100,
{
    let range = span(min_db, max_db);
    let hundred = of_bits(HUNDRED);
    lemma_span(min_db, max_db);
    lemma_difference(gain, min_db);
    lemma_hundredfold();
    lemma_one();
    if gain.rank() <= min_db.rank() {
        if range.is_infinite() {
            lemma_infinite_span(gain, min_db, max_db);
        } else {
            lemma_over_keeps_order(gain.minus_spec(min_db), zero(false), range);
            lemma_zero_share(range);
            lemma_times_keeps_order(share(gain, min_db, max_db), zero(false), hundred);
            lemma_to_int_keeps_order(
                share(gain, min_db, max_db).times_spec(hundred),
                zero(false),
                true,
            );
        }
    }
    if gain.rank() >= max_db.rank() && max_db.minus_spec(min_db).is_finite() && 0x3F80_0000
        <= max_db.minus_spec(min_db).rank() {
        assert(range.rank() == max_db.minus_spec(min_db).rank());
        assert(range == max_db.minus_spec(min_db));
        lemma_whole_share(range);
        law_percent_keeps_order(max_db, gain, min_db, max_db);
    }
}

/// A meter position lies between 0 and 1, and a louder signal never shows as
/// less. `la` and `lb` are the logarithms of the amplitudes `a` and `b`.
pub proof fn law_meter_positions_are_bounded_and_keep_order(
    a: Single,
    la: Single,
    b: Single,
    lb: Single,
    floor_db: Single,
)
    requires
        a.at_most_spec(b),
        la.at_most_spec(lb),
        of_bits(TWENTY).times_spec(la).is_finite(),
        of_bits(TWENTY).times_spec(lb).is_finite(),
        floor_db.is_finite(),
        floor_db.below_spec(zero(false)),
    ensures
        0 <= meter_position(a, la, floor_db).rank(),
        meter_position(a, la, floor_db).at_most_spec(meter_position(b, lb, floor_db)),
        meter_position(b, lb, floor_db).rank() <= 0x3F80_0000,
{
    let (x, y) = (of_bits(TWENTY).times_spec(la), of_bits(TWENTY).times_spec(lb));
    lemma_times_commutes(of_bits(TWENTY), la);
    lemma_times_commutes(of_bits(TWENTY), lb);
    lemma_times_keeps_order(la, lb, of_bits(TWENTY));
    lemma_negated(floor_db);
    reveal(Single::minus_spec);
    lemma_plus_keeps_order(x, y, floor_db.negated());
    lemma_over_keeps_order(x.minus_spec(floor_db), y.minus_spec(floor_db), floor_db.negated());
}

/// Full scale, whose logarithm is zero, fills the meter, and silence leaves
/// it empty.
pub proof fn law_full_scale_fills_the_meter(amplitude: Single, log10: Single, floor_db: Single)
    requires
        floor_db.is_finite(),
        floor_db.below_spec(zero(false)),
    ensures
        log10.rank() == 0 && !amplitude.at_most_spec(of_bits(SILENCE)) ==> meter_position(
            amplitude,
            log10,
            floor_db,
        ) == of_bits(ONE),
        amplitude.at_most_spec(of_bits(SILENCE)) ==> meter_position(amplitude, log10, floor_db)
            == zero(false),
{
    if log10.rank() == 0 {
        let (top, none) = (floor_db.negated(), of_bits(TWENTY).times_spec(log10));
        lemma_share(of_bits(TWENTY), log10);
        lemma_negated(floor_db);
        reveal(Single::minus_spec);
        lemma_plus_zero(top, none);
        assert(none.minus_spec(floor_db) == top);
        lemma_whole_share(top);
    }
}

pub proof fn lemma_plus_commutes(a: Single, b: Single)
    requires
        a.is_finite(),
        b.is_finite(),
    ensures
        a.plus_spec(b) == b.plus_spec(a),
{
    reveal(Single::plus_spec);
}

/// `1 - c` for `c` from 0 to 1.
pub proof fn lemma_complement(c: Single)
    requires
        c.is_finite(),
        0 <= c.rank() <= 0x3F80_0000,
    ensures
        0 <= of_bits(ONE).minus_spec(c).rank() <= 0x3F80_0000,
        of_bits(ONE).minus_spec(c).is_finite(),
        c.rank() == 0 ==> of_bits(ONE).minus_spec(c) == of_bits(ONE),
        c.rank() == 0x3F80_0000 ==> of_bits(ONE).minus_spec(c) == zero(false),
{
    reveal(Single::minus_spec);
    reveal(Single::plus_spec);
    let one = of_bits(ONE);
    lemma_one();
    lemma_negated(c);
    lemma_negated(one);
    lemma_sign(c);
    lemma_plus_commutes(one, c.negated());
    lemma_plus_commutes(one, one.negated());
    lemma_plus_commutes(one, zero(true));
    lemma_plus_keeps_order(one.negated(), c.negated(), one);
    lemma_plus_keeps_order(c.negated(), zero(true), one);
    lemma_sign(zero(true));
    lemma_zero_rounds(1, false);
    lemma_exact(one, 1, false);
    assert(zero(true).plus_spec(one) == one);
    if c.rank() == 0 {
        assert(c.scaled() == 0);
        assert(one.minus_spec(c) == one);
    }
    if c.rank() == 0x3F80_0000 {
        assert(c == one);
    }
}

proof fn lemma_complement_order(a: Single, b: Single)
    requires
        a.is_finite(),
        b.is_finite(),
        a.rank() <= b.rank(),
    ensures
        of_bits(ONE).minus_spec(b).rank() <= of_bits(ONE).minus_spec(a).rank(),
{
    reveal(Single::minus_spec);
    let one = of_bits(ONE);
    lemma_negated(a);
    lemma_negated(b);
    lemma_plus_commutes(one, a.negated());
    lemma_plus_commutes(one, b.negated());
    lemma_plus_keeps_order(b.negated(), a.negated(), one);
}

pub proof fn lemma_times_commutes(a: Single, b: Single)
    ensures
        a.times_spec(b) == b.times_spec(a),
{
    reveal(Single::times_spec);
    let (x, y) = (a.scaled(), b.scaled());
    assert(x * y == y * x) by (nonlinear_arith);
}

/// Products of numbers from 0 to 1 stay there and keep order.
pub proof fn lemma_unit_product(a: Single, b: Single, c: Single, d: Single)
    requires
        a.is_finite() && b.is_finite() && c.is_finite() && d.is_finite(),
        0 <= a.rank() <= b.rank() <= 0x3F80_0000,
        0 <= c.rank() <= d.rank() <= 0x3F80_0000,
    ensures
        0 <= a.times_spec(c).rank() <= b.times_spec(d).rank() <= 0x3F80_0000,
        a.times_spec(c).is_finite(),
        b.times_spec(d).is_finite(),
        a.rank() == 0 ==> a.times_spec(c).rank() == 0,
{
    reveal(Single::times_spec);
    let one = of_bits(ONE);
    lemma_one();
    lemma_zero_product(a, c);
    lemma_zero_product(c, a);
    lemma_times_commutes(a, c);
    lemma_zero_product(b, d);
    lemma_zero_product(d, b);
    lemma_times_commutes(b, d);
    if b.rank() > 0 && d.rank() > 0 {
        // b * d <= 1 * d <= 1 * 1
        lemma_times_keeps_order(b, one, d);
        lemma_times_commutes(one, d);
        lemma_times_keeps_order(d, one, one);
        lemma_pow2_pos(149);
        lemma_exact(one, pow2(149) as int, false);
        if a.rank() > 0 && c.rank() > 0 {
            lemma_times_keeps_order(a, b, c);
            lemma_times_commutes(b, c);
            lemma_times_keeps_order(c, d, b);
        }
    }
}

proof fn lemma_zero_product(a: Single, b: Single)
    requires
        a.is_finite(),
        b.is_finite(),
        a.rank() >= 0,
        b.rank() >= 0,
    ensures
        a.rank() == 0 ==> a.times_spec(b).rank() == 0 && a.times_spec(b).is_finite(),
        a.rank() > 0 && b.rank() > 0 ==> a.times_spec(b).rank() >= 0,
{
    reveal(Single::times_spec);
    lemma_sign(a);
    lemma_sign(b);
    lemma_pow2_pos(149);
    if a.rank() == 0 {
        assert(a.scaled() * b.scaled() == 0) by (nonlinear_arith)
            requires
                a.scaled() == 0,
        ;
        lemma_zero_rounds(pow2(149) as int, a.is_negative() != b.is_negative());
    } else if b.rank() > 0 {
        lemma_times_keeps_order(zero(false), a, b);
        lemma_sign(zero(false));
        assert(0 * b.scaled() == 0) by (nonlinear_arith);
        lemma_zero_rounds(pow2(149) as int, false);
    }
}

/// Easing runs from 0 to 1, never backwards.
pub proof fn law_easing_is_bounded_and_keeps_order(a: Single, b: Single)
    requires
        !a.is_nan(),
        !b.is_nan(),
        a.rank() <= b.rank(),
    ensures
        0 <= eased(a).rank() <= eased(b).rank() <= 0x3F80_0000,
        a.rank() <= 0 ==> eased(a) == zero(false),
        b.rank() >= 0x3F80_0000 ==> eased(b) == of_bits(ONE),
{
    reveal(Single::times_spec);
    let one = of_bits(ONE);
    let (x, y) = (a.clamped(zero(false), one), b.clamped(zero(false), one));
    let (p, q) = (one.minus_spec(x), one.minus_spec(y));
    lemma_complement(x);
    lemma_complement(y);
    lemma_complement_order(x, y);
    lemma_unit_product(q, p, q, p);
    lemma_unit_product(q.times_spec(q), p.times_spec(p), q, p);
    let (u, v) = (p.times_spec(p).times_spec(p), q.times_spec(q).times_spec(q));
    lemma_complement(u);
    lemma_complement(v);
    lemma_complement_order(v, u);
    lemma_one();
    lemma_pow2_pos(149);
    lemma_exact(one, pow2(149) as int, false);
}

} // verus!
