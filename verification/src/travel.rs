//! The bar's way out of the tray icon and back: where it starts, where it
//! rests, and that it never leaves the way between.

use crate::control_laws::lemma_zero_product;
use crate::draw::hundredths;
use crate::frame::Bar;
use crate::osd::truncated;
use crate::precision::{fine, lemma_times_error, lemma_to_int, lemma_units, unit};
use crate::rounding::{
    lemma_below_limit, lemma_exact, lemma_negated, lemma_one_scaled, lemma_over_rounds,
    lemma_plus_keeps_order, lemma_plus_rounds, lemma_plus_zero, lemma_pow2_big, lemma_rank_order,
    lemma_round_at, lemma_rounded_is, lemma_rounds_to_scaled, lemma_share, lemma_sign,
    lemma_signed_exact, lemma_single_of_exact, lemma_times_keeps_order, lemma_to_int_keeps_order,
};
use crate::scale::{
    law_easing_is_bounded_and_keeps_order, lemma_plus_commutes, lemma_times_commutes,
};
use crate::single::{abs, of_bits, overflow_limit, single_of, zero, Single, ONE};
use vstd::arithmetic::power2::{lemma_pow2_adds, lemma_pow2_pos, lemma_pow2_unfold, pow2};
use vstd::prelude::*;

verus! {

/// Coordinates whose differences are exact in single precision.
pub open spec fn is_near(n: int) -> bool {
    -0x80_0000 < n < 0x80_0000
}

/// Between two coordinates, in either order.
pub open spec fn is_between(n: int, a: int, b: int) -> bool {
    a <= n <= b || b <= n <= a
}

/// The difference of two near coordinates is exact.
proof fn lemma_difference(a: int, b: int)
    requires
        is_near(a),
        is_near(b),
    ensures
        single_of(b).minus_spec(single_of(a)).is_finite(),
        single_of(b).minus_spec(single_of(a)).rank() == single_of(b - a).rank(),
{
    let unit = pow2(149) as int;
    let (x, y, z) = (single_of(a), single_of(b), single_of(b - a));
    lemma_signed_exact(a);
    lemma_signed_exact(b);
    lemma_signed_exact(b - a);
    lemma_negated(x);
    reveal(Single::minus_spec);
    reveal(Single::plus_spec);
    assert(b * unit + -(a * unit) == (b - a) * unit) by (nonlinear_arith);
    lemma_exact(z, 1, z.is_negative());
    let negative = lemma_plus_rounds(y, x.negated());
    lemma_sign(z);
    if b - a == 0 {
        lemma_rounded_is(y.minus_spec(x), 0, 1, negative);
        lemma_sign(y.minus_spec(x));
    }
}

proof fn lemma_travelled(bar: Bar, a: int, b: int)
    requires
        is_near(a),
        is_near(b),
        bar.growth().is_finite(),
        0 <= bar.growth().rank() <= 0x3F80_0000,
    ensures
        is_between(bar.travelled(a, b), a, b),
        bar.growth().rank() == 0 ==> bar.travelled(a, b) == a,
        bar.growth() == of_bits(ONE) ==> bar.travelled(a, b) == b,
{
    let (x, y, g) = (single_of(a), single_of(b), bar.growth());
    let d = y.minus_spec(x);
    lemma_signed_exact(a);
    lemma_signed_exact(b);
    lemma_signed_exact(b - a);
    lemma_difference(a, b);
    lemma_share(d, g);
    let p = d.times_spec(g);
    let r = x.plus_spec(p);
    // All of the way leads to `b`, none of it to `a`.
    lemma_plus_commutes(x, p);
    lemma_plus_commutes(x, d);
    lemma_plus_commutes(x, zero(false));
    lemma_plus_zero(x, zero(false));
    assert(d.plus_spec(x).rank() == y.rank()) by {
        let unit = pow2(149) as int;
        reveal(Single::plus_spec);
        lemma_rank_order(d, single_of(b - a));
        assert((b - a) * unit + a * unit == b * unit) by (nonlinear_arith);
        lemma_exact(y, 1, y.is_negative());
        let negative = lemma_plus_rounds(d, x);
        lemma_sign(y);
        if b == 0 {
            lemma_rounded_is(d.plus_spec(x), 0, 1, negative);
            lemma_sign(d.plus_spec(x));
        }
    }
    if p.rank() >= 0 {
        lemma_plus_keeps_order(zero(false), p, x);
    }
    if p.rank() <= 0 {
        lemma_plus_keeps_order(p, zero(false), x);
    }
    if d.rank() <= p.rank() {
        lemma_plus_keeps_order(d, p, x);
    }
    if p.rank() <= d.rank() {
        lemma_plus_keeps_order(p, d, x);
    }
    if x.rank() <= r.rank() {
        lemma_to_int_keeps_order(x, r, true);
    }
    if r.rank() <= x.rank() {
        lemma_to_int_keeps_order(r, x, true);
    }
    if y.rank() <= r.rank() {
        lemma_to_int_keeps_order(y, r, true);
    }
    if r.rank() <= y.rank() {
        lemma_to_int_keeps_order(r, y, true);
    }
}

impl Bar {
    /// Where a docked bar starts: about the middle of the tray icon at `p`.
    pub open spec fn start(self, p: (i32, i32)) -> (int, int) {
        (p.0 - truncated(self.draw_w(), 2), p.1 - truncated(self.draw_h(), 2))
    }
}

/// A docked bar comes straight out of the tray icon: it starts about the
/// icon's middle, ends at its resting place, and stays between the two.
pub proof fn law_a_docked_bar_travels_from_the_icon_to_its_place(bar: Bar, p: (i32, i32))
    requires
        bar.is_docked(),
        bar.tray_point == Some(p),
        !bar.pop.is_nan(),
        is_near(bar.start(p).0) && is_near(bar.start(p).1),
        is_near(bar.end().0) && is_near(bar.end().1),
    ensures
        is_between(bar.place().0, bar.start(p).0, bar.end().0),
        is_between(bar.place().1, bar.start(p).1, bar.end().1),
        bar.pop.at_most_spec(zero(false)) ==> bar.place() == bar.start(p),
        of_bits(ONE).at_most_spec(bar.pop) ==> bar.place() == bar.end(),
{
    let pop = bar.pop.clamped(zero(false), of_bits(ONE));
    law_easing_is_bounded_and_keeps_order(pop, pop);
    lemma_travelled(bar, bar.start(p).0, bar.end().0);
    lemma_travelled(bar, bar.start(p).1, bar.end().1);
}

/// The bits of 0.28 and 0.72, of which the scale is made up.
const LEAST: u32 = 0x3E8F_5C29;

const REST: u32 = 0x3F38_51EC;

proof fn lemma_least()
    ensures
        hundredths(28) == of_bits(LEAST),
        of_bits(LEAST).scaled() == 0x8F_5C29 * pow2(124),
{
    let (a, c, r) = (single_of(28), single_of(100), of_bits(LEAST));
    let (unit, p) = (pow2(149) as int, pow2(124) as int);
    lemma_signed_exact(28);
    lemma_signed_exact(100);
    lemma_pow2_pos(124);
    lemma_pow2_pos(149);
    lemma_pow2_big();
    lemma_pow2_adds(25, 124);
    lemma_sign(c);
    lemma_over_rounds(a, c);
    lemma_rounds_to_scaled(a.over_spec(c), 28 * unit, 100, unit, false);
    lemma_round_at(r, 28 * unit, 100, 124, 0x8F_5C29);
    lemma_sign(r);
    lemma_below_limit(r);
    assert(28 * unit < overflow_limit() * 100) by {
        lemma_one_scaled();
        lemma_below_limit(of_bits(ONE));
    }
    lemma_rounded_is(r, 28 * unit, 100, false);
    lemma_rounded_is(a.over_spec(c), 28 * unit, 100, false);
}

proof fn lemma_rest()
    ensures
        of_bits(ONE).minus_spec(of_bits(LEAST)) == of_bits(REST),
        of_bits(REST).scaled() == 0xB8_51EC * pow2(125),
{
    let (one, a, r) = (of_bits(ONE), of_bits(LEAST), of_bits(REST));
    lemma_least();
    lemma_one_scaled();
    lemma_pow2_pos(124);
    lemma_pow2_big();
    lemma_pow2_adds(25, 124);
    lemma_pow2_unfold(125);
    lemma_negated(a);
    reveal(Single::minus_spec);
    reveal(Single::plus_spec);
    let n = one.scaled() - a.scaled();
    lemma_round_at(r, n, 1, 125, 0xB8_51EC);
    lemma_sign(r);
    lemma_below_limit(one);
    lemma_rounded_is(r, n, 1, false);
}

proof fn lemma_whole_again()
    ensures
        of_bits(LEAST).plus_spec(of_bits(REST)) == of_bits(ONE),
{
    let (one, a, b) = (of_bits(ONE), of_bits(LEAST), of_bits(REST));
    lemma_least();
    lemma_rest();
    lemma_one_scaled();
    lemma_pow2_pos(124);
    lemma_pow2_big();
    lemma_pow2_unfold(125);
    lemma_pow2_unfold(126);
    reveal(Single::plus_spec);
    let n = a.scaled() + b.scaled();
    lemma_round_at(one, n, 1, 126, 0x80_0000);
    lemma_signed_exact(2);
    lemma_below_limit(single_of(2));
    lemma_rounded_is(one, n, 1, false);
}

proof fn lemma_full_length(w: int)
    requires
        0 <= w < 0x40_0000,
    ensures
        single_of(w).times_spec(of_bits(ONE)).to_int(true) == w,
{
    lemma_signed_exact(w);
    lemma_share(single_of(w), of_bits(ONE));
    lemma_to_int_keeps_order(single_of(w), single_of(w).times_spec(of_bits(ONE)), true);
    lemma_to_int_keeps_order(single_of(w).times_spec(of_bits(ONE)), single_of(w), true);
}

/// A bar that has popped out has its full size, and a floating one is at its
/// resting place.
pub proof fn law_a_bar_popped_out_has_its_full_size(bar: Bar)
    requires
        0 <= bar.width < 0x40_0000,
        0 <= bar.height < 0x40_0000,
        of_bits(ONE).at_most_spec(bar.pop),
    ensures
        bar.scale() == of_bits(ONE),
        bar.draw_w() == bar.width,
        bar.draw_h() == bar.height,
        !bar.is_docked() || bar.tray_point is None ==> bar.place() == bar.end(),
{
    let one = of_bits(ONE);
    law_easing_is_bounded_and_keeps_order(one, one);
    assert(bar.pop.clamped(zero(false), one) == one);
    lemma_least();
    lemma_rest();
    lemma_share(of_bits(REST), one);
    assert(of_bits(REST).times_spec(one) == of_bits(REST));
    lemma_whole_again();
    lemma_full_length(bar.width as int);
    lemma_full_length(bar.height as int);
}

/// The bar grows out of the icon and shrinks back into it: the further it has
/// popped out, the larger it is, never smaller, from 28 percent of its size on.
/// Its size on the way is that part of its own, within a pixel.
pub proof fn law_the_bar_grows_out_of_the_icon(a: Bar, b: Bar)
    requires
        b == (Bar { pop: b.pop, ..a }),
        a.pop.at_most_spec(b.pop),
        0 <= a.width < 0x1_0000,
        0 <= a.height < 0x1_0000,
    ensures
        a.scale().at_most_spec(b.scale()),
        a.draw_w() <= b.draw_w(),
        a.draw_h() <= b.draw_h(),
        a.pop.at_most_spec(zero(false)) ==> 100 * abs(
            100 * a.scale().scaled() - 28 * pow2(149),
        ) <= pow2(149),
        a.scale().is_finite() && 0 < a.scale().scaled() <= pow2(149),
        2 * abs(a.draw_w() * pow2(149) - a.width * a.scale().scaled()) <= pow2(149) + pow2(149)
            as int / 2,
        2 * abs(a.draw_h() * pow2(149) - a.height * a.scale().scaled()) <= pow2(149) + pow2(149)
            as int / 2,
{
    let (one, none) = (of_bits(ONE), zero(false));
    let (least, rest) = (of_bits(LEAST), of_bits(REST));
    lemma_units();
    lemma_one_scaled();
    lemma_least();
    lemma_rest();
    lemma_whole_again();
    lemma_sign(none);
    lemma_sign(rest);
    lemma_sign(least);
    let (p, q) = (a.pop.clamped(none, one), b.pop.clamped(none, one));
    law_easing_is_bounded_and_keeps_order(p, q);
    let (g, h) = (a.growth(), b.growth());
    lemma_times_commutes(rest, g);
    lemma_times_commutes(rest, h);
    lemma_times_keeps_order(g, h, rest);
    lemma_share(rest, g);
    lemma_share(rest, h);
    lemma_share(rest, one);
    let (x, y) = (rest.times_spec(g), rest.times_spec(h));
    lemma_plus_commutes(least, x);
    lemma_plus_commutes(least, y);
    lemma_plus_commutes(least, rest);
    lemma_plus_commutes(least, none);
    lemma_plus_keeps_order(x, y, least);
    lemma_plus_keeps_order(y, rest, least);
    lemma_plus_keeps_order(x, rest, least);
    lemma_plus_keeps_order(none, x, least);
    lemma_plus_zero(least, none);
    let (s, t) = (a.scale(), b.scale());
    assert(s.is_finite() && t.is_finite());
    lemma_rank_order(least, s);
    lemma_rank_order(s, one);
    lemma_rank_order(t, one);
    lemma_rank_order(s, t);
    lemma_pow2_pos(124);
    lemma_pow2_big();
    lemma_pow2_adds(25, 124);
    lemma_size_on_the_way(a.width as int, s, t);
    lemma_size_on_the_way(a.height as int, s, t);
    if a.pop.at_most_spec(none) {
        law_easing_is_bounded_and_keeps_order(p, p);
        assert(x.rank() == 0);
        lemma_plus_zero(least, x);
        lemma_rank_order(s, least);
    }
}

proof fn lemma_size_on_the_way(w: int, s: Single, t: Single)
    requires
        0 <= w < 0x1_0000,
        s.is_finite(),
        t.is_finite(),
        0 < s.scaled() <= unit(),
        0 < t.scaled() <= unit(),
        s.rank() <= t.rank(),
    ensures
        ({
            let u = unit();
            let n = single_of(w).times_spec(s).to_int(true);
            &&& n <= single_of(w).times_spec(t).to_int(true)
            &&& 2 * abs(n * u - w * s.scaled()) <= u + u / 2
        }),
{
    let (u, e) = (unit(), fine());
    lemma_units();
    lemma_signed_exact(w);
    let (x, v) = (single_of(w), s.scaled());
    lemma_sign(x);
    lemma_sign(s);
    lemma_sign(t);
    if w > 0 {
        assert(w * u > 0) by (nonlinear_arith)
            requires
                w > 0,
                u > 0,
        ;
        lemma_times_commutes(x, s);
        lemma_times_commutes(x, t);
        lemma_times_keeps_order(s, t, x);
    } else {
        assert(w * u == 0) by (nonlinear_arith)
            requires
                w == 0,
        ;
        lemma_single_of_exact(0);
        lemma_zero_product(s);
        lemma_zero_product(t);
    }
    let r = x.times_spec(s);
    lemma_to_int_keeps_order(r, x.times_spec(t), true);
    assert(abs((w * u) * v) == (w * v) * u && (w * v) * u <= 0x1_0000 * (u * u) && 0x1_0000 * (u
        * u) <= 0x100_0000_0000 * u * u && 0 <= w * v) by (nonlinear_arith)
        requires
            0 <= w < 0x1_0000,
            0 < v <= u,
    ;
    lemma_times_error(x, s);
    let z = r.scaled();
    assert(z * u - (w * u) * v == (z - w * v) * u) by (nonlinear_arith);
    let g = z - w * v;
    assert(abs(g) <= 0x1_0000 * e + 1) by (nonlinear_arith)
        requires
            0x80_0000 * abs(g * u) <= 0x1_0000 * (u * u) + 0x80_0000 * u,
            u == 0x80_0000 * e,
            e >= 1,
    ;
    assert(w * v <= 0x1_0000 * u) by (nonlinear_arith)
        requires
            0 <= w < 0x1_0000,
            0 < v <= u,
    ;
    lemma_to_int(r);
}

/// A floating bar grows about its own middle: on the way its middle is where
/// it is at rest, within a pixel.
pub proof fn law_a_floating_bar_grows_about_its_middle(bar: Bar)
    requires
        !bar.is_docked() || bar.tray_point is None,
    ensures
        ({
            let (x, y) = bar.place();
            &&& -1 <= (2 * x + bar.draw_w()) - (2 * bar.end().0 + bar.width) <= 1
            &&& -1 <= (2 * y + bar.draw_h()) - (2 * bar.end().1 + bar.height) <= 1
        }),
{
}

} // verus!
