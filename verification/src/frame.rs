//! One frame of the bar: what is drawn, how large, where, and how opaque.

use crate::config::{Orientation, Position};
use crate::draw::{
    draw_horizontal, draw_horizontal_shapes, draw_shadow, draw_shadow_shapes, draw_tail,
    draw_tail_shapes, draw_vertical, draw_vertical_shapes, hundredths, hundredths_of, points,
    points_of, put, put_all, BarView,
};
use crate::gfx::{argb, argb_word, lemma_byte, RoundRect, Shape, FULL, TWO};
use crate::osd::{
    can_place, fits, is_area, is_resolution, law_the_bar_has_a_place_on_ordinary_displays, origin,
    origin_for, truncated, MonitorInfo, SHADOW, TAIL_H, TAIL_W,
};
use crate::rounding::{
    lemma_exact, lemma_one_scaled, lemma_over_keeps_order, lemma_over_rounds,
    lemma_plus_keeps_order, lemma_plus_rounds, lemma_pow2_big, lemma_rank_order,
    lemma_rounding_order, lemma_rounding_places, lemma_sign, lemma_single_of_exact,
    lemma_times_keeps_order, lemma_to_int_keeps_order, lemma_to_int_range, lemma_zero_rounds,
};
use crate::scale::{
    ease_out_cubic, eased, law_easing_is_bounded_and_keeps_order, lemma_complement,
    lemma_plus_commutes, lemma_times_commutes, lemma_unit_product, lemma_whole_share,
};
use crate::single::{of_bits, single_of, zero, Single, ONE};
use vstd::arithmetic::power2::{lemma_pow2_adds, lemma_pow2_pos, lemma_pow2_unfold, pow2};
use vstd::prelude::*;

verus! {

/// Everything that a frame depends on.
#[derive(Clone, Copy, Debug)]
pub struct Bar {
    pub view: BarView,
    /// Eased bar level, so the fill glides instead of snapping.
    pub display_pct: Single,
    pub anim_alpha: Single,
    /// 0 = tucked into the tray icon, 1 = fully popped out.
    pub pop: Single,
    pub tray_point: Option<(i32, i32)>,
    /// The display that hosts the bar.
    pub monitor: MonitorInfo,
    /// The resolution that the surface was made for, and its size.
    pub dpi: i32,
    pub width: i32,
    pub height: i32,
    /// The colour of the level.
    pub accent: (u8, u8, u8),
}

/// A frame: what is drawn and how it is scaled, and where its window goes.
pub struct Frame {
    pub scale: Single,
    pub shapes: Vec<Shape>,
    pub x: i32,
    pub y: i32,
    pub width: i32,
    pub height: i32,
    pub alpha: u8,
}

impl Bar {
    /// Whether the frame can be told in 32 bits: its resting place, its place
    /// on the way there, and where its tail points.
    pub open spec fn wf(self) -> bool {
        &&& can_place(
            self.view.settings,
            self.dpi as int,
            self.monitor.work,
            self.tray_point,
        )
        &&& fits(self.place().0)
        &&& fits(self.place().1)
        &&& self.fits_tail()
    }

    /// An ordinary display, and a surface whose size stays exact in single
    /// precision.
    pub open spec fn is_ordinary(self) -> bool {
        &&& is_resolution(self.dpi as int)
        &&& is_area(self.monitor.work)
        &&& 0 <= self.width < 0x40_0000
        &&& 0 <= self.height < 0x40_0000
    }

    pub open spec fn is_docked(self) -> bool {
        self.view.settings.position == Position::AboveTray
    }

    pub open spec fn is_vertical(self) -> bool {
        self.view.settings.orientation == Orientation::Vertical
    }

    /// The room for the shadow.
    pub open spec fn pad(self) -> Single {
        points(SHADOW as int, self.dpi as int)
    }

    pub open spec fn tail_h(self) -> Single {
        if self.is_docked() {
            points(TAIL_H as int, self.dpi as int)
        } else {
            zero(false)
        }
    }

    pub open spec fn card_w(self) -> Single {
        single_of(self.width as int).minus_spec(self.pad().times_spec(single_of(2)))
    }

    pub open spec fn card_h(self) -> Single {
        single_of(self.height as int).minus_spec(self.pad().times_spec(single_of(2))).minus_spec(
            self.tail_h(),
        )
    }

    pub open spec fn radius(self) -> Single {
        if self.is_vertical() {
            points(22, self.dpi as int)
        } else {
            points(16, self.dpi as int)
        }
    }

    /// The resting place.
    pub open spec fn end(self) -> (int, int) {
        origin(self.view.settings, self.dpi as int, self.monitor.work, self.tray_point)
    }

    /// The straight part of the card's lower edge, where the tail can be.
    pub open spec fn tail_range(self) -> (Single, Single) {
        let inset = self.radius();
        let room = points(6, self.dpi as int);
        (
            self.pad().plus_spec(inset).plus_spec(room),
            self.pad().plus_spec(self.card_w()).minus_spec(inset).minus_spec(room),
        )
    }

    pub open spec fn is_tail_drawn(self) -> bool {
        zero(false).below_spec(self.tail_h())
    }

    /// Whether there is room for a tail that points at the icon, where one is
    /// drawn.
    pub open spec fn fits_tail(self) -> bool {
        self.is_tail_drawn() && self.tray_point is Some ==> self.tail_range().0.at_most_spec(
            self.tail_range().1,
        )
    }

    /// Where the tail points: at the icon's real place, not just the card's
    /// middle, so it stays accurate when the card is clamped against a screen
    /// edge.
    pub open spec fn tail_center(self) -> Single {
        match self.tray_point {
            Some(p) => single_of(p.0 - self.end().0).clamped(
                self.tail_range().0,
                self.tail_range().1,
            ),
            None => self.pad().plus_spec(self.card_w().over_spec(single_of(2))),
        }
    }

    pub open spec fn card(self) -> Seq<Shape> {
        let (pad, w, h) = (self.pad(), self.card_w(), self.card_h());
        let half = hundredths(50);
        draw_shadow_shapes(pad, w, h, self.radius(), points(1, self.dpi as int)) + seq![
            Shape::Gradient {
                area: RoundRect { x: pad, y: pad, w, h, r: self.radius() },
                top: argb_word(247, 38, 38, 42),
                bottom: argb_word(247, 24, 24, 27),
            },
        ] + seq![
            Shape::Stroke {
                area: RoundRect {
                    x: pad.plus_spec(half),
                    y: pad.plus_spec(half),
                    w: w.minus_spec(single_of(1)),
                    h: h.minus_spec(single_of(1)),
                    r: self.radius(),
                },
                color: argb_word(26, 255, 255, 255),
                width: points(1, self.dpi as int),
            },
        ]
    }

    pub open spec fn tail(self) -> Seq<Shape> {
        if self.is_tail_drawn() {
            draw_tail_shapes(
                self.tail_center(),
                self.pad().plus_spec(self.card_h()),
                points(TAIL_W as int, self.dpi as int),
                self.tail_h(),
            )
        } else {
            Seq::empty()
        }
    }

    pub open spec fn face(self) -> Seq<Shape> {
        let pct = self.display_pct.over_spec(single_of(100)).clamped(zero(false), of_bits(ONE));
        if self.is_vertical() {
            draw_vertical_shapes(
                self.view,
                self.pad(),
                self.card_w(),
                self.card_h(),
                self.dpi,
                self.accent,
                pct,
            )
        } else {
            draw_horizontal_shapes(
                self.view,
                self.pad(),
                self.card_w(),
                self.card_h(),
                self.dpi,
                self.accent,
                pct,
            )
        }
    }

    /// How far the bar has grown out of the tray icon, eased.
    pub open spec fn growth(self) -> Single {
        eased(self.pop.clamped(zero(false), of_bits(ONE)))
    }

    /// The scale of the drawing: it emerges from the icon rather than from
    /// nothing.
    pub open spec fn scale(self) -> Single {
        hundredths(28).plus_spec(
            of_bits(ONE).minus_spec(hundredths(28)).times_spec(self.growth()),
        )
    }

    /// The size of the scaled drawing.
    pub open spec fn draw_w(self) -> int {
        single_of(self.width as int).times_spec(self.scale()).to_int(true)
    }

    pub open spec fn draw_h(self) -> int {
        single_of(self.height as int).times_spec(self.scale()).to_int(true)
    }

    /// On the way from one coordinate to another.
    pub open spec fn travelled(self, from: int, to: int) -> int {
        let start = single_of(from);
        start.plus_spec(single_of(to).minus_spec(start).times_spec(self.growth())).to_int(true)
    }

    /// The place of the window. A docked bar travels out of the tray icon
    /// toward its resting place; a floating one grows about its own centre.
    pub open spec fn place(self) -> (int, int) {
        match self.tray_point {
            Some(p) if self.is_docked() => (
                self.travelled(p.0 - truncated(self.draw_w(), 2), self.end().0),
                self.travelled(p.1 - truncated(self.draw_h(), 2), self.end().1),
            ),
            _ => (
                self.end().0 + truncated(self.width - self.draw_w(), 2),
                self.end().1 + truncated(self.height - self.draw_h(), 2),
            ),
        }
    }

    /// The opacity of the window, from 0 to 255.
    pub open spec fn alpha(self) -> int {
        single_of(self.view.settings.opacity_pct as int).over_spec(single_of(100)).times_spec(
            self.anim_alpha,
        ).clamped(zero(false), of_bits(ONE)).times_spec(of_bits(FULL)).to_int(false)
    }
}

// ---------------------------------------------------------------------------
// Ranges
// ---------------------------------------------------------------------------

pub proof fn lemma_two()
    ensures
        of_bits(ONE).plus_spec(of_bits(ONE)) == of_bits(TWO),
        of_bits(TWO).scaled() == 2 * pow2(149),
        of_bits(TWO).rank() == 0x4000_0000,
{
    reveal(Single::plus_spec);
    let two = of_bits(TWO);
    lemma_one_scaled();
    assert(two.step() == 127 && two.significand() == 0x80_0000);
    lemma_pow2_unfold(127);
    lemma_exact(two, 1, false);
}

/// Hundredths from 0 to 100 lie between 0 and 1.
pub proof fn lemma_hundredths(n: int)
    requires
        0 <= n <= 100,
    ensures
        0 <= hundredths(n).rank() <= 0x3F80_0000,
        !hundredths(n).is_nan(),
        n > 0 ==> hundredths(n).rank() > 0,
{
    lemma_single_of_exact(n);
    lemma_single_of_exact(100);
    let (a, c) = (single_of(n), single_of(100));
    lemma_pow2_pos(149);
    let unit = pow2(149) as int;
    assert(0 * unit <= n * unit <= 100 * unit) by (nonlinear_arith)
        requires
            0 <= n <= 100,
            unit > 0,
    ;
    lemma_rank_order(a, c);
    lemma_over_keeps_order(a, c, c);
    lemma_whole_share(c);
    lemma_sign(a);
    lemma_over_keeps_order(zero(false), a, c);
    assert(zero(false).over_spec(c).rank() == 0) by {
        reveal(Single::over_spec);
        lemma_sign(zero(false));
        lemma_sign(c);
        assert(0 * unit == 0) by (nonlinear_arith);
        lemma_zero_rounds(c.scaled(), false);
    }
    if n > 0 {
        // One hundredth is more than 2^-7.
        let q = of_bits(0x3C00_0000);
        assert(q.step() == 119 && q.significand() == 0x80_0000);
        lemma_pow2_big();
        lemma_pow2_adds(23, 119);
        lemma_pow2_adds(7, 142);
        lemma_over_rounds(a, c);
        let d = c.scaled();
        lemma_exact(q, d, false);
        lemma_sign(q);
        let (v, p) = (a.scaled(), pow2(142) as int);
        assert(q.scaled() == p);
        assert(p * d <= v * unit) by (nonlinear_arith)
            requires
                d == 100 * unit,
                v == n * unit,
                unit == 128 * p,
                n >= 1,
                p > 0,
        ;
        assert(p * d > 0) by (nonlinear_arith)
            requires
                p > 0,
                d > 0,
        ;
        lemma_rounding_order(q, p * d, false, hundredths(n), v * unit, false, d);
    }
}

/// The scale lies between 0 and 2, or is NaN.
proof fn lemma_scale(bar: Bar)
    ensures
        bar.scale().is_nan() || (bar.scale().is_finite() && 0 <= bar.scale().rank()
            <= 0x4000_0000),
{
    let one = of_bits(ONE);
    let a = hundredths(28);
    let b = one.minus_spec(a);
    let g = bar.growth();
    lemma_hundredths(28);
    lemma_complement(a);
    lemma_one_scaled();
    if bar.pop.is_nan() {
        assert(g.is_nan()) by {
            reveal(Single::minus_spec);
            reveal(Single::plus_spec);
            reveal(Single::times_spec);
        }
        assert(bar.scale().is_nan()) by {
            reveal(Single::plus_spec);
            reveal(Single::times_spec);
        }
    } else {
        let p = bar.pop.clamped(zero(false), one);
        law_easing_is_bounded_and_keeps_order(p, p);
        lemma_unit_product(b, b, g, g);
        let c = b.times_spec(g);
        lemma_two();
        lemma_plus_keeps_order(a, one, c);
        lemma_plus_commutes(one, c);
        lemma_plus_keeps_order(c, one, one);
        lemma_sign(a);
        lemma_sign(c);
        let negative = lemma_plus_rounds(a, c);
        lemma_rounding_places(a.plus_spec(c), a.scaled() + c.scaled(), 1, negative);
    }
}

/// A length scaled by at most 2 at most doubles.
proof fn lemma_scaled_length(bar: Bar, w: int)
    requires
        0 <= w < 0x40_0000,
    ensures
        0 <= single_of(w).times_spec(bar.scale()).to_int(true) <= 2 * w,
{
    let (x, scale, two) = (single_of(w), bar.scale(), of_bits(TWO));
    lemma_scale(bar);
    lemma_single_of_exact(w);
    if scale.is_nan() {
        reveal(Single::times_spec);
        reveal(Single::to_int);
    } else {
        lemma_two();
        lemma_single_of_exact(2 * w);
        lemma_single_of_exact(0);
        lemma_times_commutes(x, scale);
        lemma_pow2_pos(149);
        let unit = pow2(149) as int;
        if w == 0 {
            assert(x.times_spec(scale).rank() == 0) by {
                reveal(Single::times_spec);
                lemma_sign(x);
                assert(0 * scale.scaled() == 0) by (nonlinear_arith);
                assert(0 * unit == 0) by (nonlinear_arith);
                lemma_zero_rounds(unit, x.is_negative() != scale.is_negative());
            }
            let r = x.times_spec(scale);
            lemma_to_int_keeps_order(r, single_of(0), true);
            lemma_to_int_keeps_order(single_of(0), r, true);
        } else {
            lemma_times_keeps_order(scale, two, x);
            let top = single_of(2 * w);
            assert(two.times_spec(x) == top) by {
                reveal(Single::times_spec);
                lemma_sign(two);
                lemma_exact(top, unit, false);
                assert((2 * unit) * (w * unit) == ((2 * w) * unit) * unit) by (nonlinear_arith);
            }
            lemma_to_int_keeps_order(scale.times_spec(x), top, true);
            lemma_times_keeps_order(zero(false), scale, x);
            assert(zero(false).times_spec(x).rank() == 0) by {
                reveal(Single::times_spec);
                lemma_sign(zero(false));
                assert(0 * x.scaled() == 0) by (nonlinear_arith);
                lemma_zero_rounds(unit, false);
            }
            lemma_to_int_keeps_order(single_of(0), scale.times_spec(x), true);
        }
    }
}

pub proof fn lemma_alpha(bar: Bar)
    ensures
        0 <= bar.alpha() <= 255,
{
    let (one, full) = (of_bits(ONE), of_bits(FULL));
    let o = single_of(bar.view.settings.opacity_pct as int).over_spec(
        single_of(100),
    ).times_spec(bar.anim_alpha).clamped(zero(false), one);
    let v = o.times_spec(full);
    lemma_pow2_pos(149);
    let unit = pow2(149) as int;
    if o.is_nan() {
        assert(v.is_nan()) by {
            reveal(Single::times_spec);
        }
    } else {
        lemma_times_keeps_order(o, one, full);
        lemma_times_keeps_order(zero(false), o, full);
        assert(one.times_spec(full) == full) by {
            reveal(Single::times_spec);
            lemma_one_scaled();
            lemma_exact(full, unit, false);
            let f = full.scaled();
            assert(unit * f == f * unit) by (nonlinear_arith);
        }
        assert(zero(false).times_spec(full).rank() == 0) by {
            reveal(Single::times_spec);
            lemma_sign(zero(false));
            assert(0 * full.scaled() == 0) by (nonlinear_arith);
            lemma_zero_rounds(unit, false);
        }
    }
    lemma_byte(v);
}

/// On an ordinary display every frame whose tail has room can be drawn.
pub proof fn law_frames_on_ordinary_displays_can_be_drawn(bar: Bar)
    requires
        bar.is_ordinary(),
        bar.fits_tail(),
    ensures
        bar.wf(),
{
    lemma_scaled_length(bar, bar.width as int);
    lemma_scaled_length(bar, bar.height as int);
    law_the_bar_has_a_place_on_ordinary_displays(
        bar.view.settings,
        bar.dpi as int,
        bar.monitor.work,
        bar.tray_point,
    );
    if let Some(p) = bar.tray_point {
        lemma_travelled_range(bar, p.0 - truncated(bar.draw_w(), 2), bar.end().0);
        lemma_travelled_range(bar, p.1 - truncated(bar.draw_h(), 2), bar.end().1);
    }
}

proof fn lemma_travelled_range(bar: Bar, from: int, to: int)
    ensures
        fits(bar.travelled(from, to)),
{
    let start = single_of(from);
    lemma_to_int_range(
        start.plus_spec(single_of(to).minus_spec(start).times_spec(bar.growth())),
        true,
    );
}

// ---------------------------------------------------------------------------
// Rendering
// ---------------------------------------------------------------------------

/// Half of a length.
fn half(n: i64) -> (r: i64)
    requires
        n > i64::MIN,
    ensures
        r == truncated(n as int, 2),
{
    if n < 0 {
        -((-n) / 2)
    } else {
        n / 2
    }
}

fn travel(from: i64, to: i32, growth: Single) -> (r: i32)
    requires
        -0x2_0000_0000 <= from <= 0x2_0000_0000,
    ensures
        r == single_of(from as int).plus_spec(
            single_of(to as int).minus_spec(single_of(from as int)).times_spec(growth),
        ).to_int(true),
{
    let start: Single = Single::from_i64(from);
    start.plus(Single::from_i32(to).minus(start).times(growth)).to_i32(true)
}

impl Bar {
    fn docked(&self) -> (r: bool)
        ensures
            r == self.is_docked(),
    {
        self.view.settings.position == Position::AboveTray
    }

    fn vertical(&self) -> (r: bool)
        ensures
            r == self.is_vertical(),
    {
        self.view.settings.orientation == Orientation::Vertical
    }

    fn padding(&self) -> (r: Single)
        ensures
            r == self.pad(),
    {
        points_of(SHADOW, self.dpi)
    }

    fn tail_height(&self) -> (r: Single)
        ensures
            r == self.tail_h(),
    {
        if self.docked() {
            points_of(TAIL_H, self.dpi)
        } else {
            Single::from_bits(0)
        }
    }

    fn card_width(&self) -> (r: Single)
        ensures
            r == self.card_w(),
    {
        Single::from_i32(self.width).minus(self.padding().times(Single::from_i32(2)))
    }

    fn corner(&self) -> (r: Single)
        ensures
            r == self.radius(),
    {
        points_of(
            if self.vertical() {
                22
            } else {
                16
            },
            self.dpi,
        )
    }

    fn tail_ends(&self) -> (r: (Single, Single))
        ensures
            r == self.tail_range(),
    {
        let (pad, radius) = (self.padding(), self.corner());
        let room: Single = points_of(6, self.dpi);
        (
            pad.plus(radius).plus(room),
            pad.plus(self.card_width()).minus(radius).minus(room),
        )
    }

    /// Whether a tail that is drawn has room on the card.
    pub fn has_room_for_tail(&self) -> (r: bool)
        ensures
            r == self.fits_tail(),
    {
        if Single::from_bits(0).below(self.tail_height()) && self.tray_point.is_some() {
            let (lo, hi) = self.tail_ends();
            lo.at_most(hi)
        } else {
            true
        }
    }
}

fn tail_center(bar: &Bar, end_x: i32) -> (r: Single)
    requires
        end_x == bar.end().0,
    ensures
        r == bar.tail_center(),
{
    match bar.tray_point {
        Some((tx, _)) => {
            let (lo, hi) = bar.tail_ends();
            Single::from_i64(tx as i64 - end_x as i64).clamp_between(lo, hi)
        },
        None => bar.padding().plus(bar.card_width().over(Single::from_i32(2))),
    }
}

/// The shapes of a frame, and the scale, size, place and opacity of its
/// window.
pub fn render(bar: &Bar) -> (frame: Frame)
    requires
        bar.wf(),
    ensures
        frame.shapes@ == bar.card() + bar.tail() + bar.face(),
        frame.scale == bar.scale(),
        frame.width == bar.draw_w(),
        frame.height == bar.draw_h(),
        frame.x == bar.place().0,
        frame.y == bar.place().1,
        frame.alpha == bar.alpha(),
{
    let dpi: i32 = bar.dpi;
    let vertical: bool = bar.vertical();
    let docked: bool = bar.docked();
    let one = Single::from_i32(1);
    let half_px = hundredths_of(50);
    let pad: Single = bar.padding();
    let tail_h: Single = bar.tail_height();
    let card_w: Single = bar.card_width();
    let card_h: Single = Single::from_i32(bar.height).minus(pad.times(Single::from_i32(2))).minus(
        tail_h,
    );
    let radius: Single = bar.corner();
    let (end_x, end_y) = origin_for(&bar.view.settings, dpi, &bar.monitor, bar.tray_point);

    let mut shapes: Vec<Shape> = draw_shadow(pad, card_w, card_h, radius, points_of(1, dpi));
    // Card body: subtle vertical gradient with a hairline border.
    put(
        &mut shapes,
        Shape::Gradient {
            area: RoundRect { x: pad, y: pad, w: card_w, h: card_h, r: radius },
            top: argb(247, 38, 38, 42),
            bottom: argb(247, 24, 24, 27),
        },
    );
    put(
        &mut shapes,
        Shape::Stroke {
            area: RoundRect {
                x: pad.plus(half_px),
                y: pad.plus(half_px),
                w: card_w.minus(one),
                h: card_h.minus(one),
                r: radius,
            },
            color: argb(26, 255, 255, 255),
            width: points_of(1, dpi),
        },
    );
    assert(shapes@ == bar.card());
    if Single::from_bits(0).below(tail_h) {
        let cx: Single = tail_center(bar, end_x);
        let tail = draw_tail(cx, pad.plus(card_h), points_of(TAIL_W, dpi), tail_h);
        put_all(&mut shapes, tail);
    }
    assert(shapes@ == bar.card() + bar.tail());
    let pct: Single = bar.display_pct.over(Single::from_i32(100)).clamp_between(
        Single::from_bits(0),
        Single::from_bits(ONE),
    );
    let face = if vertical {
        draw_vertical(bar.view, pad, card_w, card_h, dpi, bar.accent, pct)
    } else {
        draw_horizontal(bar.view, pad, card_w, card_h, dpi, bar.accent, pct)
    };
    put_all(&mut shapes, face);

    let growth: Single = ease_out_cubic(
        bar.pop.clamp_between(Single::from_bits(0), Single::from_bits(ONE)),
    );
    let least = hundredths_of(28);
    let scale: Single = least.plus(Single::from_bits(ONE).minus(least).times(growth));
    let width: i32 = Single::from_i32(bar.width).times(scale).to_i32(true);
    let height: i32 = Single::from_i32(bar.height).times(scale).to_i32(true);
    proof {
        lemma_alpha(*bar);
    }
    let (x, y) = match bar.tray_point {
        Some((tx, ty)) if docked => (
            travel(tx as i64 - half(width as i64), end_x, growth),
            travel(ty as i64 - half(height as i64), end_y, growth),
        ),
        _ => (
            (end_x as i64 + half(bar.width as i64 - width as i64)) as i32,
            (end_y as i64 + half(bar.height as i64 - height as i64)) as i32,
        ),
    };
    let opacity: Single = Single::from_i32(bar.view.settings.opacity_pct as i32).over(
        Single::from_i32(100),
    ).times(bar.anim_alpha);
    let alpha: i32 = opacity.clamp_between(Single::from_bits(0), Single::from_bits(ONE)).times(
        Single::from_bits(FULL),
    ).to_i32(false);
    Frame { scale, shapes, x, y, width, height, alpha: alpha as u8 }
}

} // verus!
