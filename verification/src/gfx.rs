//! Colours, and the shapes that drawings are made of.

use crate::config::limited;
use crate::rounding::{lemma_pow2_big, lemma_sign, lemma_to_int_keeps_order, lemma_whole_small};
use crate::single::{of_bits, single_of, zero, Single, HALF, ONE};
use vstd::arithmetic::div_mod::lemma_fundamental_div_mod_converse;
use vstd::arithmetic::power2::{lemma_pow2_pos, pow2};
use vstd::prelude::*;

verus! {

// ---------------------------------------------------------------------------
// Colours
// ---------------------------------------------------------------------------

/// The word of a colour: 0xAARRGGBB.
pub open spec fn argb_word(a: u8, r: u8, g: u8, b: u8) -> u32 {
    (a * 0x100_0000 + r * 0x1_0000 + g * 0x100 + b) as u32
}

pub fn argb(a: u8, r: u8, g: u8, b: u8) -> (word: u32)
    ensures
        word == argb_word(a, r, g, b),
{
    a as u32 * 0x100_0000 + r as u32 * 0x1_0000 + g as u32 * 0x100 + b as u32
}

/// The word of a colour with the given opacity.
pub open spec fn tint_word(color: (u8, u8, u8), a: u8) -> u32 {
    argb_word(a, color.0, color.1, color.2)
}

pub fn tint(color: (u8, u8, u8), a: u8) -> (word: u32)
    ensures
        word == tint_word(color, a),
{
    argb(a, color.0, color.1, color.2)
}

/// The word of a colour as the system's controls take it: 0x00BBGGRR.
pub fn rgb(r: u8, g: u8, b: u8) -> (word: u32)
    ensures
        word == r + g * 0x100 + b * 0x1_0000,
{
    r as u32 + g as u32 * 0x100 + b as u32 * 0x1_0000
}

/// The colour that such a word stands for.
pub fn color_of_rgb(word: u32) -> (r: (u8, u8, u8))
    ensures
        r.0 == word % 256,
        r.1 == word / 256 % 256,
        r.2 == word / 0x1_0000 % 256,
{
    ((word % 256) as u8, (word / 256 % 256) as u8, (word / 0x1_0000 % 256) as u8)
}

/// The bits of 255.0.
pub const FULL: u32 = 0x437F_0000;

/// A colour channel moved toward white, or toward black where `amount` is
/// negative.
pub open spec fn shaded(c: u8, amount: Single) -> int {
    let v = single_of(c as int);
    let moved = if zero(false).at_most_spec(amount) {
        v.plus_spec(of_bits(FULL).minus_spec(v).times_spec(amount))
    } else {
        v.times_spec(of_bits(ONE).plus_spec(amount))
    };
    moved.clamped(zero(false), of_bits(FULL)).to_int(false)
}

/// What lies between 0 and 255, or is NaN, is a byte when cut off.
pub proof fn lemma_byte(v: Single)
    requires
        v.is_nan() || 0 <= v.rank() <= of_bits(FULL).rank(),
    ensures
        0 <= v.to_int(false) <= 255,
{
    let full = of_bits(FULL);
    assert(zero(false).to_int(false) == 0) by {
        reveal(Single::to_int);
        lemma_sign(zero(false));
        lemma_pow2_big();
        lemma_pow2_pos(149);
        lemma_fundamental_div_mod_converse(0, pow2(149) as int, 0, 0);
    }
    assert(full.to_int(false) == 255) by {
        reveal(Single::to_int);
        assert(full.step() == 133 && full.significand() == 0xFF_0000);
        lemma_whole_small(full, 16, false);
        lemma_pow2_big();
        lemma_fundamental_div_mod_converse(0xFF_0000, 0x1_0000, 255, 0);
    }
    if v.is_nan() {
        reveal(Single::to_int);
    } else {
        lemma_to_int_keeps_order(zero(false), v, false);
        lemma_to_int_keeps_order(v, full, false);
    }
}

fn shade_channel(c: u8, amount: Single) -> (r: u8)
    ensures
        r == shaded(c, amount),
{
    let v: Single = Single::from_i32(c as i32);
    let moved: Single = if Single::from_bits(0).at_most(amount) {
        v.plus(Single::from_bits(FULL).minus(v).times(amount))
    } else {
        v.times(Single::from_bits(ONE).plus(amount))
    };
    proof {
        lemma_byte(moved.clamped(zero(false), of_bits(FULL)));
    }
    moved.clamp_between(Single::from_bits(0), Single::from_bits(FULL)).to_i32(false) as u8
}

/// A colour with each channel shaded.
pub open spec fn shaded_color(color: (u8, u8, u8), amount: Single) -> (u8, u8, u8) {
    (
        shaded(color.0, amount) as u8,
        shaded(color.1, amount) as u8,
        shaded(color.2, amount) as u8,
    )
}

/// Lightens or darkens toward white/black by `amount` (0.0..1.0).
pub fn shade(color: (u8, u8, u8), amount: Single) -> (r: (u8, u8, u8))
    ensures
        r == shaded_color(color, amount),
{
    (
        shade_channel(color.0, amount),
        shade_channel(color.1, amount),
        shade_channel(color.2, amount),
    )
}

// ---------------------------------------------------------------------------
// Shapes
// ---------------------------------------------------------------------------

#[derive(Clone, Copy, PartialEq, Eq, Debug, Structural)]
pub struct Point {
    pub x: Single,
    pub y: Single,
}

/// A rectangle with rounded corners.
#[derive(Clone, Copy, PartialEq, Eq, Debug, Structural)]
pub struct RoundRect {
    pub x: Single,
    pub y: Single,
    pub w: Single,
    pub h: Single,
    pub r: Single,
}

/// Where text stands in its box.
#[derive(Clone, Copy, PartialEq, Eq, Debug, Structural)]
pub enum Align {
    Near,
    Center,
}

/// What a piece of text says.
#[derive(Clone, Copy, PartialEq, Eq, Debug, Structural)]
pub enum Caption {
    /// The name of the channel on show.
    Channel,
    /// "Muted", or the level in percent.
    Level,
    /// The gain in decibels.
    Gain,
    /// A level in percent.
    Percent(i32),
    Title,
    Subtitle,
    /// The text of the control being painted.
    Control,
}

/// One step of a drawing.
#[derive(Clone, Copy, PartialEq, Eq, Debug, Structural)]
pub enum Shape {
    Fill { area: RoundRect, color: u32 },
    Gradient { area: RoundRect, top: u32, bottom: u32 },
    Stroke { area: RoundRect, color: u32, width: Single },
    Ellipse { x: Single, y: Single, w: Single, h: Single, color: u32 },
    Triangle { a: Point, b: Point, c: Point, color: u32 },
    Hexagon { a: Point, b: Point, c: Point, d: Point, e: Point, f: Point, color: u32 },
    Arc {
        cx: Single,
        cy: Single,
        radius: Single,
        start: Single,
        sweep: Single,
        color: u32,
        width: Single,
    },
    Line { from: Point, to: Point, color: u32, width: Single },
    Text {
        what: Caption,
        x: Single,
        y: Single,
        w: Single,
        h: Single,
        size: Single,
        color: u32,
        align: Align,
        bold: bool,
    },
}

// ---------------------------------------------------------------------------
// Outlines
// ---------------------------------------------------------------------------

/// A part of an outline: a straight line, or an arc of the circle in a box.
#[derive(Clone, Copy, PartialEq, Eq, Debug, Structural)]
pub enum PathPart {
    Line { x1: Single, y1: Single, x2: Single, y2: Single },
    /// A quarter circle of diameter `d` in the box at `x`, `y`, from `start`
    /// quarter turns on.
    Quarter { x: Single, y: Single, d: Single, start: u8 },
}

/// The bits of 0.05, below which a corner counts as square.
pub const SQUARE: u32 = 0x3D4C_CCCD;

/// The bits of 2.0.
pub const TWO: u32 = 0x4000_0000;

/// The corner radius that fits a rectangle.
pub open spec fn corner(area: RoundRect) -> Single {
    area.r.smaller(area.w.over_spec(of_bits(TWO))).smaller(area.h.over_spec(of_bits(TWO))).larger(
        zero(false),
    )
}

/// The outline of a rectangle with rounded corners: three sides where the
/// corners are square, four quarter circles where they are not. The figure
/// is closed by a last line.
pub open spec fn outline(area: RoundRect) -> Seq<PathPart> {
    let (x, y) = (area.x, area.y);
    let (right, bottom) = (area.x.plus_spec(area.w), area.y.plus_spec(area.h));
    let r = corner(area);
    if r.at_most_spec(of_bits(SQUARE)) {
        seq![
            PathPart::Line { x1: x, y1: y, x2: right, y2: y },
            PathPart::Line { x1: right, y1: y, x2: right, y2: bottom },
            PathPart::Line { x1: right, y1: bottom, x2: x, y2: bottom },
        ]
    } else {
        let d = r.times_spec(of_bits(TWO));
        seq![
            PathPart::Quarter { x, y, d, start: 2 },
            PathPart::Quarter { x: right.minus_spec(d), y, d, start: 3 },
            PathPart::Quarter { x: right.minus_spec(d), y: bottom.minus_spec(d), d, start: 0 },
            PathPart::Quarter { x, y: bottom.minus_spec(d), d, start: 1 },
        ]
    }
}

pub fn round_rect_path(area: RoundRect) -> (r: Vec<PathPart>)
    ensures
        r@ == outline(area),
{
    let two = Single::from_bits(TWO);
    let radius: Single = area.r.smaller_of(area.w.over(two)).smaller_of(
        area.h.over(two),
    ).larger_of(Single::from_bits(0));
    let (x, y) = (area.x, area.y);
    let right: Single = area.x.plus(area.w);
    let bottom: Single = area.y.plus(area.h);
    let mut out: Vec<PathPart> = Vec::new();
    if radius.at_most(Single::from_bits(SQUARE)) {
        out.push(PathPart::Line { x1: x, y1: y, x2: right, y2: y });
        out.push(PathPart::Line { x1: right, y1: y, x2: right, y2: bottom });
        out.push(PathPart::Line { x1: right, y1: bottom, x2: x, y2: bottom });
    } else {
        let d: Single = radius.times(two);
        out.push(PathPart::Quarter { x, y, d, start: 2 });
        out.push(PathPart::Quarter { x: right.minus(d), y, d, start: 3 });
        out.push(PathPart::Quarter { x: right.minus(d), y: bottom.minus(d), d, start: 0 });
        out.push(PathPart::Quarter { x, y: bottom.minus(d), d, start: 1 });
    }
    assert(out@ == outline(area));
    out
}

/// The box that a gradient runs over: a little taller than the shape, so
/// its ends do not clamp, and never empty. The corner radius stays.
pub open spec fn gradient_area(area: RoundRect) -> RoundRect {
    RoundRect {
        x: area.x,
        y: area.y.minus_spec(of_bits(HALF)),
        w: area.w.larger(of_bits(ONE)),
        h: area.h.larger(of_bits(ONE)).plus_spec(of_bits(ONE)),
        r: area.r,
    }
}

pub fn gradient_box(area: RoundRect) -> (r: RoundRect)
    ensures
        r == gradient_area(area),
{
    RoundRect {
        x: area.x,
        y: area.y.minus(Single::from_bits(HALF)),
        w: area.w.larger_of(Single::from_bits(ONE)),
        h: area.h.larger_of(Single::from_bits(ONE)).plus(Single::from_bits(ONE)),
        r: area.r,
    }
}

/// The size of the part of a surface that is shown: at least one pixel, at
/// most all of it.
pub fn shown_size(width: i32, height: i32, surface: (i32, i32)) -> (r: (i32, i32))
    requires
        surface.0 >= 1,
        surface.1 >= 1,
    ensures
        r.0 == limited(width as int, 1, surface.0 as int),
        r.1 == limited(height as int, 1, surface.1 as int),
{
    let w: i32 = if width < 1 {
        1
    } else if width > surface.0 {
        surface.0
    } else {
        width
    };
    let h: i32 = if height < 1 {
        1
    } else if height > surface.1 {
        surface.1
    } else {
        height
    };
    (w, h)
}

} // verus!
