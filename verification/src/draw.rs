//! What the bar looks like: the shapes of its card, glyph, track, meter and
//! captions, and the frame that they make up.

use crate::config::{Orientation, Settings};
use crate::gfx::{
    argb, argb_word, shade, shaded_color, tint, tint_word, Align, Caption, Point, RoundRect, Shape,
};
use crate::scale::{gain_fraction, share};
use crate::single::{of_bits, single_of, zero, Single, ONE};
use vstd::prelude::*;

verus! {

// ---------------------------------------------------------------------------
// Numbers and colours
// ---------------------------------------------------------------------------

/// `n` hundredths.
pub open spec fn hundredths(n: int) -> Single {
    single_of(n).over_spec(single_of(100))
}

pub fn hundredths_of(n: i32) -> (r: Single)
    ensures
        r == hundredths(n as int),
{
    Single::from_i32(n).over(Single::from_i32(100))
}

/// A length of `n` at 96 dots per inch, on a display of `dpi`.
pub open spec fn points(n: int, dpi: int) -> Single {
    single_of(n).times_spec(single_of(dpi)).over_spec(single_of(96))
}

pub fn points_of(n: i32, dpi: i32) -> (r: Single)
    ensures
        r == points(n as int, dpi as int),
{
    Single::from_i32(n).times(Single::from_i32(dpi)).over(Single::from_i32(96))
}

/// A length of `n` halves.
pub open spec fn half_points(n: int, dpi: int) -> Single {
    single_of(n).over_spec(single_of(2)).times_spec(single_of(dpi)).over_spec(single_of(96))
}

pub fn half_points_of(n: i32, dpi: i32) -> (r: Single)
    ensures
        r == half_points(n as int, dpi as int),
{
    Single::from_i32(n).over(Single::from_i32(2)).times(Single::from_i32(dpi)).over(
        Single::from_i32(96),
    )
}

/// Green through amber to red as the signal approaches clipping.
pub open spec fn meter_color_word(level: Single) -> u32 {
    if hundredths(96).below_spec(level) {
        argb_word(255, 240, 80, 70)
    } else if hundredths(88).below_spec(level) {
        argb_word(255, 235, 175, 70)
    } else {
        argb_word(255, 110, 205, 130)
    }
}

pub fn meter_color(level: Single) -> (r: u32)
    ensures
        r == meter_color_word(level),
{
    if hundredths_of(96).below(level) {
        argb(255, 240, 80, 70)
    } else if hundredths_of(88).below(level) {
        argb(255, 235, 175, 70)
    } else {
        argb(255, 110, 205, 130)
    }
}

/// White, less opaque than `color` by 70.
pub open spec fn faded_word(color: u32) -> u32 {
    let a = color / 0x100_0000;
    argb_word(
        if a < 70 {
            0
        } else {
            (a - 70) as u8
        },
        255,
        255,
        255,
    )
}

fn faded(color: u32) -> (r: u32)
    ensures
        r == faded_word(color),
{
    let a: u32 = color / 0x100_0000;
    argb(
        if a < 70 {
            0
        } else {
            (a - 70) as u8
        },
        255,
        255,
        255,
    )
}

/// The lighter and the full colour of the level.
pub open spec fn fill_words(muted: bool, accent: (u8, u8, u8)) -> (u32, u32) {
    if muted {
        (
            tint_word(shaded_color((150, 62, 62), hundredths(25)), 255),
            tint_word((150, 62, 62), 255),
        )
    } else {
        (tint_word(shaded_color(accent, hundredths(28)), 255), tint_word(accent, 255))
    }
}

fn fill_colors(muted: bool, accent: (u8, u8, u8)) -> (r: (u32, u32))
    ensures
        r == fill_words(muted, accent),
{
    if muted {
        (tint(shade((150, 62, 62), hundredths_of(25)), 255), tint((150, 62, 62), 255))
    } else {
        (tint(shade(accent, hundredths_of(28)), 255), tint(accent, 255))
    }
}

/// Where 0 dB lies on the track.
pub open spec fn unity_share(settings: Settings) -> Single {
    share(zero(false), settings.min_db, settings.max_db).clamped(zero(false), of_bits(ONE))
}

fn unity_fraction(settings: Settings) -> (r: Single)
    ensures
        r == unity_share(settings),
{
    gain_fraction(Single::from_bits(0), settings.min_db, settings.max_db)
}

// ---------------------------------------------------------------------------
// Lists of shapes
// ---------------------------------------------------------------------------

/// A shape that is there only on a condition.
pub open spec fn maybe(there: bool, shape: Shape) -> Seq<Shape> {
    if there {
        seq![shape]
    } else {
        Seq::empty()
    }
}

pub fn put(out: &mut Vec<Shape>, shape: Shape)
    ensures
        final(out)@ == old(out)@ + seq![shape],
{
    out.push(shape);
    assert(out@ == old(out)@ + seq![shape]);
}

pub fn put_if(out: &mut Vec<Shape>, there: bool, shape: Shape)
    ensures
        final(out)@ == old(out)@ + maybe(there, shape),
{
    if there {
        out.push(shape);
    }
    assert(out@ == old(out)@ + maybe(there, shape));
}

pub fn put_all(out: &mut Vec<Shape>, shapes: Vec<Shape>)
    ensures
        final(out)@ == old(out)@ + shapes@,
{
    let mut i: usize = 0;
    let ghost start = out@;
    while i < shapes.len()
        invariant
            i <= shapes@.len(),
            out@ == start + shapes@.take(i as int),
        decreases shapes@.len() - i,
    {
        out.push(shapes[i]);
        assert(out@ == start + shapes@.take(i + 1));
        i += 1;
    }
    assert(shapes@.take(i as int) == shapes@);
}

// ---------------------------------------------------------------------------
// The bar
// ---------------------------------------------------------------------------

/// What the bar shows.
#[derive(Clone, Copy, Debug)]
pub struct BarView {
    pub settings: Settings,
    pub muted: bool,
    /// Live signal level, 0-1, with a slowly falling peak marker.
    pub meter: Single,
    pub meter_peak: Single,
}

/// A loudspeaker, crossed out while muted, with two waves while not.
pub open spec fn draw_speaker_shapes(
    cx: Single,
    cy: Single,
    size: Single,
    muted: bool,
    color: u32,
) -> Seq<Shape> {
    let x = cx.plus_spec(size.times_spec(hundredths(24)));
    let r = size.times_spec(hundredths(26));
    Seq::<Shape>::empty()
        + seq![
            Shape::Hexagon {
                a: Point {
                    x: cx.minus_spec(size.times_spec(hundredths(42))),
                    y: cy.minus_spec(size.times_spec(hundredths(16))),
                },
                b: Point {
                    x: cx.minus_spec(size.times_spec(hundredths(18))),
                    y: cy.minus_spec(size.times_spec(hundredths(16))),
                },
                c: Point {
                    x: cx.plus_spec(size.times_spec(hundredths(10))),
                    y: cy.minus_spec(size.times_spec(hundredths(44))),
                },
                d: Point {
                    x: cx.plus_spec(size.times_spec(hundredths(10))),
                    y: cy.plus_spec(size.times_spec(hundredths(44))),
                },
                e: Point {
                    x: cx.minus_spec(size.times_spec(hundredths(18))),
                    y: cy.plus_spec(size.times_spec(hundredths(16))),
                },
                f: Point {
                    x: cx.minus_spec(size.times_spec(hundredths(42))),
                    y: cy.plus_spec(size.times_spec(hundredths(16))),
                },
                color,
            },
        ]
        + maybe(
            muted,
            Shape::Line {
                from: Point { x, y: cy.minus_spec(r) },
                to: Point { x: x.plus_spec(r.times_spec(hundredths(150))), y: cy.plus_spec(r) },
                color,
                width: size.times_spec(hundredths(14)),
            },
        )
        + maybe(
            muted,
            Shape::Line {
                from: Point { x, y: cy.plus_spec(r) },
                to: Point { x: x.plus_spec(r.times_spec(hundredths(150))), y: cy.minus_spec(r) },
                color,
                width: size.times_spec(hundredths(14)),
            },
        )
        + maybe(
            !muted,
            Shape::Arc {
                cx: cx.plus_spec(size.times_spec(hundredths(6))),
                cy,
                radius: size.times_spec(hundredths(30)),
                start: single_of(-52),
                sweep: single_of(104),
                color,
                width: size.times_spec(hundredths(13)),
            },
        )
        + maybe(
            !muted,
            Shape::Arc {
                cx: cx.plus_spec(size.times_spec(hundredths(6))),
                cy,
                radius: size.times_spec(hundredths(50)),
                start: single_of(-52),
                sweep: single_of(104),
                color: faded_word(color),
                width: size.times_spec(hundredths(13)),
            },
        )
}

pub fn draw_speaker(
    cx: Single,
    cy: Single,
    size: Single,
    muted: bool,
    color: u32,
) -> (r: Vec<Shape>)
    ensures
        r@ == draw_speaker_shapes(cx, cy, size, muted, color),
{
    let mut out: Vec<Shape> = Vec::new();
    put(
        &mut out,
        Shape::Hexagon {
            a: Point {
                x: cx.minus(size.times(hundredths_of(42))),
                y: cy.minus(size.times(hundredths_of(16))),
            },
            b: Point {
                x: cx.minus(size.times(hundredths_of(18))),
                y: cy.minus(size.times(hundredths_of(16))),
            },
            c: Point {
                x: cx.plus(size.times(hundredths_of(10))),
                y: cy.minus(size.times(hundredths_of(44))),
            },
            d: Point {
                x: cx.plus(size.times(hundredths_of(10))),
                y: cy.plus(size.times(hundredths_of(44))),
            },
            e: Point {
                x: cx.minus(size.times(hundredths_of(18))),
                y: cy.plus(size.times(hundredths_of(16))),
            },
            f: Point {
                x: cx.minus(size.times(hundredths_of(42))),
                y: cy.plus(size.times(hundredths_of(16))),
            },
            color,
        },
    );
    let x: Single = cx.plus(size.times(hundredths_of(24)));
    let r: Single = size.times(hundredths_of(26));
    put_if(
        &mut out,
        muted,
        Shape::Line {
            from: Point { x, y: cy.minus(r) },
            to: Point { x: x.plus(r.times(hundredths_of(150))), y: cy.plus(r) },
            color,
            width: size.times(hundredths_of(14)),
        },
    );
    put_if(
        &mut out,
        muted,
        Shape::Line {
            from: Point { x, y: cy.plus(r) },
            to: Point { x: x.plus(r.times(hundredths_of(150))), y: cy.minus(r) },
            color,
            width: size.times(hundredths_of(14)),
        },
    );
    put_if(
        &mut out,
        !muted,
        Shape::Arc {
            cx: cx.plus(size.times(hundredths_of(6))),
            cy,
            radius: size.times(hundredths_of(30)),
            start: Single::from_i32(-52),
            sweep: Single::from_i32(104),
            color,
            width: size.times(hundredths_of(13)),
        },
    );
    put_if(
        &mut out,
        !muted,
        Shape::Arc {
            cx: cx.plus(size.times(hundredths_of(6))),
            cy,
            radius: size.times(hundredths_of(50)),
            start: Single::from_i32(-52),
            sweep: Single::from_i32(104),
            color: faded(color),
            width: size.times(hundredths_of(13)),
        },
    );
    out
}

/// One layer of the drop shadow.
pub open spec fn shadow_layer_shapes(
    pad: Single,
    w: Single,
    h: Single,
    radius: Single,
    unit: Single,
    i: i32,
    alpha: u8,
) -> Seq<Shape> {
    let spread = unit.times_spec(single_of(i as int)).times_spec(hundredths(150));
    Seq::<Shape>::empty()
        + seq![
            Shape::Fill {
                area: RoundRect {
                    x: pad.minus_spec(spread),
                    y: pad.minus_spec(spread).plus_spec(unit.times_spec(hundredths(150))),
                    w: w.plus_spec(spread.times_spec(single_of(2))),
                    h: h.plus_spec(spread.times_spec(single_of(2))),
                    r: radius.plus_spec(spread),
                },
                color: argb_word(alpha, 0, 0, 0),
            },
        ]
}

fn shadow_layer(
    pad: Single,
    w: Single,
    h: Single,
    radius: Single,
    unit: Single,
    i: i32,
    alpha: u8,
) -> (r: Vec<Shape>)
    ensures
        r@ == shadow_layer_shapes(pad, w, h, radius, unit, i, alpha),
{
    let mut out: Vec<Shape> = Vec::new();
    let spread: Single = unit.times(Single::from_i32(i)).times(hundredths_of(150));
    put(
        &mut out,
        Shape::Fill {
            area: RoundRect {
                x: pad.minus(spread),
                y: pad.minus(spread).plus(unit.times(hundredths_of(150))),
                w: w.plus(spread.times(Single::from_i32(2))),
                h: h.plus(spread.times(Single::from_i32(2))),
                r: radius.plus(spread),
            },
            color: argb(alpha, 0, 0, 0),
        },
    );
    out
}

/// Cheap fake blur: concentric rounded rectangles with falling opacity.
pub open spec fn draw_shadow_shapes(
    pad: Single,
    w: Single,
    h: Single,
    radius: Single,
    unit: Single,
) -> Seq<Shape> {
    Seq::<Shape>::empty()
        + shadow_layer_shapes(pad, w, h, radius, unit, 6, 2)
        + shadow_layer_shapes(pad, w, h, radius, unit, 5, 3)
        + shadow_layer_shapes(pad, w, h, radius, unit, 4, 4)
        + shadow_layer_shapes(pad, w, h, radius, unit, 3, 5)
        + shadow_layer_shapes(pad, w, h, radius, unit, 2, 8)
        + shadow_layer_shapes(pad, w, h, radius, unit, 1, 16)
}

pub fn draw_shadow(
    pad: Single,
    w: Single,
    h: Single,
    radius: Single,
    unit: Single,
) -> (r: Vec<Shape>)
    ensures
        r@ == draw_shadow_shapes(pad, w, h, radius, unit),
{
    let mut out: Vec<Shape> = Vec::new();
    put_all(&mut out, shadow_layer(pad, w, h, radius, unit, 6, 2));
    put_all(&mut out, shadow_layer(pad, w, h, radius, unit, 5, 3));
    put_all(&mut out, shadow_layer(pad, w, h, radius, unit, 4, 4));
    put_all(&mut out, shadow_layer(pad, w, h, radius, unit, 3, 5));
    put_all(&mut out, shadow_layer(pad, w, h, radius, unit, 2, 8));
    put_all(&mut out, shadow_layer(pad, w, h, radius, unit, 1, 16));
    out
}

/// Callout tail below the card. Drawn a touch above the card's edge so it
/// merges with the body instead of showing a seam.
pub open spec fn draw_tail_shapes(
    cx: Single,
    card_bottom: Single,
    width: Single,
    height: Single,
) -> Seq<Shape> {
    let top = card_bottom.minus_spec(single_of(1));
    let half = width.over_spec(single_of(2));
    let tip = card_bottom.plus_spec(height);
    let edge = argb_word(26, 255, 255, 255);
    Seq::<Shape>::empty()
        + seq![
            Shape::Triangle {
                a: Point { x: cx.minus_spec(half), y: top },
                b: Point { x: cx.plus_spec(half), y: top },
                c: Point { x: cx, y: tip },
                color: argb_word(247, 24, 24, 27),
            },
        ]
        + seq![
            Shape::Line {
                from: Point { x: cx.minus_spec(half), y: top },
                to: Point { x: cx, y: tip },
                color: edge,
                width: single_of(1),
            },
        ]
        + seq![
            Shape::Line {
                from: Point { x: cx.plus_spec(half), y: top },
                to: Point { x: cx, y: tip },
                color: edge,
                width: single_of(1),
            },
        ]
}

pub fn draw_tail(cx: Single, card_bottom: Single, width: Single, height: Single) -> (r: Vec<Shape>)
    ensures
        r@ == draw_tail_shapes(cx, card_bottom, width, height),
{
    let mut out: Vec<Shape> = Vec::new();
    let top: Single = card_bottom.minus(Single::from_i32(1));
    let half: Single = width.over(Single::from_i32(2));
    let tip: Single = card_bottom.plus(height);
    let edge: u32 = argb(26, 255, 255, 255);
    put(
        &mut out,
        Shape::Triangle {
            a: Point { x: cx.minus(half), y: top },
            b: Point { x: cx.plus(half), y: top },
            c: Point { x: cx, y: tip },
            color: argb(247, 24, 24, 27),
        },
    );
    put(
        &mut out,
        Shape::Line {
            from: Point { x: cx.minus(half), y: top },
            to: Point { x: cx, y: tip },
            color: edge,
            width: Single::from_i32(1),
        },
    );
    put(
        &mut out,
        Shape::Line {
            from: Point { x: cx.plus(half), y: top },
            to: Point { x: cx, y: tip },
            color: edge,
            width: Single::from_i32(1),
        },
    );
    out
}

/// The face of an upright bar.
pub open spec fn draw_vertical_shapes(
    view: BarView,
    pad: Single,
    card_w: Single,
    card_h: Single,
    dpi: i32,
    accent: (u8, u8, u8),
    pct: Single,
) -> Seq<Shape> {
    let cx = pad.plus_spec(card_w.over_spec(single_of(2)));
    let glyph_cy = pad.plus_spec(points(24, dpi as int));
    let track_w = points(10, dpi as int);
    let track_x = cx.minus_spec(half_points(21, dpi as int));
    let track_top = pad.plus_spec(points(58, dpi as int));
    let track_bottom = pad.plus_spec(card_h).minus_spec(points(42, dpi as int));
    let track_h = track_bottom.minus_spec(track_top);
    let meter_w = points(4, dpi as int);
    let meter_x = track_x.plus_spec(track_w).plus_spec(points(7, dpi as int));
    let meter_h = track_h.times_spec(view.meter.clamped(single_of(0), single_of(1)));
    let peak_y = track_bottom.minus_spec(
        track_h.times_spec(view.meter_peak.clamped(single_of(0), single_of(1))),
    );
    let unity_y = track_bottom.minus_spec(track_h.times_spec(unity_share(view.settings)));
    let fill_h = track_h.times_spec(pct);
    let (light, full) = fill_words(view.muted, accent);
    Seq::<Shape>::empty()
        + draw_speaker_shapes(
            cx,
            glyph_cy,
            points(20, dpi as int),
            view.muted,
            argb_word(235, 255, 255, 255),
        )
        + seq![
            Shape::Fill {
                area: RoundRect {
                    x: track_x,
                    y: track_top,
                    w: track_w,
                    h: track_h,
                    r: track_w.over_spec(single_of(2)),
                },
                color: argb_word(38, 255, 255, 255),
            },
        ]
        + seq![
            Shape::Fill {
                area: RoundRect {
                    x: meter_x,
                    y: track_top,
                    w: meter_w,
                    h: track_h,
                    r: meter_w.over_spec(single_of(2)),
                },
                color: argb_word(30, 255, 255, 255),
            },
        ]
        + maybe(
            hundredths(50).below_spec(meter_h),
            Shape::Fill {
                area: RoundRect {
                    x: meter_x,
                    y: track_bottom.minus_spec(meter_h),
                    w: meter_w,
                    h: meter_h,
                    r: meter_w.over_spec(single_of(2)),
                },
                color: meter_color_word(view.meter),
            },
        )
        + maybe(
            hundredths(2).below_spec(view.meter_peak),
            Shape::Fill {
                area: RoundRect {
                    x: meter_x,
                    y: peak_y.minus_spec(points(1, dpi as int)),
                    w: meter_w,
                    h: points(2, dpi as int),
                    r: points(1, dpi as int),
                },
                color: meter_color_word(view.meter_peak),
            },
        )
        + maybe(
            view.settings.min_db.below_spec(single_of(0)) && single_of(0).below_spec(
                view.settings.max_db,
            ),
            Shape::Fill {
                area: RoundRect {
                    x: track_x.minus_spec(points(5, dpi as int)),
                    y: unity_y.minus_spec(half_points(1, dpi as int)),
                    w: track_w.plus_spec(points(10, dpi as int)),
                    h: points(1, dpi as int),
                    r: single_of(0),
                },
                color: argb_word(70, 255, 255, 255),
            },
        )
        + maybe(
            hundredths(50).below_spec(fill_h),
            Shape::Gradient {
                area: RoundRect {
                    x: track_x,
                    y: track_bottom.minus_spec(fill_h),
                    w: track_w,
                    h: fill_h,
                    r: track_w.over_spec(single_of(2)),
                },
                top: light,
                bottom: full,
            },
        )
        + seq![
            Shape::Text {
                what: Caption::Channel,
                x: pad,
                y: pad.plus_spec(points(38, dpi as int)),
                w: card_w,
                h: points(14, dpi as int),
                size: half_points(21, dpi as int),
                color: argb_word(150, 255, 255, 255),
                align: Align::Center,
                bold: false,
            },
        ]
        + seq![
            Shape::Text {
                what: Caption::Level,
                x: pad,
                y: pad.plus_spec(card_h).minus_spec(points(36, dpi as int)),
                w: card_w,
                h: points(20, dpi as int),
                size: points(14, dpi as int),
                color: argb_word(240, 255, 255, 255),
                align: Align::Center,
                bold: true,
            },
        ]
        + maybe(
            !view.muted,
            Shape::Text {
                what: Caption::Gain,
                x: pad,
                y: pad.plus_spec(card_h).minus_spec(points(20, dpi as int)),
                w: card_w,
                h: points(14, dpi as int),
                size: half_points(21, dpi as int),
                color: argb_word(140, 255, 255, 255),
                align: Align::Center,
                bold: false,
            },
        )
}

pub fn draw_vertical(
    view: BarView,
    pad: Single,
    card_w: Single,
    card_h: Single,
    dpi: i32,
    accent: (u8, u8, u8),
    pct: Single,
) -> (r: Vec<Shape>)
    ensures
        r@ == draw_vertical_shapes(view, pad, card_w, card_h, dpi, accent, pct),
{
    let mut out: Vec<Shape> = Vec::new();
    let cx: Single = pad.plus(card_w.over(Single::from_i32(2)));
    let glyph_cy: Single = pad.plus(points_of(24, dpi));
    put_all(
        &mut out,
        draw_speaker(cx, glyph_cy, points_of(20, dpi), view.muted, argb(235, 255, 255, 255)),
    );
    let track_w: Single = points_of(10, dpi);
    let track_x: Single = cx.minus(half_points_of(21, dpi));
    let track_top: Single = pad.plus(points_of(58, dpi));
    let track_bottom: Single = pad.plus(card_h).minus(points_of(42, dpi));
    let track_h: Single = track_bottom.minus(track_top);
    put(
        &mut out,
        Shape::Fill {
            area: RoundRect {
                x: track_x,
                y: track_top,
                w: track_w,
                h: track_h,
                r: track_w.over(Single::from_i32(2)),
            },
            color: argb(38, 255, 255, 255),
        },
    );
    let meter_w: Single = points_of(4, dpi);
    let meter_x: Single = track_x.plus(track_w).plus(points_of(7, dpi));
    put(
        &mut out,
        Shape::Fill {
            area: RoundRect {
                x: meter_x,
                y: track_top,
                w: meter_w,
                h: track_h,
                r: meter_w.over(Single::from_i32(2)),
            },
            color: argb(30, 255, 255, 255),
        },
    );
    let meter_h: Single = track_h.times(
        view.meter.clamp_between(Single::from_i32(0), Single::from_i32(1)),
    );
    put_if(
        &mut out,
        hundredths_of(50).below(meter_h),
        Shape::Fill {
            area: RoundRect {
                x: meter_x,
                y: track_bottom.minus(meter_h),
                w: meter_w,
                h: meter_h,
                r: meter_w.over(Single::from_i32(2)),
            },
            color: meter_color(view.meter),
        },
    );
    let peak_y: Single = track_bottom.minus(
        track_h.times(view.meter_peak.clamp_between(Single::from_i32(0), Single::from_i32(1))),
    );
    put_if(
        &mut out,
        hundredths_of(2).below(view.meter_peak),
        Shape::Fill {
            area: RoundRect {
                x: meter_x,
                y: peak_y.minus(points_of(1, dpi)),
                w: meter_w,
                h: points_of(2, dpi),
                r: points_of(1, dpi),
            },
            color: meter_color(view.meter_peak),
        },
    );
    let unity_y: Single = track_bottom.minus(track_h.times(unity_fraction(view.settings)));
    put_if(
        &mut out,
        view.settings.min_db.below(Single::from_i32(0)) && Single::from_i32(0).below(
            view.settings.max_db,
        ),
        Shape::Fill {
            area: RoundRect {
                x: track_x.minus(points_of(5, dpi)),
                y: unity_y.minus(half_points_of(1, dpi)),
                w: track_w.plus(points_of(10, dpi)),
                h: points_of(1, dpi),
                r: Single::from_i32(0),
            },
            color: argb(70, 255, 255, 255),
        },
    );
    let fill_h: Single = track_h.times(pct);
    let (light, full) = fill_colors(view.muted, accent);
    put_if(
        &mut out,
        hundredths_of(50).below(fill_h),
        Shape::Gradient {
            area: RoundRect {
                x: track_x,
                y: track_bottom.minus(fill_h),
                w: track_w,
                h: fill_h,
                r: track_w.over(Single::from_i32(2)),
            },
            top: light,
            bottom: full,
        },
    );
    put(
        &mut out,
        Shape::Text {
            what: Caption::Channel,
            x: pad,
            y: pad.plus(points_of(38, dpi)),
            w: card_w,
            h: points_of(14, dpi),
            size: half_points_of(21, dpi),
            color: argb(150, 255, 255, 255),
            align: Align::Center,
            bold: false,
        },
    );
    put(
        &mut out,
        Shape::Text {
            what: Caption::Level,
            x: pad,
            y: pad.plus(card_h).minus(points_of(36, dpi)),
            w: card_w,
            h: points_of(20, dpi),
            size: points_of(14, dpi),
            color: argb(240, 255, 255, 255),
            align: Align::Center,
            bold: true,
        },
    );
    put_if(
        &mut out,
        !view.muted,
        Shape::Text {
            what: Caption::Gain,
            x: pad,
            y: pad.plus(card_h).minus(points_of(20, dpi)),
            w: card_w,
            h: points_of(14, dpi),
            size: half_points_of(21, dpi),
            color: argb(140, 255, 255, 255),
            align: Align::Center,
            bold: false,
        },
    );
    out
}

/// The face of a lying bar.
pub open spec fn draw_horizontal_shapes(
    view: BarView,
    pad: Single,
    card_w: Single,
    card_h: Single,
    dpi: i32,
    accent: (u8, u8, u8),
    pct: Single,
) -> Seq<Shape> {
    let glyph_cx = pad.plus_spec(points(34, dpi as int));
    let glyph_cy = pad.plus_spec(card_h.over_spec(single_of(2)));
    let track_left = pad.plus_spec(points(62, dpi as int));
    let track_right = pad.plus_spec(card_w).minus_spec(points(74, dpi as int));
    let track_h = points(10, dpi as int);
    let track_y = pad.plus_spec(card_h.over_spec(single_of(2))).minus_spec(
        track_h.over_spec(single_of(2)),
    ).plus_spec(points(6, dpi as int));
    let track_w = track_right.minus_spec(track_left);
    let unity_x = track_left.plus_spec(track_w.times_spec(unity_share(view.settings)));
    let meter_h = points(4, dpi as int);
    let meter_y = track_y.plus_spec(track_h).plus_spec(points(8, dpi as int));
    let meter_w = track_w.times_spec(view.meter.clamped(single_of(0), single_of(1)));
    let peak_x = track_left.plus_spec(
        track_w.times_spec(view.meter_peak.clamped(single_of(0), single_of(1))),
    );
    let fill_w = track_w.times_spec(pct);
    let (light, full) = fill_words(view.muted, accent);
    Seq::<Shape>::empty()
        + draw_speaker_shapes(
            glyph_cx,
            glyph_cy,
            points(26, dpi as int),
            view.muted,
            argb_word(235, 255, 255, 255),
        )
        + seq![
            Shape::Text {
                what: Caption::Channel,
                x: track_left,
                y: pad.plus_spec(points(14, dpi as int)),
                w: track_w,
                h: points(14, dpi as int),
                size: half_points(21, dpi as int),
                color: argb_word(150, 255, 255, 255),
                align: Align::Near,
                bold: false,
            },
        ]
        + seq![
            Shape::Fill {
                area: RoundRect {
                    x: track_left,
                    y: track_y,
                    w: track_w,
                    h: track_h,
                    r: track_h.over_spec(single_of(2)),
                },
                color: argb_word(38, 255, 255, 255),
            },
        ]
        + maybe(
            view.settings.min_db.below_spec(single_of(0)) && single_of(0).below_spec(
                view.settings.max_db,
            ),
            Shape::Fill {
                area: RoundRect {
                    x: unity_x.minus_spec(half_points(1, dpi as int)),
                    y: track_y.minus_spec(points(5, dpi as int)),
                    w: points(1, dpi as int),
                    h: track_h.plus_spec(points(10, dpi as int)),
                    r: single_of(0),
                },
                color: argb_word(70, 255, 255, 255),
            },
        )
        + seq![
            Shape::Fill {
                area: RoundRect {
                    x: track_left,
                    y: meter_y,
                    w: track_w,
                    h: meter_h,
                    r: meter_h.over_spec(single_of(2)),
                },
                color: argb_word(30, 255, 255, 255),
            },
        ]
        + maybe(
            hundredths(50).below_spec(meter_w),
            Shape::Fill {
                area: RoundRect {
                    x: track_left,
                    y: meter_y,
                    w: meter_w,
                    h: meter_h,
                    r: meter_h.over_spec(single_of(2)),
                },
                color: meter_color_word(view.meter),
            },
        )
        + maybe(
            hundredths(2).below_spec(view.meter_peak),
            Shape::Fill {
                area: RoundRect {
                    x: peak_x.minus_spec(points(1, dpi as int)),
                    y: meter_y.minus_spec(points(1, dpi as int)),
                    w: points(2, dpi as int),
                    h: meter_h.plus_spec(points(2, dpi as int)),
                    r: points(1, dpi as int),
                },
                color: meter_color_word(view.meter_peak),
            },
        )
        + maybe(
            hundredths(50).below_spec(fill_w),
            Shape::Gradient {
                area: RoundRect {
                    x: track_left,
                    y: track_y,
                    w: fill_w,
                    h: track_h,
                    r: track_h.over_spec(single_of(2)),
                },
                top: full,
                bottom: light,
            },
        )
        + seq![
            Shape::Text {
                what: Caption::Level,
                x: pad.plus_spec(card_w).minus_spec(points(70, dpi as int)),
                y: pad.plus_spec(card_h.over_spec(single_of(2))).minus_spec(points(14, dpi as int)),
                w: points(58, dpi as int),
                h: points(20, dpi as int),
                size: points(15, dpi as int),
                color: argb_word(240, 255, 255, 255),
                align: Align::Center,
                bold: true,
            },
        ]
        + maybe(
            !view.muted,
            Shape::Text {
                what: Caption::Gain,
                x: pad.plus_spec(card_w).minus_spec(points(70, dpi as int)),
                y: pad.plus_spec(card_h.over_spec(single_of(2))).plus_spec(points(6, dpi as int)),
                w: points(58, dpi as int),
                h: points(14, dpi as int),
                size: half_points(21, dpi as int),
                color: argb_word(140, 255, 255, 255),
                align: Align::Center,
                bold: false,
            },
        )
}

pub fn draw_horizontal(
    view: BarView,
    pad: Single,
    card_w: Single,
    card_h: Single,
    dpi: i32,
    accent: (u8, u8, u8),
    pct: Single,
) -> (r: Vec<Shape>)
    ensures
        r@ == draw_horizontal_shapes(view, pad, card_w, card_h, dpi, accent, pct),
{
    let mut out: Vec<Shape> = Vec::new();
    let glyph_cx: Single = pad.plus(points_of(34, dpi));
    let glyph_cy: Single = pad.plus(card_h.over(Single::from_i32(2)));
    put_all(
        &mut out,
        draw_speaker(glyph_cx, glyph_cy, points_of(26, dpi), view.muted, argb(235, 255, 255, 255)),
    );
    let track_left: Single = pad.plus(points_of(62, dpi));
    let track_right: Single = pad.plus(card_w).minus(points_of(74, dpi));
    let track_h: Single = points_of(10, dpi);
    let track_y: Single = pad.plus(card_h.over(Single::from_i32(2))).minus(
        track_h.over(Single::from_i32(2)),
    ).plus(points_of(6, dpi));
    let track_w: Single = track_right.minus(track_left);
    put(
        &mut out,
        Shape::Text {
            what: Caption::Channel,
            x: track_left,
            y: pad.plus(points_of(14, dpi)),
            w: track_w,
            h: points_of(14, dpi),
            size: half_points_of(21, dpi),
            color: argb(150, 255, 255, 255),
            align: Align::Near,
            bold: false,
        },
    );
    put(
        &mut out,
        Shape::Fill {
            area: RoundRect {
                x: track_left,
                y: track_y,
                w: track_w,
                h: track_h,
                r: track_h.over(Single::from_i32(2)),
            },
            color: argb(38, 255, 255, 255),
        },
    );
    let unity_x: Single = track_left.plus(track_w.times(unity_fraction(view.settings)));
    put_if(
        &mut out,
        view.settings.min_db.below(Single::from_i32(0)) && Single::from_i32(0).below(
            view.settings.max_db,
        ),
        Shape::Fill {
            area: RoundRect {
                x: unity_x.minus(half_points_of(1, dpi)),
                y: track_y.minus(points_of(5, dpi)),
                w: points_of(1, dpi),
                h: track_h.plus(points_of(10, dpi)),
                r: Single::from_i32(0),
            },
            color: argb(70, 255, 255, 255),
        },
    );
    let meter_h: Single = points_of(4, dpi);
    let meter_y: Single = track_y.plus(track_h).plus(points_of(8, dpi));
    put(
        &mut out,
        Shape::Fill {
            area: RoundRect {
                x: track_left,
                y: meter_y,
                w: track_w,
                h: meter_h,
                r: meter_h.over(Single::from_i32(2)),
            },
            color: argb(30, 255, 255, 255),
        },
    );
    let meter_w: Single = track_w.times(
        view.meter.clamp_between(Single::from_i32(0), Single::from_i32(1)),
    );
    put_if(
        &mut out,
        hundredths_of(50).below(meter_w),
        Shape::Fill {
            area: RoundRect {
                x: track_left,
                y: meter_y,
                w: meter_w,
                h: meter_h,
                r: meter_h.over(Single::from_i32(2)),
            },
            color: meter_color(view.meter),
        },
    );
    let peak_x: Single = track_left.plus(
        track_w.times(view.meter_peak.clamp_between(Single::from_i32(0), Single::from_i32(1))),
    );
    put_if(
        &mut out,
        hundredths_of(2).below(view.meter_peak),
        Shape::Fill {
            area: RoundRect {
                x: peak_x.minus(points_of(1, dpi)),
                y: meter_y.minus(points_of(1, dpi)),
                w: points_of(2, dpi),
                h: meter_h.plus(points_of(2, dpi)),
                r: points_of(1, dpi),
            },
            color: meter_color(view.meter_peak),
        },
    );
    let fill_w: Single = track_w.times(pct);
    let (light, full) = fill_colors(view.muted, accent);
    put_if(
        &mut out,
        hundredths_of(50).below(fill_w),
        Shape::Gradient {
            area: RoundRect {
                x: track_left,
                y: track_y,
                w: fill_w,
                h: track_h,
                r: track_h.over(Single::from_i32(2)),
            },
            top: full,
            bottom: light,
        },
    );
    put(
        &mut out,
        Shape::Text {
            what: Caption::Level,
            x: pad.plus(card_w).minus(points_of(70, dpi)),
            y: pad.plus(card_h.over(Single::from_i32(2))).minus(points_of(14, dpi)),
            w: points_of(58, dpi),
            h: points_of(20, dpi),
            size: points_of(15, dpi),
            color: argb(240, 255, 255, 255),
            align: Align::Center,
            bold: true,
        },
    );
    put_if(
        &mut out,
        !view.muted,
        Shape::Text {
            what: Caption::Gain,
            x: pad.plus(card_w).minus(points_of(70, dpi)),
            y: pad.plus(card_h.over(Single::from_i32(2))).plus(points_of(6, dpi)),
            w: points_of(58, dpi),
            h: points_of(14, dpi),
            size: half_points_of(21, dpi),
            color: argb(140, 255, 255, 255),
            align: Align::Center,
            bold: false,
        },
    );
    out
}

/// The card of the miniature in the settings window.
pub open spec fn preview_card_shapes(x: Single, y: Single, w: Single, h: Single) -> Seq<Shape> {
    let radius = single_of(12);
    Seq::<Shape>::empty()
        + seq![
            Shape::Gradient {
                area: RoundRect { x, y, w, h, r: radius },
                top: argb_word(255, 38, 38, 42),
                bottom: argb_word(255, 24, 24, 27),
            },
        ]
        + seq![
            Shape::Stroke {
                area: RoundRect {
                    x: x.plus_spec(hundredths(50)),
                    y: y.plus_spec(hundredths(50)),
                    w: w.minus_spec(single_of(1)),
                    h: h.minus_spec(single_of(1)),
                    r: radius,
                },
                color: argb_word(30, 255, 255, 255),
                width: single_of(1),
            },
        ]
}

fn preview_card(x: Single, y: Single, w: Single, h: Single) -> (r: Vec<Shape>)
    ensures
        r@ == preview_card_shapes(x, y, w, h),
{
    let mut out: Vec<Shape> = Vec::new();
    let radius: Single = Single::from_i32(12);
    put(
        &mut out,
        Shape::Gradient {
            area: RoundRect { x, y, w, h, r: radius },
            top: argb(255, 38, 38, 42),
            bottom: argb(255, 24, 24, 27),
        },
    );
    put(
        &mut out,
        Shape::Stroke {
            area: RoundRect {
                x: x.plus(hundredths_of(50)),
                y: y.plus(hundredths_of(50)),
                w: w.minus(Single::from_i32(1)),
                h: h.minus(Single::from_i32(1)),
                r: radius,
            },
            color: argb(30, 255, 255, 255),
            width: Single::from_i32(1),
        },
    );
    out
}

/// The face of an upright miniature.
pub open spec fn preview_vertical_shapes(
    x: Single,
    y: Single,
    w: Single,
    h: Single,
    accent: (u8, u8, u8),
    percent: i32,
    pct: Single,
) -> Seq<Shape> {
    let track_w = single_of(8);
    let track_x = x.plus_spec(w.over_spec(single_of(2))).minus_spec(
        track_w.over_spec(single_of(2)),
    );
    let track_top = y.plus_spec(single_of(14));
    let track_h = h.minus_spec(single_of(40));
    let fill_h = track_h.times_spec(pct);
    Seq::<Shape>::empty()
        + seq![
            Shape::Fill {
                area: RoundRect {
                    x: track_x,
                    y: track_top,
                    w: track_w,
                    h: track_h,
                    r: track_w.over_spec(single_of(2)),
                },
                color: argb_word(38, 255, 255, 255),
            },
        ]
        + seq![
            Shape::Gradient {
                area: RoundRect {
                    x: track_x,
                    y: track_top.plus_spec(track_h).minus_spec(fill_h),
                    w: track_w,
                    h: fill_h,
                    r: track_w.over_spec(single_of(2)),
                },
                top: tint_word(shaded_color(accent, hundredths(28)), 255),
                bottom: tint_word(accent, 255),
            },
        ]
        + seq![
            Shape::Text {
                what: Caption::Percent(percent),
                x,
                y: y.plus_spec(h).minus_spec(single_of(22)),
                w,
                h: single_of(16),
                size: single_of(11),
                color: argb_word(230, 255, 255, 255),
                align: Align::Center,
                bold: true,
            },
        ]
}

fn preview_vertical(
    x: Single,
    y: Single,
    w: Single,
    h: Single,
    accent: (u8, u8, u8),
    percent: i32,
    pct: Single,
) -> (r: Vec<Shape>)
    ensures
        r@ == preview_vertical_shapes(x, y, w, h, accent, percent, pct),
{
    let mut out: Vec<Shape> = Vec::new();
    let track_w: Single = Single::from_i32(8);
    let track_x: Single = x.plus(w.over(Single::from_i32(2))).minus(
        track_w.over(Single::from_i32(2)),
    );
    let track_top: Single = y.plus(Single::from_i32(14));
    let track_h: Single = h.minus(Single::from_i32(40));
    put(
        &mut out,
        Shape::Fill {
            area: RoundRect {
                x: track_x,
                y: track_top,
                w: track_w,
                h: track_h,
                r: track_w.over(Single::from_i32(2)),
            },
            color: argb(38, 255, 255, 255),
        },
    );
    let fill_h: Single = track_h.times(pct);
    put(
        &mut out,
        Shape::Gradient {
            area: RoundRect {
                x: track_x,
                y: track_top.plus(track_h).minus(fill_h),
                w: track_w,
                h: fill_h,
                r: track_w.over(Single::from_i32(2)),
            },
            top: tint(shade(accent, hundredths_of(28)), 255),
            bottom: tint(accent, 255),
        },
    );
    put(
        &mut out,
        Shape::Text {
            what: Caption::Percent(percent),
            x,
            y: y.plus(h).minus(Single::from_i32(22)),
            w,
            h: Single::from_i32(16),
            size: Single::from_i32(11),
            color: argb(230, 255, 255, 255),
            align: Align::Center,
            bold: true,
        },
    );
    out
}

/// The face of a lying miniature.
pub open spec fn preview_horizontal_shapes(
    x: Single,
    y: Single,
    w: Single,
    h: Single,
    accent: (u8, u8, u8),
    percent: i32,
    pct: Single,
    muted: bool,
) -> Seq<Shape> {
    let track_h = single_of(8);
    let track_left = x.plus_spec(single_of(34));
    let track_w = w.minus_spec(single_of(76));
    let track_y = y.plus_spec(h.over_spec(single_of(2))).minus_spec(
        track_h.over_spec(single_of(2)),
    );
    Seq::<Shape>::empty()
        + draw_speaker_shapes(
            x.plus_spec(single_of(20)),
            y.plus_spec(h.over_spec(single_of(2))),
            single_of(16),
            muted,
            argb_word(230, 255, 255, 255),
        )
        + seq![
            Shape::Fill {
                area: RoundRect {
                    x: track_left,
                    y: track_y,
                    w: track_w,
                    h: track_h,
                    r: track_h.over_spec(single_of(2)),
                },
                color: argb_word(38, 255, 255, 255),
            },
        ]
        + seq![
            Shape::Gradient {
                area: RoundRect {
                    x: track_left,
                    y: track_y,
                    w: track_w.times_spec(pct),
                    h: track_h,
                    r: track_h.over_spec(single_of(2)),
                },
                top: tint_word(accent, 255),
                bottom: tint_word(shaded_color(accent, hundredths(28)), 255),
            },
        ]
        + seq![
            Shape::Text {
                what: Caption::Percent(percent),
                x: x.plus_spec(w).minus_spec(single_of(40)),
                y: y.plus_spec(h.over_spec(single_of(2))).minus_spec(single_of(8)),
                w: single_of(34),
                h: single_of(16),
                size: single_of(11),
                color: argb_word(230, 255, 255, 255),
                align: Align::Center,
                bold: true,
            },
        ]
}

fn preview_horizontal(
    x: Single,
    y: Single,
    w: Single,
    h: Single,
    accent: (u8, u8, u8),
    percent: i32,
    pct: Single,
    muted: bool,
) -> (r: Vec<Shape>)
    ensures
        r@ == preview_horizontal_shapes(x, y, w, h, accent, percent, pct, muted),
{
    let mut out: Vec<Shape> = Vec::new();
    let track_h: Single = Single::from_i32(8);
    let track_left: Single = x.plus(Single::from_i32(34));
    let track_w: Single = w.minus(Single::from_i32(76));
    let track_y: Single = y.plus(h.over(Single::from_i32(2))).minus(
        track_h.over(Single::from_i32(2)),
    );
    put_all(
        &mut out,
        draw_speaker(
            x.plus(Single::from_i32(20)),
            y.plus(h.over(Single::from_i32(2))),
            Single::from_i32(16),
            muted,
            argb(230, 255, 255, 255),
        ),
    );
    put(
        &mut out,
        Shape::Fill {
            area: RoundRect {
                x: track_left,
                y: track_y,
                w: track_w,
                h: track_h,
                r: track_h.over(Single::from_i32(2)),
            },
            color: argb(38, 255, 255, 255),
        },
    );
    put(
        &mut out,
        Shape::Gradient {
            area: RoundRect {
                x: track_left,
                y: track_y,
                w: track_w.times(pct),
                h: track_h,
                r: track_h.over(Single::from_i32(2)),
            },
            top: tint(accent, 255),
            bottom: tint(shade(accent, hundredths_of(28)), 255),
        },
    );
    put(
        &mut out,
        Shape::Text {
            what: Caption::Percent(percent),
            x: x.plus(w).minus(Single::from_i32(40)),
            y: y.plus(h.over(Single::from_i32(2))).minus(Single::from_i32(8)),
            w: Single::from_i32(34),
            h: Single::from_i32(16),
            size: Single::from_i32(11),
            color: argb(230, 255, 255, 255),
            align: Align::Center,
            bold: true,
        },
    );
    out
}

/// A miniature of the bar, for the preview in the settings window.
pub open spec fn preview_shapes(
    settings: Settings,
    accent: (u8, u8, u8),
    percent: i32,
    muted: bool,
    area: (Single, Single, Single, Single),
) -> Seq<Shape> {
    let (x, y, w, h) = area;
    let pct = single_of(percent as int).over_spec(single_of(100)).clamped(
        zero(false),
        of_bits(ONE),
    );
    preview_card_shapes(x, y, w, h) + if settings.orientation == Orientation::Vertical {
        preview_vertical_shapes(x, y, w, h, accent, percent, pct)
    } else {
        preview_horizontal_shapes(x, y, w, h, accent, percent, pct, muted)
    }
}

/// Draws a miniature of the bar for the settings preview pane.
pub fn draw_preview(
    settings: &Settings,
    accent: (u8, u8, u8),
    percent: i32,
    muted: bool,
    area: (Single, Single, Single, Single),
) -> (r: Vec<Shape>)
    ensures
        r@ == preview_shapes(*settings, accent, percent, muted, area),
{
    let (x, y, w, h) = area;
    let pct: Single = Single::from_i32(percent).over(Single::from_i32(100)).clamp_between(
        Single::from_bits(0),
        Single::from_bits(ONE),
    );
    let mut out: Vec<Shape> = preview_card(x, y, w, h);
    let face = if settings.orientation == Orientation::Vertical {
        preview_vertical(x, y, w, h, accent, percent, pct)
    } else {
        preview_horizontal(x, y, w, h, accent, percent, pct, muted)
    };
    put_all(&mut out, face);
    out
}

} // verus!
