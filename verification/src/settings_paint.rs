//! What the settings window looks like: the shapes of its page, segments,
//! switches and buttons.

use crate::config::{Orientation, Settings};
use crate::draw::{
    draw_preview, half_points, half_points_of, hundredths, hundredths_of, maybe, points, points_of,
    preview_shapes, put, put_all, put_if,
};
use crate::gfx::{
    argb, argb_word, shade, shaded_color, tint, tint_word, Align, Caption, RoundRect, Shape,
};
use crate::osd::Rect;
use crate::settings_actions::is_section;
use crate::settings_ui::{ID_BTN_COLOR, ID_BTN_SAVE, ID_SECTION_END, ID_SECTION_FIRST};
use crate::single::{single_of, Single};
use vstd::prelude::*;

verus! {

// ---------------------------------------------------------------------------
// Colours and numbers
// ---------------------------------------------------------------------------

pub open spec fn background_color() -> (u8, u8, u8) {
    (26, 26, 30)
}

pub open spec fn field_color() -> (u8, u8, u8) {
    (44, 44, 50)
}

pub open spec fn text_color() -> (u8, u8, u8) {
    (236, 236, 241)
}

pub open spec fn text_dim_color() -> (u8, u8, u8) {
    (142, 142, 154)
}

pub open spec fn divider_color() -> (u8, u8, u8) {
    (54, 54, 62)
}

pub fn background_rgb() -> (r: (u8, u8, u8))
    ensures
        r == background_color(),
{
    (26, 26, 30)
}

pub fn field_rgb() -> (r: (u8, u8, u8))
    ensures
        r == field_color(),
{
    (44, 44, 50)
}

pub fn text_rgb() -> (r: (u8, u8, u8))
    ensures
        r == text_color(),
{
    (236, 236, 241)
}

pub fn text_dim_rgb() -> (r: (u8, u8, u8))
    ensures
        r == text_dim_color(),
{
    (142, 142, 154)
}

/// The text color of a control's label: section captions are dimmed.
pub fn label_rgb(id: i32) -> (r: (u8, u8, u8))
    ensures
        r == if ID_SECTION_FIRST <= id < ID_SECTION_END {
            text_dim_color()
        } else {
            text_color()
        },
{
    if is_section(id) {
        text_dim_rgb()
    } else {
        text_rgb()
    }
}

fn divider_rgb() -> (r: (u8, u8, u8))
    ensures
        r == divider_color(),
{
    (54, 54, 62)
}

pub open spec fn difference(a: i32, b: i32) -> Single {
    single_of(a - b)
}

fn difference_of(a: i32, b: i32) -> (r: Single)
    ensures
        r == difference(a, b),
{
    Single::from_i64(a as i64 - b as i64)
}

pub open spec fn sum(a: i32, b: i32) -> Single {
    single_of(a + b)
}

fn sum_of(a: i32, b: i32) -> (r: Single)
    ensures
        r == sum(a, b),
{
    Single::from_i64(a as i64 + b as i64)
}

/// The colours of a segment and its text.
pub open spec fn segment_words(selected: bool, accent: (u8, u8, u8)) -> (u32, u32) {
    if selected {
        (tint_word(accent, 255), argb_word(255, 255, 255, 255))
    } else {
        (tint_word(field_color(), 255), tint_word(text_dim_color(), 255))
    }
}

fn segment_colors(selected: bool, accent: (u8, u8, u8)) -> (r: (u32, u32))
    ensures
        r == segment_words(selected, accent),
{
    if selected {
        (tint(accent, 255), argb(255, 255, 255, 255))
    } else {
        (tint(field_rgb(), 255), tint(text_dim_rgb(), 255))
    }
}

pub open spec fn toggle_word(on: bool, accent: (u8, u8, u8)) -> u32 {
    if on {
        tint_word(accent, 255)
    } else {
        tint_word(field_color(), 255)
    }
}

fn toggle_color(on: bool, accent: (u8, u8, u8)) -> (r: u32)
    ensures
        r == toggle_word(on, accent),
{
    if on {
        tint(accent, 255)
    } else {
        tint(field_rgb(), 255)
    }
}

/// Where the knob of a switch stands: at its right end while on.
pub open spec fn knob_place(on: bool, w: Single, knob: Single, inset: Single) -> Single {
    if on {
        w.minus_spec(knob).minus_spec(inset)
    } else {
        inset
    }
}

fn knob_x(on: bool, w: Single, knob: Single, inset: Single) -> (r: Single)
    ensures
        r == knob_place(on, w, knob, inset),
{
    if on {
        w.minus(knob).minus(inset)
    } else {
        inset
    }
}

/// The colours of a button, its border and its text.
pub open spec fn button_words(
    primary: bool,
    pressed: bool,
    accent: (u8, u8, u8),
) -> (u32, u32, u32) {
    if primary {
        let base = if pressed {
            shaded_color(accent, hundredths(-18))
        } else {
            accent
        };
        (tint_word(base, 255), tint_word(base, 255), argb_word(255, 255, 255, 255))
    } else {
        let base = if pressed {
            (58u8, 58u8, 66u8)
        } else {
            field_color()
        };
        (tint_word(base, 255), tint_word(divider_color(), 255), tint_word(text_color(), 255))
    }
}

fn button_colors(primary: bool, pressed: bool, accent: (u8, u8, u8)) -> (r: (u32, u32, u32))
    ensures
        r == button_words(primary, pressed, accent),
{
    if primary {
        let base = if pressed {
            shade(accent, hundredths_of(-18))
        } else {
            accent
        };
        (tint(base, 255), tint(base, 255), argb(255, 255, 255, 255))
    } else {
        let base: (u8, u8, u8) = if pressed {
            (58, 58, 66)
        } else {
            field_rgb()
        };
        (tint(base, 255), tint(divider_rgb(), 255), tint(text_rgb(), 255))
    }
}

// ---------------------------------------------------------------------------
// Controls
// ---------------------------------------------------------------------------

pub const ODS_SELECTED: u32 = 0x0001;

pub const ODS_FOCUS: u32 = 0x0010;

pub const ODS_NOFOCUSRECT: u32 = 0x0200;

pub const CDIS_FOCUS: u32 = 0x0010;

pub const CDIS_SHOWKEYBOARDCUES: u32 = 0x0200;

/// Whether an owner-drawn control should show its focus outline: it has
/// focus, and keyboard cues aren't hidden, like native controls that only
/// show focus once the keyboard is used.
pub fn owner_focus_visible(state: u32) -> (r: bool)
    ensures
        r == (state & ODS_FOCUS != 0 && state & ODS_NOFOCUSRECT == 0),
{
    state & ODS_FOCUS != 0 && state & ODS_NOFOCUSRECT == 0
}

/// Whether a switch should show its focus outline. Its state says when
/// keyboard cues are shown, not when they are hidden.
pub fn toggle_focus_visible(state: u32) -> (r: bool)
    ensures
        r == (state & CDIS_FOCUS != 0 && state & CDIS_SHOWKEYBOARDCUES != 0),
{
    state & CDIS_FOCUS != 0 && state & CDIS_SHOWKEYBOARDCUES != 0
}

/// Whether a button is being held down.
pub fn is_pressed(state: u32) -> (r: bool)
    ensures
        r == (state & ODS_SELECTED != 0),
{
    state & ODS_SELECTED != 0
}

/// Outline for the control that has keyboard focus. Custom-drawn controls
/// get no focus indication from Windows, so without this, tabbing through
/// the window shows nothing.
pub open spec fn draw_focus_shapes(
    visible: bool,
    x: Single,
    y: Single,
    w: Single,
    h: Single,
    radius: Single,
    dpi: i32,
) -> Seq<Shape> {
    let inset = points(1, dpi as int);
    Seq::<Shape>::empty()
        + maybe(
            visible,
            Shape::Stroke {
                area: RoundRect {
                    x: x.plus_spec(inset),
                    y: y.plus_spec(inset),
                    w: w.minus_spec(inset.times_spec(single_of(2))),
                    h: h.minus_spec(inset.times_spec(single_of(2))),
                    r: radius.minus_spec(inset).larger(single_of(0)),
                },
                color: argb_word(230, 255, 255, 255),
                width: half_points(3, dpi as int),
            },
        )
}

fn draw_focus(
    visible: bool,
    x: Single,
    y: Single,
    w: Single,
    h: Single,
    radius: Single,
    dpi: i32,
) -> (r: Vec<Shape>)
    ensures
        r@ == draw_focus_shapes(visible, x, y, w, h, radius, dpi),
{
    let mut out: Vec<Shape> = Vec::new();
    let inset: Single = points_of(1, dpi);
    put_if(
        &mut out,
        visible,
        Shape::Stroke {
            area: RoundRect {
                x: x.plus(inset),
                y: y.plus(inset),
                w: w.minus(inset.times(Single::from_i32(2))),
                h: h.minus(inset.times(Single::from_i32(2))),
                r: radius.minus(inset).larger_of(Single::from_i32(0)),
            },
            color: argb(230, 255, 255, 255),
            width: half_points_of(3, dpi),
        },
    );
    out
}

/// A pill button of a segmented choice.
pub open spec fn draw_segment_shapes(
    rc: Rect,
    selected: bool,
    accent: (u8, u8, u8),
    focus: bool,
    dpi: i32,
) -> Seq<Shape> {
    let w = difference(rc.right, rc.left);
    let h = difference(rc.bottom, rc.top);
    let (fill, ink) = segment_words(selected, accent);
    Seq::<Shape>::empty()
        + seq![
            Shape::Fill {
                area: RoundRect {
                    x: single_of(0),
                    y: single_of(0),
                    w,
                    h,
                    r: h.over_spec(single_of(2)),
                },
                color: fill,
            },
        ]
        + maybe(
            !selected,
            Shape::Stroke {
                area: RoundRect {
                    x: hundredths(50),
                    y: hundredths(50),
                    w: w.minus_spec(single_of(1)),
                    h: h.minus_spec(single_of(1)),
                    r: h.over_spec(single_of(2)),
                },
                color: tint_word(divider_color(), 255),
                width: single_of(1),
            },
        )
        + seq![
            Shape::Text {
                what: Caption::Control,
                x: single_of(0),
                y: single_of(0),
                w,
                h,
                size: half_points(27, dpi as int),
                color: ink,
                align: Align::Center,
                bold: selected,
            },
        ]
        + draw_focus_shapes(focus, single_of(0), single_of(0), w, h, h.over_spec(single_of(2)), dpi)
}

pub fn draw_segment(
    rc: Rect,
    selected: bool,
    accent: (u8, u8, u8),
    focus: bool,
    dpi: i32,
) -> (r: Vec<Shape>)
    ensures
        r@ == draw_segment_shapes(rc, selected, accent, focus, dpi),
{
    let mut out: Vec<Shape> = Vec::new();
    let w: Single = difference_of(rc.right, rc.left);
    let h: Single = difference_of(rc.bottom, rc.top);
    let (fill, ink) = segment_colors(selected, accent);
    put(
        &mut out,
        Shape::Fill {
            area: RoundRect {
                x: Single::from_i32(0),
                y: Single::from_i32(0),
                w,
                h,
                r: h.over(Single::from_i32(2)),
            },
            color: fill,
        },
    );
    put_if(
        &mut out,
        !selected,
        Shape::Stroke {
            area: RoundRect {
                x: hundredths_of(50),
                y: hundredths_of(50),
                w: w.minus(Single::from_i32(1)),
                h: h.minus(Single::from_i32(1)),
                r: h.over(Single::from_i32(2)),
            },
            color: tint(divider_rgb(), 255),
            width: Single::from_i32(1),
        },
    );
    put(
        &mut out,
        Shape::Text {
            what: Caption::Control,
            x: Single::from_i32(0),
            y: Single::from_i32(0),
            w,
            h,
            size: half_points_of(27, dpi),
            color: ink,
            align: Align::Center,
            bold: selected,
        },
    );
    put_all(
        &mut out,
        draw_focus(
            focus,
            Single::from_i32(0),
            Single::from_i32(0),
            w,
            h,
            h.over(Single::from_i32(2)),
            dpi,
        ),
    );
    out
}

/// A switch, painted over a checkbox.
pub open spec fn draw_toggle_shapes(
    rc: Rect,
    on: bool,
    accent: (u8, u8, u8),
    focus: bool,
    dpi: i32,
) -> Seq<Shape> {
    let w = difference(rc.right, rc.left);
    let h = difference(rc.bottom, rc.top);
    let track_h = h.times_spec(hundredths(78));
    let track_y = h.minus_spec(track_h).over_spec(single_of(2));
    let inset = points(3, dpi as int);
    let knob = track_h.minus_spec(inset.times_spec(single_of(2)));
    Seq::<Shape>::empty()
        + seq![
            Shape::Fill {
                area: RoundRect {
                    x: single_of(0),
                    y: track_y,
                    w,
                    h: track_h,
                    r: track_h.over_spec(single_of(2)),
                },
                color: toggle_word(on, accent),
            },
        ]
        + maybe(
            !on,
            Shape::Stroke {
                area: RoundRect {
                    x: hundredths(50),
                    y: track_y.plus_spec(hundredths(50)),
                    w: w.minus_spec(single_of(1)),
                    h: track_h.minus_spec(single_of(1)),
                    r: track_h.over_spec(single_of(2)),
                },
                color: tint_word(divider_color(), 255),
                width: single_of(1),
            },
        )
        + seq![
            Shape::Ellipse {
                x: knob_place(on, w, knob, inset),
                y: track_y.plus_spec(inset),
                w: knob,
                h: knob,
                color: argb_word(255, 255, 255, 255),
            },
        ]
        + draw_focus_shapes(
            focus,
            single_of(0),
            track_y,
            w,
            track_h,
            track_h.over_spec(single_of(2)),
            dpi,
        )
}

pub fn draw_toggle(
    rc: Rect,
    on: bool,
    accent: (u8, u8, u8),
    focus: bool,
    dpi: i32,
) -> (r: Vec<Shape>)
    ensures
        r@ == draw_toggle_shapes(rc, on, accent, focus, dpi),
{
    let mut out: Vec<Shape> = Vec::new();
    let w: Single = difference_of(rc.right, rc.left);
    let h: Single = difference_of(rc.bottom, rc.top);
    let track_h: Single = h.times(hundredths_of(78));
    let track_y: Single = h.minus(track_h).over(Single::from_i32(2));
    put(
        &mut out,
        Shape::Fill {
            area: RoundRect {
                x: Single::from_i32(0),
                y: track_y,
                w,
                h: track_h,
                r: track_h.over(Single::from_i32(2)),
            },
            color: toggle_color(on, accent),
        },
    );
    put_if(
        &mut out,
        !on,
        Shape::Stroke {
            area: RoundRect {
                x: hundredths_of(50),
                y: track_y.plus(hundredths_of(50)),
                w: w.minus(Single::from_i32(1)),
                h: track_h.minus(Single::from_i32(1)),
                r: track_h.over(Single::from_i32(2)),
            },
            color: tint(divider_rgb(), 255),
            width: Single::from_i32(1),
        },
    );
    let inset: Single = points_of(3, dpi);
    let knob: Single = track_h.minus(inset.times(Single::from_i32(2)));
    put(
        &mut out,
        Shape::Ellipse {
            x: knob_x(on, w, knob, inset),
            y: track_y.plus(inset),
            w: knob,
            h: knob,
            color: argb(255, 255, 255, 255),
        },
    );
    put_all(
        &mut out,
        draw_focus(
            focus,
            Single::from_i32(0),
            track_y,
            w,
            track_h,
            track_h.over(Single::from_i32(2)),
            dpi,
        ),
    );
    out
}

/// A button: filled with the accent where it is the primary one, with a
/// colour chip where it chooses a colour.
pub open spec fn button_face_shapes(
    rc: Rect,
    primary: bool,
    chooser: bool,
    pressed: bool,
    accent: (u8, u8, u8),
    focus: bool,
    dpi: i32,
) -> Seq<Shape> {
    let w = difference(rc.right, rc.left);
    let h = difference(rc.bottom, rc.top);
    let radius = points(6, dpi as int);
    let (fill, border, ink) = button_words(primary, pressed, accent);
    let chip = h.minus_spec(points(10, dpi as int));
    Seq::<Shape>::empty()
        + seq![
            Shape::Fill {
                area: RoundRect { x: single_of(0), y: single_of(0), w, h, r: radius },
                color: fill,
            },
        ]
        + seq![
            Shape::Stroke {
                area: RoundRect {
                    x: hundredths(50),
                    y: hundredths(50),
                    w: w.minus_spec(single_of(1)),
                    h: h.minus_spec(single_of(1)),
                    r: radius,
                },
                color: border,
                width: single_of(1),
            },
        ]
        + maybe(
            chooser,
            Shape::Fill {
                area: RoundRect {
                    x: points(8, dpi as int),
                    y: points(5, dpi as int),
                    w: chip.times_spec(hundredths(160)),
                    h: chip,
                    r: points(4, dpi as int),
                },
                color: tint_word(accent, 255),
            },
        )
        + maybe(
            chooser,
            Shape::Text {
                what: Caption::Control,
                x: chip.times_spec(hundredths(160)).plus_spec(points(18, dpi as int)),
                y: single_of(0),
                w,
                h,
                size: points(14, dpi as int),
                color: ink,
                align: Align::Near,
                bold: false,
            },
        )
        + maybe(
            !chooser,
            Shape::Text {
                what: Caption::Control,
                x: single_of(0),
                y: single_of(0),
                w,
                h,
                size: points(14, dpi as int),
                color: ink,
                align: Align::Center,
                bold: primary,
            },
        )
        + draw_focus_shapes(focus, single_of(0), single_of(0), w, h, radius, dpi)
}

fn button_face(
    rc: Rect,
    primary: bool,
    chooser: bool,
    pressed: bool,
    accent: (u8, u8, u8),
    focus: bool,
    dpi: i32,
) -> (r: Vec<Shape>)
    ensures
        r@ == button_face_shapes(rc, primary, chooser, pressed, accent, focus, dpi),
{
    let mut out: Vec<Shape> = Vec::new();
    let w: Single = difference_of(rc.right, rc.left);
    let h: Single = difference_of(rc.bottom, rc.top);
    let radius: Single = points_of(6, dpi);
    let (fill, border, ink) = button_colors(primary, pressed, accent);
    put(
        &mut out,
        Shape::Fill {
            area: RoundRect {
                x: Single::from_i32(0),
                y: Single::from_i32(0),
                w,
                h,
                r: radius,
            },
            color: fill,
        },
    );
    put(
        &mut out,
        Shape::Stroke {
            area: RoundRect {
                x: hundredths_of(50),
                y: hundredths_of(50),
                w: w.minus(Single::from_i32(1)),
                h: h.minus(Single::from_i32(1)),
                r: radius,
            },
            color: border,
            width: Single::from_i32(1),
        },
    );
    let chip: Single = h.minus(points_of(10, dpi));
    put_if(
        &mut out,
        chooser,
        Shape::Fill {
            area: RoundRect {
                x: points_of(8, dpi),
                y: points_of(5, dpi),
                w: chip.times(hundredths_of(160)),
                h: chip,
                r: points_of(4, dpi),
            },
            color: tint(accent, 255),
        },
    );
    put_if(
        &mut out,
        chooser,
        Shape::Text {
            what: Caption::Control,
            x: chip.times(hundredths_of(160)).plus(points_of(18, dpi)),
            y: Single::from_i32(0),
            w,
            h,
            size: points_of(14, dpi),
            color: ink,
            align: Align::Near,
            bold: false,
        },
    );
    put_if(
        &mut out,
        !chooser,
        Shape::Text {
            what: Caption::Control,
            x: Single::from_i32(0),
            y: Single::from_i32(0),
            w,
            h,
            size: points_of(14, dpi),
            color: ink,
            align: Align::Center,
            bold: primary,
        },
    );
    put_all(
        &mut out,
        draw_focus(focus, Single::from_i32(0), Single::from_i32(0), w, h, radius, dpi),
    );
    out
}

/// The header, the dividers, and the panel behind the preview: a lighter
/// "desktop" so the dark card reads against it.
pub open spec fn page_shapes(width: i32, pr: Rect, dpi: i32) -> Seq<Shape> {
    let w = difference(pr.right, pr.left);
    let h = difference(pr.bottom, pr.top);
    Seq::<Shape>::empty()
        + seq![
            Shape::Text {
                what: Caption::Title,
                x: points(74, dpi as int),
                y: points(22, dpi as int),
                w: points(300, dpi as int),
                h: points(22, dpi as int),
                size: points(17, dpi as int),
                color: tint_word(text_color(), 255),
                align: Align::Near,
                bold: true,
            },
        ]
        + seq![
            Shape::Text {
                what: Caption::Subtitle,
                x: points(74, dpi as int),
                y: points(42, dpi as int),
                w: points(300, dpi as int),
                h: points(18, dpi as int),
                size: half_points(25, dpi as int),
                color: tint_word(text_dim_color(), 255),
                align: Align::Near,
                bold: false,
            },
        ]
        + seq![
            Shape::Fill {
                area: RoundRect {
                    x: single_of(0),
                    y: points(76, dpi as int),
                    w: single_of(width as int),
                    h: points(1, dpi as int),
                    r: single_of(0),
                },
                color: tint_word(divider_color(), 255),
            },
        ]
        + seq![
            Shape::Fill {
                area: RoundRect {
                    x: points(448, dpi as int),
                    y: points(96, dpi as int),
                    w: points(1, dpi as int),
                    h: single_of(pr.bottom as int).minus_spec(points(96, dpi as int)).larger(
                        single_of(0),
                    ),
                    r: single_of(0),
                },
                color: tint_word(divider_color(), 255),
            },
        ]
        + seq![
            Shape::Gradient {
                area: RoundRect {
                    x: single_of(pr.left as int),
                    y: single_of(pr.top as int),
                    w,
                    h,
                    r: points(10, dpi as int),
                },
                top: argb_word(255, 58, 60, 74),
                bottom: argb_word(255, 34, 35, 44),
            },
        ]
        + seq![
            Shape::Stroke {
                area: RoundRect {
                    x: single_of(pr.left as int).plus_spec(hundredths(50)),
                    y: single_of(pr.top as int).plus_spec(hundredths(50)),
                    w: w.minus_spec(single_of(1)),
                    h: h.minus_spec(single_of(1)),
                    r: points(10, dpi as int),
                },
                color: tint_word(divider_color(), 255),
                width: single_of(1),
            },
        ]
}

fn page(width: i32, pr: Rect, dpi: i32) -> (r: Vec<Shape>)
    ensures
        r@ == page_shapes(width, pr, dpi),
{
    let mut out: Vec<Shape> = Vec::new();
    put(
        &mut out,
        Shape::Text {
            what: Caption::Title,
            x: points_of(74, dpi),
            y: points_of(22, dpi),
            w: points_of(300, dpi),
            h: points_of(22, dpi),
            size: points_of(17, dpi),
            color: tint(text_rgb(), 255),
            align: Align::Near,
            bold: true,
        },
    );
    put(
        &mut out,
        Shape::Text {
            what: Caption::Subtitle,
            x: points_of(74, dpi),
            y: points_of(42, dpi),
            w: points_of(300, dpi),
            h: points_of(18, dpi),
            size: half_points_of(25, dpi),
            color: tint(text_dim_rgb(), 255),
            align: Align::Near,
            bold: false,
        },
    );
    put(
        &mut out,
        Shape::Fill {
            area: RoundRect {
                x: Single::from_i32(0),
                y: points_of(76, dpi),
                w: Single::from_i32(width),
                h: points_of(1, dpi),
                r: Single::from_i32(0),
            },
            color: tint(divider_rgb(), 255),
        },
    );
    put(
        &mut out,
        Shape::Fill {
            area: RoundRect {
                x: points_of(448, dpi),
                y: points_of(96, dpi),
                w: points_of(1, dpi),
                h: Single::from_i32(pr.bottom).minus(points_of(96, dpi)).larger_of(
                    Single::from_i32(0),
                ),
                r: Single::from_i32(0),
            },
            color: tint(divider_rgb(), 255),
        },
    );
    let w: Single = difference_of(pr.right, pr.left);
    let h: Single = difference_of(pr.bottom, pr.top);
    put(
        &mut out,
        Shape::Gradient {
            area: RoundRect {
                x: Single::from_i32(pr.left),
                y: Single::from_i32(pr.top),
                w,
                h,
                r: points_of(10, dpi),
            },
            top: argb(255, 58, 60, 74),
            bottom: argb(255, 34, 35, 44),
        },
    );
    put(
        &mut out,
        Shape::Stroke {
            area: RoundRect {
                x: Single::from_i32(pr.left).plus(hundredths_of(50)),
                y: Single::from_i32(pr.top).plus(hundredths_of(50)),
                w: w.minus(Single::from_i32(1)),
                h: h.minus(Single::from_i32(1)),
                r: points_of(10, dpi),
            },
            color: tint(divider_rgb(), 255),
            width: Single::from_i32(1),
        },
    );
    out
}

/// A button of the window, by its number.
pub fn draw_button(
    id: i32,
    rc: Rect,
    pressed: bool,
    accent: (u8, u8, u8),
    focus: bool,
    dpi: i32,
) -> (r: Vec<Shape>)
    ensures
        r@ == button_face_shapes(
            rc,
            id == ID_BTN_SAVE,
            id == ID_BTN_COLOR,
            pressed,
            accent,
            focus,
            dpi,
        ),
{
    button_face(rc, id == ID_BTN_SAVE, id == ID_BTN_COLOR, pressed, accent, focus, dpi)
}

// ---------------------------------------------------------------------------
// The page
// ---------------------------------------------------------------------------

/// The box of the miniature: centred on the preview's panel.
pub open spec fn miniature(
    settings: Settings,
    pr: Rect,
    dpi: int,
) -> (Single, Single, Single, Single) {
    let (w, h) = if settings.orientation == Orientation::Vertical {
        (points(54, dpi), points(104, dpi))
    } else {
        (points(252, dpi), points(62, dpi))
    };
    let two = single_of(2);
    (
        sum(pr.left, pr.right).over_spec(two).minus_spec(w.over_spec(two)),
        sum(pr.top, pr.bottom).over_spec(two).minus_spec(h.over_spec(two)),
        w,
        h,
    )
}

fn miniature_box(settings: &Settings, pr: Rect, dpi: i32) -> (r: (Single, Single, Single, Single))
    ensures
        r == miniature(*settings, pr, dpi as int),
{
    let (w, h) = if settings.orientation == Orientation::Vertical {
        (points_of(54, dpi), points_of(104, dpi))
    } else {
        (points_of(252, dpi), points_of(62, dpi))
    };
    let two = Single::from_i32(2);
    (
        sum_of(pr.left, pr.right).over(two).minus(w.over(two)),
        sum_of(pr.top, pr.bottom).over(two).minus(h.over(two)),
        w,
        h,
    )
}

/// The page of the settings window, `width` pixels wide: its header and
/// panels, and a miniature of the bar as the pending settings have it.
pub fn paint(
    width: i32,
    pr: Rect,
    dpi: i32,
    pending: &Settings,
    accent: (u8, u8, u8),
    percent: i32,
    muted: bool,
) -> (r: Vec<Shape>)
    ensures
        ({
            let shown = pending.normalized();
            r@ == page_shapes(width, pr, dpi) + preview_shapes(
                shown,
                accent,
                percent,
                muted,
                miniature(shown, pr, dpi as int),
            )
        }),
{
    let mut shown: Settings = *pending;
    shown.normalize();
    let mut out: Vec<Shape> = page(width, pr, dpi);
    let area = miniature_box(&shown, pr, dpi);
    put_all(&mut out, draw_preview(&shown, accent, percent, muted, area));
    out
}

} // verus!
