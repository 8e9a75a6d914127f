//! Where the bar stands: its size, the display that hosts it, and its place
//! on that display.

use crate::config::{limited, Orientation, Position, Settings};
use crate::text::same;
use crate::utf16::{decode, from_wide};
use vstd::arithmetic::div_mod::{
    lemma_div_is_ordered_by_denominator, lemma_div_pos_is_pos, lemma_fundamental_div_mod,
};
use vstd::prelude::*;

verus! {

/// A rectangle on the desktop.
#[derive(Clone, Copy, PartialEq, Eq, Debug, Structural)]
pub struct Rect {
    pub left: i32,
    pub top: i32,
    pub right: i32,
    pub bottom: i32,
}

/// Space reserved around the card for the drop shadow.
pub const SHADOW: i32 = 10;

/// Height of the callout tail that points down at the tray icon.
pub const TAIL_H: i32 = 9;

pub const TAIL_W: i32 = 18;

/// The quotient of two numbers, rounded toward zero.
pub open spec fn truncated(n: int, d: int) -> int {
    if n < 0 {
        -((-n) / d)
    } else {
        n / d
    }
}

/// A length in pixels of a display: `v` at 96 dots per inch.
pub open spec fn pixels(v: int, dpi: int) -> int {
    truncated(v * dpi, 96)
}

fn quotient(n: i64, d: i64) -> (r: i64)
    requires
        d > 0,
        n > i64::MIN,
    ensures
        r == truncated(n as int, d as int),
        -abs_of(n as int) <= r <= abs_of(n as int),
{
    if n < 0 {
        let q: i64 = (-n) / d;
        proof {
            lemma_quotient_small((-n) as int, d as int);
        }
        -q
    } else {
        proof {
            lemma_quotient_small(n as int, d as int);
        }
        n / d
    }
}

pub open spec fn abs_of(n: int) -> int {
    if n < 0 {
        -n
    } else {
        n
    }
}

proof fn lemma_quotient_small(n: int, d: int)
    requires
        n >= 0,
        d > 0,
    ensures
        0 <= n / d <= n,
{
    lemma_div_pos_is_pos(n, d);
    lemma_div_is_ordered_by_denominator(n, 1, d);
}

fn pixels_of(v: i32, dpi: i32) -> (r: i64)
    requires
        -1000 <= v <= 1000,
    ensures
        r == pixels(v as int, dpi as int),
        -2_200_000_000_000 <= r <= 2_200_000_000_000,
{
    proof {
        assert(-2_200_000_000_000 <= v * dpi <= 2_200_000_000_000) by (nonlinear_arith)
            requires
                -1000 <= v <= 1000,
                i32::MIN <= dpi <= i32::MAX,
        ;
    }
    quotient(v as i64 * dpi as i64, 96)
}

// ---------------------------------------------------------------------------
// Size
// ---------------------------------------------------------------------------

/// The tail only makes sense when docked by the tray, where there is
/// something for it to point at.
pub fn has_tail(settings: &Settings) -> (r: bool)
    ensures
        r == (settings.position == Position::AboveTray),
{
    settings.position == Position::AboveTray
}

/// The size of the card with its shadow and tail, at 96 dots per inch.
pub open spec fn base_size(settings: Settings) -> (int, int) {
    let (w, h) = match settings.orientation {
        Orientation::Vertical => (66int, 226int),
        Orientation::Horizontal => (300int, 86int),
    };
    let tail = if settings.position == Position::AboveTray {
        TAIL_H as int
    } else {
        0
    };
    (w + 2 * SHADOW, h + 2 * SHADOW + tail)
}

/// The full window size, in pixels.
pub open spec fn window_size(settings: Settings, dpi: int) -> (int, int) {
    (pixels(base_size(settings).0, dpi), pixels(base_size(settings).1, dpi))
}

/// Full window size including shadow padding and tail, in physical pixels.
pub fn size_for(settings: &Settings, dpi: i32) -> (r: (i32, i32))
    requires
        fits(base_size(*settings).0 * dpi),
        fits(base_size(*settings).1 * dpi),
    ensures
        r.0 == window_size(*settings, dpi as int).0,
        r.1 == window_size(*settings, dpi as int).1,
{
    let (w, h) = match settings.orientation {
        Orientation::Vertical => (66i32, 226i32),
        Orientation::Horizontal => (300i32, 86i32),
    };
    let tail: i32 = if has_tail(settings) {
        TAIL_H
    } else {
        0
    };
    let full_w: i64 = quotient((w + 2 * SHADOW) as i64 * dpi as i64, 96);
    let full_h: i64 = quotient((h + 2 * SHADOW + tail) as i64 * dpi as i64, 96);
    (full_w as i32, full_h as i32)
}

// ---------------------------------------------------------------------------
// The hosting display
// ---------------------------------------------------------------------------

/// Geometry of the display currently hosting the OSD. Captured when the bar
/// appears so it stays put for that showing, even if focus moves.
#[derive(Clone, Copy, PartialEq, Eq, Debug, Structural)]
pub struct MonitorInfo {
    pub work: Rect,
    pub full: Rect,
    pub dpi: i32,
}

/// What the system reports of a display.
#[derive(Clone, Copy, PartialEq, Eq, Debug, Structural)]
pub struct MonitorReport {
    pub work: Rect,
    pub full: Rect,
    pub dpi: u32,
}

/// Which display to ask the system for.
#[derive(Clone, Copy, PartialEq, Eq, Debug, Structural)]
pub enum MonitorChoice {
    /// The one at, or nearest to, a point.
    Near { x: i32, y: i32 },
    /// The one that holds the active window.
    Foreground,
    Primary,
}

/// The geometry of a display, from what the system reports of it. Without a
/// report the whole screen stands in for it.
pub fn metrics_of(report: Option<MonitorReport>, screen: (i32, i32)) -> (r: MonitorInfo)
    ensures
        match report {
            Some(m) => r.work == m.work && r.full == m.full && r.dpi == if 96 <= m.dpi
                <= 0x7FFF_FFFF {
                m.dpi as int
            } else {
                96
            },
            None => r.dpi == 96 && r.work == r.full && r.work == (Rect {
                left: 0,
                top: 0,
                right: screen.0,
                bottom: screen.1,
            }),
        },
{
    match report {
        Some(m) => MonitorInfo {
            work: m.work,
            full: m.full,
            dpi: if 96 <= m.dpi && m.dpi <= 0x7FFF_FFFF {
                m.dpi as i32
            } else {
                96
            },
        },
        None => {
            let screen_rect = Rect { left: 0, top: 0, right: screen.0, bottom: screen.1 };
            MonitorInfo { work: screen_rect, full: screen_rect, dpi: 96 }
        },
    }
}

/// True when the user has actually dragged the bar somewhere; `custom_(0,0)`
/// is the never-dragged sentinel, which behaves like Centre.
pub fn custom_is_set(settings: &Settings) -> (r: bool)
    ensures
        r == is_dragged(*settings),
{
    settings.custom_x != 0 || settings.custom_y != 0
}

pub open spec fn is_dragged(settings: Settings) -> bool {
    settings.custom_x != 0 || settings.custom_y != 0
}

/// The display to show on: the one owning the tray icon when docked, otherwise
/// the one the user is actually working on.
pub open spec fn chosen_monitor(
    settings: Settings,
    tray_point: Option<(i32, i32)>,
    foreground: bool,
    cursor: Option<(i32, i32)>,
) -> MonitorChoice {
    match (settings.position, tray_point) {
        (Position::AboveTray, Some(p)) => MonitorChoice::Near { x: p.0, y: p.1 },
        (Position::AboveTray, None) => MonitorChoice::Primary,
        _ => if settings.position == Position::Custom && is_dragged(settings) {
            MonitorChoice::Near { x: settings.custom_x, y: settings.custom_y }
        } else if foreground {
            MonitorChoice::Foreground
        } else {
            match cursor {
                Some(p) => MonitorChoice::Near { x: p.0, y: p.1 },
                None => MonitorChoice::Primary,
            }
        },
    }
}

/// Picks the display to show on: the one owning the tray icon when docked,
/// otherwise the one the user is actually working on. `foreground` says
/// whether there is an active window, `cursor` where the pointer is, if that
/// is known.
pub fn resolve_monitor(
    settings: &Settings,
    tray_point: Option<(i32, i32)>,
    foreground: bool,
    cursor: Option<(i32, i32)>,
) -> (r: MonitorChoice)
    ensures
        r == chosen_monitor(*settings, tray_point, foreground, cursor),
{
    if settings.position == Position::AboveTray {
        return match tray_point {
            Some((x, y)) => MonitorChoice::Near { x, y },
            None => MonitorChoice::Primary,
        };
    }
    if settings.position == Position::Custom && custom_is_set(settings) {
        return MonitorChoice::Near { x: settings.custom_x, y: settings.custom_y };
    }
    if foreground {
        return MonitorChoice::Foreground;
    }
    match cursor {
        Some((x, y)) => MonitorChoice::Near { x, y },
        None => MonitorChoice::Primary,
    }
}

/// The display follows the bar's place. A docked bar is where its icon is,
/// whatever the user works on; one that was dragged is where it was dragged
/// to; and one that floats is with the active window, with the pointer where
/// there is none, and never goes by the icon.
pub proof fn law_the_display_follows_the_bars_place(
    settings: Settings,
    icon: (i32, i32),
    other: Option<(i32, i32)>,
    foreground: bool,
    cursor: (i32, i32),
)
    ensures
        settings.position == Position::AboveTray ==> chosen_monitor(
            settings,
            Some(icon),
            foreground,
            Some(cursor),
        ) == (MonitorChoice::Near { x: icon.0, y: icon.1 }),
        settings.position == Position::Custom && (settings.custom_x != 0 || settings.custom_y != 0)
            ==> chosen_monitor(settings, other, foreground, Some(cursor)) == (MonitorChoice::Near {
            x: settings.custom_x,
            y: settings.custom_y,
        }),
        settings.position == Position::Centre || (settings.position == Position::Custom
            && settings.custom_x == 0 && settings.custom_y == 0) ==> {
            &&& chosen_monitor(settings, other, true, Some(cursor)) == MonitorChoice::Foreground
            &&& chosen_monitor(settings, other, false, Some(cursor)) == (MonitorChoice::Near {
                x: cursor.0,
                y: cursor.1,
            })
            &&& chosen_monitor(settings, other, foreground, None) == chosen_monitor(
                settings,
                None,
                foreground,
                None,
            )
        },
{
}

// ---------------------------------------------------------------------------
// Place
// ---------------------------------------------------------------------------

pub open spec fn smaller_int(a: int, b: int) -> int {
    if a < b {
        a
    } else {
        b
    }
}

/// Top-left position for the window, shadow padding accounted for.
pub open spec fn origin(
    settings: Settings,
    dpi: int,
    work: Rect,
    tray_point: Option<(i32, i32)>,
) -> (int, int) {
    let (w, h) = window_size(settings, dpi);
    let gap = pixels(10, dpi);
    let pad = pixels(SHADOW as int, dpi);
    let visible = pixels(48, dpi);
    if settings.position == Position::AboveTray {
        let max_x = work.right - w + pad - gap;
        let min_x = work.left - pad + gap;
        (
            match tray_point {
                Some(p) => limited(p.0 - truncated(w, 2), smaller_int(min_x, max_x), max_x),
                None => max_x,
            },
            work.bottom - h + pad - gap,
        )
    } else if settings.position == Position::Custom && is_dragged(settings) {
        let (max_x, max_y) = (work.right - visible, work.bottom - visible);
        let (min_x, min_y) = (work.left - w + visible, work.top - h + visible);
        (
            limited(settings.custom_x as int, smaller_int(min_x, max_x), max_x),
            limited(settings.custom_y as int, smaller_int(min_y, max_y), max_y),
        )
    } else {
        (
            work.left + truncated(work.right - work.left - w, 2),
            work.bottom - h - truncated(work.bottom - work.top, 8),
        )
    }
}

pub open spec fn fits(n: int) -> bool {
    i32::MIN <= n <= i32::MAX
}

/// Whether the size and the place of the window can be told in 32 bits.
pub open spec fn can_place(
    settings: Settings,
    dpi: int,
    work: Rect,
    tray_point: Option<(i32, i32)>,
) -> bool {
    &&& fits(base_size(settings).0 * dpi)
    &&& fits(base_size(settings).1 * dpi)
    &&& fits(origin(settings, dpi, work, tray_point).0)
    &&& fits(origin(settings, dpi, work, tray_point).1)
}

/// Coordinates that leave room for adding lengths to them in 32 bits.
pub open spec fn is_coordinate(v: int) -> bool {
    -0x3F00_0000 <= v <= 0x3F00_0000
}

pub open spec fn is_area(r: Rect) -> bool {
    is_coordinate(r.left as int) && is_coordinate(r.top as int) && is_coordinate(r.right as int)
        && is_coordinate(r.bottom as int)
}

/// Resolutions whose lengths fit in 32 bits.
pub open spec fn is_resolution(dpi: int) -> bool {
    0 <= dpi <= 6_000_000
}

fn limit(n: i64, lo: i64, hi: i64) -> (r: i64)
    ensures
        r == limited(n as int, lo as int, hi as int),
{
    if n < lo {
        lo
    } else if n > hi {
        hi
    } else {
        n
    }
}

fn smaller(a: i64, b: i64) -> (r: i64)
    ensures
        r == smaller_int(a as int, b as int),
{
    if a < b {
        a
    } else {
        b
    }
}

proof fn lemma_lengths(settings: Settings, dpi: int)
    requires
        is_resolution(dpi),
    ensures
        0 <= window_size(settings, dpi).0 <= 20_000_000,
        0 <= window_size(settings, dpi).1 <= 20_000_000,
        0 <= pixels(10, dpi) <= 1_000_000,
        0 <= pixels(48, dpi) <= 3_000_000,
        fits(base_size(settings).0 * dpi),
        fits(base_size(settings).1 * dpi),
{
    let (w, h) = base_size(settings);
    assert(0 <= w * dpi <= 320 * 6_000_000) by (nonlinear_arith)
        requires
            0 <= w <= 320,
            0 <= dpi <= 6_000_000,
    ;
    assert(0 <= h * dpi <= 320 * 6_000_000) by (nonlinear_arith)
        requires
            0 <= h <= 320,
            0 <= dpi <= 6_000_000,
    ;
}

/// Top-left position for the window, shadow padding accounted for.
pub fn origin_for(
    settings: &Settings,
    dpi: i32,
    monitor: &MonitorInfo,
    tray_point: Option<(i32, i32)>,
) -> (r: (i32, i32))
    requires
        can_place(*settings, dpi as int, monitor.work, tray_point),
    ensures
        r.0 == origin(*settings, dpi as int, monitor.work, tray_point).0,
        r.1 == origin(*settings, dpi as int, monitor.work, tray_point).1,
{
    let (w32, h32) = size_for(settings, dpi);
    let (w, h) = (w32 as i64, h32 as i64);
    let gap: i64 = pixels_of(10, dpi);
    let pad: i64 = pixels_of(SHADOW, dpi);
    let visible: i64 = pixels_of(48, dpi);
    let left: i64 = monitor.work.left as i64;
    let top: i64 = monitor.work.top as i64;
    let right: i64 = monitor.work.right as i64;
    let bottom: i64 = monitor.work.bottom as i64;
    if settings.position == Position::AboveTray {
        // Centre over the icon itself; fall back to the corner if the shell
        // won't tell us where it is.
        let max_x: i64 = right - w + pad - gap;
        let x: i64 = match tray_point {
            Some((tx, _)) => {
                let ideal: i64 = tx as i64 - quotient(w, 2);
                let min_x: i64 = left - pad + gap;
                limit(ideal, smaller(min_x, max_x), max_x)
            },
            None => max_x,
        };
        let y: i64 = bottom - h + pad - gap;
        (x as i32, y as i32)
    } else if settings.position == Position::Custom && custom_is_set(settings) {
        // Saved coordinates can outlive the display they were set on; keep
        // enough of the card on screen to grab it back.
        let min_x: i64 = left - w + visible;
        let max_x: i64 = right - visible;
        let min_y: i64 = top - h + visible;
        let max_y: i64 = bottom - visible;
        let x: i64 = limit(settings.custom_x as i64, smaller(min_x, max_x), max_x);
        let y: i64 = limit(settings.custom_y as i64, smaller(min_y, max_y), max_y);
        (x as i32, y as i32)
    } else {
        // Horizontally centred but sitting low, so it floats clear of
        // whatever you're actually looking at instead of covering it.
        let x: i64 = left + quotient(right - left - w, 2);
        let y: i64 = bottom - h - quotient(bottom - top, 8);
        (x as i32, y as i32)
    }
}

/// There is a place for the bar on every display of an ordinary size and
/// resolution.
pub proof fn law_the_bar_has_a_place_on_ordinary_displays(
    settings: Settings,
    dpi: int,
    work: Rect,
    tray_point: Option<(i32, i32)>,
)
    requires
        is_resolution(dpi),
        is_area(work),
    ensures
        can_place(settings, dpi, work, tray_point),
        -0x7000_0000 <= origin(settings, dpi, work, tray_point).0 <= 0x7000_0000,
        -0x7000_0000 <= origin(settings, dpi, work, tray_point).1 <= 0x7000_0000,
{
    lemma_lengths(settings, dpi);
}

/// A bar that was dragged keeps at least 48 pixels of itself on the display,
/// so that it can be grabbed again, as long as the display has room for that.
pub proof fn law_a_dragged_bar_stays_in_reach(
    settings: Settings,
    dpi: int,
    work: Rect,
    tray_point: Option<(i32, i32)>,
)
    requires
        is_resolution(dpi),
        settings.position == Position::Custom,
        is_dragged(settings),
        work.left - window_size(settings, dpi).0 + pixels(48, dpi) <= work.right - pixels(48, dpi),
        work.top - window_size(settings, dpi).1 + pixels(48, dpi) <= work.bottom - pixels(48, dpi),
    ensures
        ({
            let (x, y) = origin(settings, dpi, work, tray_point);
            let (w, h) = window_size(settings, dpi);
            let visible = pixels(48, dpi);
            &&& x + w >= work.left + visible
            &&& x <= work.right - visible
            &&& y + h >= work.top + visible
            &&& y <= work.bottom - visible
        }),
{
}

/// A bar that was dragged to a place where enough of it is in view stands
/// exactly there.
pub proof fn law_a_bar_in_view_is_not_moved(
    settings: Settings,
    dpi: int,
    work: Rect,
    tray_point: Option<(i32, i32)>,
)
    requires
        settings.position == Position::Custom,
        is_dragged(settings),
        work.left - window_size(settings, dpi).0 + pixels(48, dpi) <= settings.custom_x
            <= work.right - pixels(48, dpi),
        work.top - window_size(settings, dpi).1 + pixels(48, dpi) <= settings.custom_y
            <= work.bottom - pixels(48, dpi),
    ensures
        origin(settings, dpi, work, tray_point) == (
            settings.custom_x as int,
            settings.custom_y as int,
        ),
{
}

/// A docked bar lies within the sides of the work area, but for its shadow,
/// as long as it fits.
pub proof fn law_a_docked_bar_stays_on_its_display(
    settings: Settings,
    dpi: int,
    work: Rect,
    tray_point: Option<(i32, i32)>,
)
    requires
        is_resolution(dpi),
        settings.position == Position::AboveTray,
        work.left <= work.right - window_size(settings, dpi).0,
    ensures
        ({
            let (x, y) = origin(settings, dpi, work, tray_point);
            let (w, h) = window_size(settings, dpi);
            &&& work.left <= x
            &&& x + w <= work.right
            &&& y + h == work.bottom
        }),
{
    lemma_lengths(settings, dpi);
}

/// The window is as large as its card, the shadow around it and the tail take
/// on the display, cut to whole pixels: at 96 dots per inch an upright card is
/// 66 by 226 pixels and a lying one 300 by 86, the shadow takes 10 on each
/// side, and a docked bar's tail 9.
pub proof fn law_the_window_scales_with_the_resolution(settings: Settings, dpi: int)
    requires
        is_resolution(dpi),
    ensures
        ({
            let (w, h) = window_size(settings, dpi);
            let (card_w, card_h) = if settings.orientation == Orientation::Vertical {
                (66int, 226int)
            } else {
                (300int, 86int)
            };
            let tail = if settings.position == Position::AboveTray {
                9int
            } else {
                0int
            };
            &&& 96 * w <= (card_w + 20) * dpi < 96 * (w + 1)
            &&& 96 * h <= (card_h + 20 + tail) * dpi < 96 * (h + 1)
        }),
{
    lemma_lengths(settings, dpi);
    let (a, b) = base_size(settings);
    lemma_fundamental_div_mod(a * dpi, 96);
    lemma_fundamental_div_mod(b * dpi, 96);
}

/// Settings that let the bar float: it was asked to, or it was to be where it
/// was dragged and never was dragged.
pub open spec fn is_floating(settings: Settings) -> bool {
    settings.position == Position::Centre || (settings.position == Position::Custom
        && settings.custom_x == 0 && settings.custom_y == 0)
}

/// A floating bar that fits its display has equal room on both sides, within a
/// pixel, so it lies within the sides of the work area. Below it an eighth of
/// the area's height is left, and where the rest of the height has room for it
/// the bar lies within the area.
pub proof fn law_a_floating_bar_is_centred_on_its_display(
    settings: Settings,
    dpi: int,
    work: Rect,
    tray_point: Option<(i32, i32)>,
)
    requires
        is_floating(settings),
        is_resolution(dpi),
        work.left <= work.right - window_size(settings, dpi).0,
        work.top <= work.bottom,
    ensures
        ({
            let (x, y) = origin(settings, dpi, work, tray_point);
            let (w, h) = window_size(settings, dpi);
            let (left, right) = (x - work.left, work.right - (x + w));
            let below = work.bottom - (y + h);
            &&& -1 <= left - right <= 1
            &&& left >= 0 && right >= 0
            &&& 8 * below <= work.bottom - work.top < 8 * (below + 1)
            &&& y + h <= work.bottom
            &&& h + below <= work.bottom - work.top ==> work.top <= y
        }),
{
    lemma_lengths(settings, dpi);
}

/// A docked bar stands with its middle over the tray icon, unless it would
/// leave the work area on that side: then it touches the side. With no icon to
/// stand over it is in the corner.
pub proof fn law_a_docked_bar_stands_over_the_icon(
    settings: Settings,
    dpi: int,
    work: Rect,
    tray_point: Option<(i32, i32)>,
)
    requires
        settings.position == Position::AboveTray,
        is_resolution(dpi),
        work.left <= work.right - window_size(settings, dpi).0,
    ensures
        ({
            let (x, y) = origin(settings, dpi, work, tray_point);
            let (w, h) = window_size(settings, dpi);
            &&& y + h == work.bottom
            &&& match tray_point {
                Some(p) => {
                    ||| 0 <= (2 * x + w) - 2 * p.0 <= 1
                    ||| x == work.left && 2 * x + w > 2 * p.0
                    ||| x + w == work.right && 2 * x + w < 2 * p.0
                },
                None => x + w == work.right,
            }
        }),
{
    lemma_lengths(settings, dpi);
}

/// A bar that was dragged too far off its display is pulled back only as far
/// as it takes to have 48 pixels of it in view, and one that was dragged too
/// far in one direction keeps its place in the other.
pub proof fn law_a_bar_out_of_reach_is_pulled_to_the_edge(
    settings: Settings,
    dpi: int,
    work: Rect,
    tray_point: Option<(i32, i32)>,
)
    requires
        is_resolution(dpi),
        settings.position == Position::Custom,
        settings.custom_x != 0 || settings.custom_y != 0,
        2 * pixels(48, dpi) <= work.right - work.left,
        2 * pixels(48, dpi) <= work.bottom - work.top,
    ensures
        ({
            let (x, y) = origin(settings, dpi, work, tray_point);
            let (w, h) = window_size(settings, dpi);
            let (cx, cy) = (settings.custom_x as int, settings.custom_y as int);
            let seen = pixels(48, dpi);
            &&& 96 * seen <= 48 * dpi < 96 * (seen + 1)
            &&& cx + w < work.left + seen ==> x + w == work.left + seen
            &&& cx > work.right - seen ==> x == work.right - seen
            &&& work.left + seen <= cx + w && cx <= work.right - seen ==> x == cx
            &&& cy + h < work.top + seen ==> y + h == work.top + seen
            &&& cy > work.bottom - seen ==> y == work.bottom - seen
            &&& work.top + seen <= cy + h && cy <= work.bottom - seen ==> y == cy
        }),
{
    lemma_lengths(settings, dpi);
}

/// The bar goes with its display: moving the work area, the icon and the spot
/// that the bar was dragged to by some amount moves the bar by the same
/// amount.
pub proof fn law_the_bar_moves_with_its_display(
    settings: Settings,
    moved: Settings,
    dpi: int,
    work: Rect,
    moved_work: Rect,
    tray_point: Option<(i32, i32)>,
    moved_point: Option<(i32, i32)>,
    by: (int, int),
)
    requires
        moved == (Settings { custom_x: moved.custom_x, custom_y: moved.custom_y, ..settings }),
        is_floating(settings) == is_floating(moved),
        !is_floating(settings) ==> moved.custom_x == settings.custom_x + by.0 && moved.custom_y
            == settings.custom_y + by.1,
        moved_work.left == work.left + by.0,
        moved_work.right == work.right + by.0,
        moved_work.top == work.top + by.1,
        moved_work.bottom == work.bottom + by.1,
        match (tray_point, moved_point) {
            (Some(p), Some(q)) => q.0 == p.0 + by.0 && q.1 == p.1 + by.1,
            (None, None) => true,
            _ => false,
        },
    ensures
        origin(moved, dpi, moved_work, moved_point).0 == origin(settings, dpi, work, tray_point).0
            + by.0,
        origin(moved, dpi, moved_work, moved_point).1 == origin(settings, dpi, work, tray_point).1
            + by.1,
{
}

// ---------------------------------------------------------------------------
// Staying out of the way
// ---------------------------------------------------------------------------

/// The notification states in which nothing should pop up: a full-screen
/// Direct3D program, and presentation mode.
pub const RUNNING_FULL_SCREEN: i32 = 3;

pub const PRESENTATION_MODE: i32 = 4;

/// Whether the code units spell one of the desktop's window classes.
pub open spec fn names_desktop(class: Seq<u16>) -> bool {
    decode(class) == "WorkerW"@ || decode(class) == "Progman"@
}

/// The desktop is a monitor-sized window too: clicking the wallpaper focuses
/// `WorkerW` (or `Progman`), which must not count as a fullscreen app.
pub fn is_desktop(class: &[u16]) -> (r: bool)
    ensures
        r == names_desktop(class@),
{
    let name = from_wide(class);
    same(name.as_slice(), "WorkerW") || same(name.as_slice(), "Progman")
}

/// Whether `a` reaches to all edges of `b`, or beyond.
pub open spec fn covers_spec(a: Rect, b: Rect) -> bool {
    a.left <= b.left && a.top <= b.top && a.right >= b.right && a.bottom >= b.bottom
}

pub fn covers(a: Rect, b: Rect) -> (r: bool)
    ensures
        r == covers_spec(a, b),
{
    a.left <= b.left && a.top <= b.top && a.right >= b.right && a.bottom >= b.bottom
}

/// The active window, as far as it matters here.
pub struct ActiveWindow {
    /// It is the shell's own.
    pub shell: bool,
    pub class: Vec<u16>,
    /// Its place, where the system tells it.
    pub rect: Option<Rect>,
    /// The display that holds it.
    pub display: Rect,
}

/// Whether a game or presentation is filling a screen.
pub open spec fn fills_screen(state: Option<i32>, window: Option<ActiveWindow>) -> bool {
    state == Some(RUNNING_FULL_SCREEN) || state == Some(PRESENTATION_MODE) || match window {
        Some(w) => !w.shell && !names_desktop(w.class@) && match w.rect {
            Some(rect) => covers_spec(rect, w.display),
            None => false,
        },
        None => false,
    }
}

/// True when a game or presentation is filling a screen, so a topmost
/// overlay would intrude. `state` is the notification state, where it is
/// known.
pub fn fullscreen_foreground(state: Option<i32>, window: &Option<ActiveWindow>) -> (r: bool)
    ensures
        r == fills_screen(state, *window),
{
    if let Some(s) = state {
        if s == RUNNING_FULL_SCREEN || s == PRESENTATION_MODE {
            return true;
        }
    }
    // Borderless-fullscreen windows don't set that state, so also check
    // whether the active window covers its entire monitor.
    match window {
        Some(w) => {
            if w.shell || is_desktop(w.class.as_slice()) {
                return false;
            }
            match w.rect {
                Some(rect) => covers(rect, w.display),
                None => false,
            }
        },
        None => false,
    }
}

/// A window counts as filling the screen exactly if no point of its display
/// lies outside it, unless it is the shell's own or the desktop. So a window
/// that leaves a row or a column of the display free does not.
pub proof fn law_a_window_fills_the_screen_if_it_leaves_nothing_free(w: ActiveWindow, rect: Rect)
    requires
        w.rect == Some(rect),
        !w.shell,
        !names_desktop(w.class@),
        w.display.left < w.display.right && w.display.top < w.display.bottom,
    ensures
        fills_screen(None, Some(w)) <==> forall|x: int, y: int|
            lies_in(w.display, x, y) ==> #[trigger] lies_in(rect, x, y),
{
    let d = w.display;
    if !covers_spec(rect, d) {
        assert(lies_in(d, d.left as int, d.top as int));
        assert(lies_in(d, d.right - 1, d.bottom - 1));
        assert(!lies_in(rect, d.left as int, d.top as int) || !lies_in(
            rect,
            d.right - 1,
            d.bottom - 1,
        ));
    }
}

pub open spec fn lies_in(r: Rect, x: int, y: int) -> bool {
    r.left <= x < r.right && r.top <= y < r.bottom
}

/// The desktop and the shell's own window never count, nor does a missing
/// window; a full-screen game or a presentation always does.
pub proof fn law_the_desktop_does_not_fill_the_screen(w: ActiveWindow, other: Option<ActiveWindow>)
    ensures
        w.shell || names_desktop(w.class@) ==> !fills_screen(None, Some(w)),
        !fills_screen(None, None),
        fills_screen(Some(3), other),
        fills_screen(Some(4), other),
        fills_screen(Some(1), other) == fills_screen(None, other),
{
}

} // verus!
