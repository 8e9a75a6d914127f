//! What the settings window looks like: the miniature of the bar, switches,
//! segments and buttons.

use crate::card_laws::{captions, lemma_captions_joined};
use crate::config::{Orientation, Settings};
use crate::draw::{hundredths, points, preview_shapes};
use crate::frame::{lemma_hundredths, lemma_two};
use crate::frame_laws::{
    channels_of, fills, gradients, is_fine_resolution, lemma_channels, lemma_filled, lemma_lists,
    lemma_near_pixels, lemma_near_points, lemma_near_twice, lemma_none_over, length_of, near,
};
use crate::gfx::{corner, gradient_area, outline, Caption, PathPart, RoundRect, Shape, SQUARE, TWO};
use crate::osd::Rect;
use crate::precision::{
    fine, lemma_minus_error, lemma_over_error, lemma_plus_error, lemma_times_error, lemma_units,
    unit,
};
use crate::rounding::{
    lemma_one_scaled, lemma_over_keeps_order, lemma_pow2_big, lemma_rank_order, lemma_share,
    lemma_sign, lemma_signed_exact,
};
use crate::settings_paint::{
    button_words, difference, draw_toggle_shapes, knob_place, miniature, segment_words, toggle_word,
};
use crate::single::{abs, of_bits, single_of, zero, Single, HALF, ONE};
use vstd::arithmetic::power2::{
    lemma2_to64, lemma_pow2_adds, lemma_pow2_pos, lemma_pow2_unfold, pow2,
};
use vstd::prelude::*;

verus! {

/// The miniature shows the level as the bar does: a track, and in it the level
/// with the percentage's part of the track's length, within a millionth. It
/// starts where the track does, at the bottom or on the left. Nothing is
/// filled for 0 percent, and everything for 100.
pub proof fn law_the_miniature_shows_the_level(
    settings: Settings,
    accent: (u8, u8, u8),
    percent: i32,
    muted: bool,
    area: (Single, Single, Single, Single),
)
    requires
        0 <= percent <= 100,
        area.0.is_finite() && area.1.is_finite() && area.2.is_finite() && area.3.is_finite(),
        0 <= area.0.scaled() <= 30_000 * pow2(149),
        0 <= area.1.scaled() <= 30_000 * pow2(149),
        80 * pow2(149) <= length_of_area(settings, area) <= 30_000 * pow2(149),
    ensures
        ({
            let one = pow2(149) as int;
            let upright = settings.orientation == Orientation::Vertical;
            let shapes = preview_shapes(settings, accent, percent, muted, area);
            let tracks = fills(shapes, 0x26FF_FFFF);
            let levels = gradients(shapes).skip(1);
            let (track, level) = (tracks[0], levels[0].0);
            let (whole, filled) = (
                length_of(track, upright).scaled(),
                length_of(level, upright).scaled(),
            );
            &&& tracks.len() == 1 && levels.len() == 1
            &&& 10 * abs(
                whole - (length_of_area(settings, area) - if upright {
                    40 * one
                } else {
                    76 * one
                }),
            ) <= one
            &&& 1_000_000 * abs(100 * (filled * one) - whole * (percent * one)) <= 100 * (whole
                * one)
            &&& percent == 0 ==> filled == 0
            &&& percent == 100 ==> filled == whole
            &&& level.x == track.x && level.r == track.r
            &&& upright ==> level.w == track.w && 10 * abs(
                (level.y.scaled() + level.h.scaled()) - (track.y.scaled() + track.h.scaled()),
            ) <= one
            &&& !upright ==> level.y == track.y && level.h == track.h
        }),
{
    let (u, e) = (unit(), fine());
    let (x, y, w, h) = area;
    lemma_units();
    lemma_miniature(settings, accent, percent, muted, area);
    lemma_signed_exact(percent as int);
    lemma_signed_exact(40);
    lemma_signed_exact(76);
    lemma_signed_exact(14);
    let d = single_of(percent as int);
    assert(0 <= percent * u <= 100 * u) by (nonlinear_arith)
        requires
            0 <= percent <= 100,
            u > 0,
    ;
    if settings.orientation == Orientation::Vertical {
        lemma_minus_error(h, single_of(40));
        let t = h.minus_spec(single_of(40));
        lemma_filled(t, d);
        let p = d.over_spec(single_of(100)).clamped(zero(false), of_bits(ONE));
        let f = t.times_spec(p);
        lemma_plus_error(y, single_of(14));
        let top = y.plus_spec(single_of(14));
        lemma_plus_error(top, t);
        lemma_minus_error(top.plus_spec(t), f);
    } else {
        lemma_minus_error(w, single_of(76));
        lemma_filled(w.minus_spec(single_of(76)), d);
    }
    if percent == 0 {
        assert(percent * u == 0) by (nonlinear_arith)
            requires
                percent == 0,
        ;
    }
}

/// The side of the miniature along which its level runs.
pub open spec fn length_of_area(
    settings: Settings,
    area: (Single, Single, Single, Single),
) -> int {
    if settings.orientation == Orientation::Vertical {
        area.3.scaled()
    } else {
        area.2.scaled()
    }
}

/// The track and the level of the miniature.
proof fn lemma_miniature(
    settings: Settings,
    accent: (u8, u8, u8),
    percent: i32,
    muted: bool,
    area: (Single, Single, Single, Single),
)
    ensures
        ({
            let shapes = preview_shapes(settings, accent, percent, muted, area);
            let (x, y, w, h) = area;
            let p = single_of(percent as int).over_spec(single_of(100)).clamped(
                zero(false),
                of_bits(ONE),
            );
            let tracks = fills(shapes, 0x26FF_FFFF);
            let levels = gradients(shapes).skip(1);
            let (track, level) = (tracks[0], levels[0].0);
            &&& tracks.len() == 1
            &&& levels.len() == 1
            &&& settings.orientation == Orientation::Vertical ==> {
                let t = h.minus_spec(single_of(40));
                let top = y.plus_spec(single_of(14));
                &&& track.h == t && track.y == top
                &&& level.h == t.times_spec(p)
                &&& level == (RoundRect {
                    y: top.plus_spec(t).minus_spec(t.times_spec(p)),
                    h: t.times_spec(p),
                    ..track
                })
            }
            &&& settings.orientation != Orientation::Vertical ==> {
                let t = w.minus_spec(single_of(76));
                &&& track.w == t
                &&& level == (RoundRect { w: t.times_spec(p), ..track })
            }
        }),
{
    lemma_lists(0x26FF_FFFF);
    let shapes = preview_shapes(settings, accent, percent, muted, area);
    let (f, g) = (fills(shapes, 0x26FF_FFFF), gradients(shapes));
    assert(f.len() == 1);
    assert(g.len() == 2);
    assert(g.skip(1)[0] == g[1]);
}

/// The ellipses of a drawing: their left edges and their widths.
pub open spec fn knobs(s: Seq<Shape>) -> Seq<(Single, Single)>
    decreases s.len(),
{
    if s.len() == 0 {
        Seq::empty()
    } else {
        (match s[0] {
            Shape::Ellipse { x, y, w, h, color } => seq![(x, w)],
            _ => Seq::empty(),
        }) + knobs(s.drop_first())
    }
}

proof fn lemma_knobs_joined(a: Seq<Shape>, b: Seq<Shape>)
    ensures
        knobs(a + b) == knobs(a) + knobs(b),
    decreases a.len(),
{
    if a.len() == 0 {
        assert(a + b == b);
        assert(knobs(a) + knobs(b) == knobs(b));
    } else {
        lemma_knobs_joined(a.drop_first(), b);
        assert((a + b).drop_first() == a.drop_first() + b);
        assert(knobs(a + b) =~= knobs(a) + knobs(b));
    }
}

proof fn lemma_knob(rc: Rect, on: bool, accent: (u8, u8, u8), focus: bool, dpi: i32)
    ensures
        ({
            let w = difference(rc.right, rc.left);
            let track_h = difference(rc.bottom, rc.top).times_spec(hundredths(78));
            let inset = points(3, dpi as int);
            let knob = track_h.minus_spec(inset.times_spec(single_of(2)));
            knobs(draw_toggle_shapes(rc, on, accent, focus, dpi)) == seq![
                (knob_place(on, w, knob, inset), knob),
            ]
        }),
{
    assert forall|a: Seq<Shape>, b: Seq<Shape>| #[trigger] knobs(a + b) == knobs(a) + knobs(b) by {
        lemma_knobs_joined(a, b);
    }
    assert forall|x: Shape| #[trigger] knobs(seq![x]) == (match x {
        Shape::Ellipse { x, y, w, h, color } => seq![(x, w)],
        _ => Seq::empty(),
    }) by {
        assert(seq![x].drop_first() == Seq::<Shape>::empty());
        assert(knobs(seq![x].drop_first()) == Seq::<(Single, Single)>::empty());
        assert(knobs(seq![x]) =~= (match x {
            Shape::Ellipse { x, y, w, h, color } => seq![(x, w)],
            _ => Seq::empty(),
        }));
    }
    let k = knobs(draw_toggle_shapes(rc, on, accent, focus, dpi));
    assert(k.len() == 1);
    assert(k =~= seq![k[0]]);
}

/// A switch that is on has its knob at the right end, one that is off at the
/// left: the middles of the two lie as far from one end as from the other,
/// within a tenth of a pixel, and not further from it than half the switch's
/// height.
pub proof fn law_the_knob_tells_on_from_off(
    rc: Rect,
    accent: (u8, u8, u8),
    focus: bool,
    dpi: i32,
)
    requires
        is_fine_resolution(dpi as int),
        0 <= rc.bottom - rc.top <= 20_000,
        0 <= rc.right - rc.left <= 20_000,
    ensures
        ({
            let one = pow2(149) as int;
            let on = knobs(draw_toggle_shapes(rc, true, accent, focus, dpi))[0];
            let off = knobs(draw_toggle_shapes(rc, false, accent, focus, dpi))[0];
            let (right, left) = (
                2 * on.0.scaled() + on.1.scaled(),
                2 * off.0.scaled() + off.1.scaled(),
            );
            let (w, h) = (rc.right - rc.left, rc.bottom - rc.top);
            &&& on.1 == off.1
            &&& 10 * abs(left + right - (2 * w) * one) <= 2 * one
            &&& 10 * left <= (10 * h) * one + 2 * one
            &&& 10 * right >= (20 * w - 10 * h) * one - 4 * one
        }),
{
    lemma_knob(rc, true, accent, focus, dpi);
    lemma_knob(rc, false, accent, focus, dpi);
    lemma_knob_places(rc.right - rc.left, rc.bottom - rc.top, dpi as int);
}

/// The places of the knob, and how far they are from exact.
proof fn lemma_knob_places(w: int, h: int, d: int)
    requires
        is_fine_resolution(d),
        0 <= h <= 20_000,
        0 <= w <= 20_000,
    ensures
        ({
            let u = unit();
            let track = single_of(h).times_spec(hundredths(78));
            let inset = points(3, d);
            let knob = track.minus_spec(inset.times_spec(single_of(2)));
            let place = single_of(w).minus_spec(knob).minus_spec(inset);
            let (right, left) = (
                2 * place.scaled() + knob.scaled(),
                2 * inset.scaled() + knob.scaled(),
            );
            &&& 10 * abs(left + right - (2 * w) * u) <= 2 * u
            &&& 10 * left <= (10 * h) * u + 2 * u
            &&& 10 * right >= (20 * w - 10 * h) * u - 4 * u
        }),
{
    let u = unit();
    lemma_units();
    lemma_signed_exact(w);
    lemma_signed_exact(h);
    lemma_hundredths(78);
    let (wide, tall) = (single_of(w), single_of(h));
    lemma_share(tall, hundredths(78));
    let track = tall.times_spec(hundredths(78));
    lemma_rank_order(track, tall);
    lemma_sign(zero(false));
    lemma_rank_order(zero(false), track);
    lemma_rank_order(zero(false), tall);
    lemma_near_points(3, d);
    let inset = points(3, d);
    lemma_near_pixels(inset, 24 * d, 1);
    lemma_near_twice(inset, 24 * d, 1);
    let twice = inset.times_spec(single_of(2));
    lemma_near_pixels(twice, 48 * d, 3);
    assert(0 <= (24 * d) * u <= 230_400 * u && (48 * d) * u == 2 * ((24 * d) * u) && 0 <= h * u
        <= 20_000 * u && 0 <= w * u <= 20_000 * u) by (nonlinear_arith)
        requires
            0 <= d <= 9600,
            0 <= h <= 20_000,
            0 <= w <= 20_000,
            u > 0,
    ;
    assert((2 * w) * u == 2 * (w * u) && (10 * h) * u == 10 * (h * u) && (20 * w - 10 * h) * u
        == 20 * (w * u) - 10 * (h * u)) by (nonlinear_arith);
    lemma_minus_error(track, twice);
    let knob = track.minus_spec(twice);
    assert(abs(knob.scaled() - (track.scaled() - 2 * inset.scaled())) * 25 <= u);
    lemma_minus_error(wide, knob);
    let rest = wide.minus_spec(knob);
    assert(abs(rest.scaled() - (w * u - knob.scaled())) * 100 <= u);
    lemma_minus_error(rest, inset);
    let place = rest.minus_spec(inset);
    assert(abs(place.scaled() - (rest.scaled() - inset.scaled())) * 100 <= u);
}

/// The chosen segment, a switch that is on, and the button that saves are in
/// the accent; what is not chosen or not on is in the colour of the fields,
/// whatever the accent.
pub proof fn law_choices_are_shown_in_the_accent(accent: (u8, u8, u8))
    ensures
        channels_of(segment_words(true, accent).0) == (
            255int,
            accent.0 as int,
            accent.1 as int,
            accent.2 as int,
        ),
        channels_of(toggle_word(true, accent)) == (
            255int,
            accent.0 as int,
            accent.1 as int,
            accent.2 as int,
        ),
        channels_of(button_words(true, false, accent).0) == (
            255int,
            accent.0 as int,
            accent.1 as int,
            accent.2 as int,
        ),
        channels_of(segment_words(false, accent).0) == (255int, 44int, 44int, 50int),
        channels_of(toggle_word(false, accent)) == (255int, 44int, 44int, 50int),
        channels_of(button_words(false, false, accent).0) == (255int, 44int, 44int, 50int),
        button_words(false, true, accent).0 != button_words(false, false, accent).0,
{
    lemma_channels(255, accent.0, accent.1, accent.2);
    lemma_channels(255, 44, 44, 50);
    lemma_channels(255, 58, 58, 66);
}

/// The miniature stands in the middle of its panel, within half a pixel.
pub proof fn law_the_miniature_is_centred(settings: Settings, pr: Rect, dpi: int)
    requires
        is_fine_resolution(dpi),
        0 <= pr.left <= pr.right <= 30_000,
        0 <= pr.top <= pr.bottom <= 30_000,
    ensures
        ({
            let one = pow2(149) as int;
            let (x, y, w, h) = miniature(settings, pr, dpi);
            &&& 2 * abs(2 * x.scaled() + w.scaled() - (pr.left + pr.right) * one) <= one
            &&& 2 * abs(2 * y.scaled() + h.scaled() - (pr.top + pr.bottom) * one) <= one
        }),
{
    lemma_near_points(54, dpi);
    lemma_near_points(104, dpi);
    lemma_near_points(252, dpi);
    lemma_near_points(62, dpi);
    if settings.orientation == Orientation::Vertical {
        lemma_centred(pr.left + pr.right, points(54, dpi), 432 * dpi);
        lemma_centred(pr.top + pr.bottom, points(104, dpi), 832 * dpi);
    } else {
        lemma_centred(pr.left + pr.right, points(252, dpi), 2016 * dpi);
        lemma_centred(pr.top + pr.bottom, points(62, dpi), 496 * dpi);
    }
}

/// Half of a sum less half of a length.
proof fn lemma_centred(n: int, w: Single, m: int)
    requires
        0 <= n <= 60_000,
        near(w, m, 1),
        0 <= m <= 0x1C0_0000,
    ensures
        ({
            let x = single_of(n).over_spec(single_of(2)).minus_spec(w.over_spec(single_of(2)));
            2 * abs(2 * x.scaled() + w.scaled() - n * unit()) <= unit()
        }),
{
    let (u, e) = (unit(), fine());
    lemma_units();
    lemma_signed_exact(n);
    lemma_signed_exact(2);
    lemma_sign(single_of(2));
    lemma_near_pixels(w, m, 1);
    assert(0 <= m * u <= 0x1C0_0000 * u && 0 <= n * u <= 60_000 * u) by (nonlinear_arith)
        requires
            0 <= m <= 0x1C0_0000,
            0 <= n <= 60_000,
            u > 0,
    ;
    lemma_halved(single_of(n));
    lemma_halved(w);
    let (a, b) = (single_of(n).over_spec(single_of(2)), w.over_spec(single_of(2)));
    lemma_minus_error(a, b);
}

proof fn lemma_halved(x: Single)
    requires
        x.is_finite(),
        abs(x.scaled()) <= 100_000 * unit(),
    ensures
        x.over_spec(single_of(2)).is_finite(),
        abs(2 * x.over_spec(single_of(2)).scaled() - x.scaled()) <= 100_001 * fine(),
{
    lemma_signed_exact(2);
    lemma_halved_by(x, single_of(2));
}

proof fn lemma_halved_by(x: Single, two: Single)
    requires
        x.is_finite(),
        abs(x.scaled()) <= 100_000 * unit(),
        two.is_finite(),
        two.scaled() == 2 * unit(),
        !two.is_negative(),
    ensures
        x.over_spec(two).is_finite(),
        abs(2 * x.over_spec(two).scaled() - x.scaled()) <= 100_001 * fine(),
{
    let (u, e) = (unit(), fine());
    lemma_units();
    lemma_sign(two);
    let v = x.scaled();
    assert(abs(v * u) <= 100_000 * (u * u) && 100_000 * (u * u) <= 0x100_0000_0000 * u * (2 * u))
        by (nonlinear_arith)
        requires
            abs(v) <= 100_000 * u,
            u > 0,
    ;
    lemma_over_error(x, two);
    let r = x.over_spec(two).scaled();
    assert(r * (2 * u) - v * u == (2 * r - v) * u) by (nonlinear_arith);
    let g = 2 * r - v;
    assert(0x80_0000 * abs(g * u) <= 100_000 * (u * u) + 0x80_0000 * (2 * u));
    assert(abs(g) <= 100_001 * e) by (nonlinear_arith)
        requires
            0x80_0000 * abs(g * u) <= 100_000 * (u * u) + 0x80_0000 * (2 * u),
            u == 0x80_0000 * e,
            e >= 2,
    ;
}

/// The miniature says the percentage that it shows, and nothing else.
pub proof fn law_the_miniature_says_the_percentage(
    settings: Settings,
    accent: (u8, u8, u8),
    percent: i32,
    muted: bool,
    area: (Single, Single, Single, Single),
)
    ensures
        ({
            let all = captions(preview_shapes(settings, accent, percent, muted, area));
            all.len() == 1 && all[0].0 == Caption::Percent(percent)
        }),
{
    lemma_captions_joined();
    let all = captions(preview_shapes(settings, accent, percent, muted, area));
    assert(all.len() == 1);
}

// ---------------------------------------------------------------------------
// Outlines
// ---------------------------------------------------------------------------

/// A rectangle of ordinary size.
pub open spec fn is_plain(area: RoundRect) -> bool {
    let most = 30_000 * pow2(149);
    &&& area.x.is_finite() && abs(area.x.scaled()) <= most
    &&& area.y.is_finite() && abs(area.y.scaled()) <= most
    &&& area.w.is_finite() && 0 <= area.w.scaled() <= most
    &&& area.h.is_finite() && 0 <= area.h.scaled() <= most
    &&& area.r.is_finite() && 0 <= area.r.scaled() <= most
}

/// The corners of a rectangle are rounded as asked for, but never more than
/// half of its sides: the radius is the least of the three.
pub proof fn law_corners_fit_their_rectangle(area: RoundRect)
    requires
        is_plain(area),
    ensures
        ({
            let one = pow2(149) as int;
            let c = corner(area).scaled();
            &&& corner(area).is_finite()
            &&& 0 <= c <= area.r.scaled()
            &&& 20 * c <= 10 * area.w.scaled() + one
            &&& 20 * c <= 10 * area.h.scaled() + one
            &&& c == area.r.scaled() || 10 * abs(2 * c - area.w.scaled()) <= one || 10 * abs(
                2 * c - area.h.scaled(),
            ) <= one
        }),
{
    lemma_units();
    lemma_two();
    let (two, none) = (of_bits(TWO), zero(false));
    lemma_sign(none);
    lemma_halved_by(area.w, two);
    lemma_halved_by(area.h, two);
    let (a, b) = (area.w.over_spec(two), area.h.over_spec(two));
    lemma_not_below_zero(area.w, two);
    lemma_not_below_zero(area.h, two);
    let s = area.r.smaller(a);
    lemma_rank_order(a, area.r);
    lemma_rank_order(b, s);
    lemma_rank_order(s.smaller(b), none);
    lemma_sign(area.r);
}

proof fn lemma_not_below_zero(x: Single, two: Single)
    requires
        x.is_finite(),
        x.scaled() >= 0,
        two.is_finite(),
        two.rank() > 0,
    ensures
        x.over_spec(two).scaled() >= 0 || !x.over_spec(two).is_finite(),
{
    lemma_sign(zero(false));
    lemma_rank_order(zero(false), x);
    lemma_over_keeps_order(zero(false), x, two);
    lemma_none_over(two);
    lemma_sign(x.over_spec(two));
}

/// The outline of a rectangle runs along its edges. With round corners it has
/// a quarter of a circle in each of them, in order around the rectangle and
/// each turned its own way, that touches the two edges, within a fifth of a
/// pixel. With corners below a twentieth of a pixel it has three straight
/// lines, from corner to corner.
pub proof fn law_outlines_run_along_the_edges(area: RoundRect)
    requires
        is_plain(area),
    ensures
        ({
            let one = pow2(149) as int;
            let c = corner(area).scaled();
            let path = outline(area);
            let (left, top) = (area.x.scaled(), area.y.scaled());
            let (right, bottom) = (left + area.w.scaled(), top + area.h.scaled());
            &&& 100 * c >= 6 * one ==> {
                &&& path.len() == 4
                &&& is_quarter(path[0], left, top, 2 * c, false, false, 2)
                &&& is_quarter(path[1], right, top, 2 * c, true, false, 3)
                &&& is_quarter(path[2], right, bottom, 2 * c, true, true, 0)
                &&& is_quarter(path[3], left, bottom, 2 * c, false, true, 1)
            }
            &&& 100 * c <= 4 * one ==> {
                &&& path.len() == 3
                &&& is_edge(path[0], left, top, right, top)
                &&& is_edge(path[1], right, top, right, bottom)
                &&& is_edge(path[2], right, bottom, left, bottom)
            }
        }),
{
    let u = unit();
    lemma_units();
    law_corners_fit_their_rectangle(area);
    lemma_square();
    let c = corner(area);
    lemma_rank_order(c, of_bits(SQUARE));
    lemma_plus_error(area.x, area.w);
    lemma_plus_error(area.y, area.h);
    if 100 * c.scaled() >= 6 * u {
        let d = c.times_spec(of_bits(TWO));
        lemma_diameter(c);
        lemma_far_end(area.x, area.w, d);
        lemma_far_end(area.y, area.h, d);
    }
}

proof fn lemma_square()
    ensures
        of_bits(SQUARE).is_finite(),
        4 * unit() < 100 * of_bits(SQUARE).scaled() < 6 * unit(),
{
    let square = of_bits(SQUARE);
    lemma_units();
    assert(square.step() == 121 && square.significand() == 0xCC_CCCD);
    lemma_pow2_big();
    lemma2_to64();
    lemma_pow2_adds(28, 121);
    lemma_pow2_pos(121);
}

proof fn lemma_diameter(c: Single)
    requires
        c.is_finite(),
        0 <= c.scaled() <= 30_000 * unit(),
    ensures
        ({
            let d = c.times_spec(of_bits(TWO));
            &&& d.is_finite()
            &&& abs(d.scaled() - 2 * c.scaled()) <= 60_001 * fine()
        }),
{
    let (u, e) = (unit(), fine());
    lemma_units();
    lemma_two();
    let (v, two) = (c.scaled(), of_bits(TWO));
    assert(abs(v * (2 * u)) == 2 * (v * u) && 2 * (v * u) <= 60_000 * (u * u) && 60_000 * (u * u)
        <= 0x100_0000_0000 * u * u) by (nonlinear_arith)
        requires
            0 <= v <= 30_000 * u,
            u > 0,
    ;
    lemma_times_error(c, two);
    let w = c.times_spec(two).scaled();
    assert(w * u - v * (2 * u) == (w - 2 * v) * u) by (nonlinear_arith);
    let g = w - 2 * v;
    assert(0x80_0000 * abs(g * u) <= 60_000 * (u * u) + 0x80_0000 * u);
    assert(abs(g) <= 60_001 * e) by (nonlinear_arith)
        requires
            0x80_0000 * abs(g * u) <= 60_000 * (u * u) + 0x80_0000 * u,
            u == 0x80_0000 * e,
            e >= 1,
    ;
}

/// A length laid off backwards from the end of another.
proof fn lemma_far_end(x: Single, w: Single, d: Single)
    requires
        x.is_finite() && w.is_finite() && d.is_finite(),
        abs(x.scaled()) <= 30_000 * unit(),
        0 <= w.scaled() <= 30_000 * unit(),
        abs(d.scaled()) <= 70_000 * unit(),
    ensures
        10 * abs(
            x.plus_spec(w).minus_spec(d).scaled() + d.scaled() - (x.scaled() + w.scaled()),
        ) <= unit(),
{
    lemma_units();
    lemma_plus_error(x, w);
    lemma_minus_error(x.plus_spec(w), d);
}

/// A quarter of a circle of the given diameter whose box touches the lines `x`
/// and `y`, lying before them or behind them.
pub open spec fn is_quarter(
    part: PathPart,
    x: int,
    y: int,
    d: int,
    before_x: bool,
    before_y: bool,
    turn: int,
) -> bool {
    let one = pow2(149) as int;
    match part {
        PathPart::Quarter { x: px, y: py, d: pd, start } => {
            &&& start == turn
            &&& 5 * abs(pd.scaled() - d) <= one
            &&& 5 * abs(px.scaled() + length_if(before_x, pd) - x) <= one
            &&& 5 * abs(py.scaled() + length_if(before_y, pd) - y) <= one
        },
        _ => false,
    }
}

/// A length that counts only on a condition.
pub open spec fn length_if(counts: bool, d: Single) -> int {
    if counts {
        d.scaled()
    } else {
        0
    }
}

/// A line from one point to another.
pub open spec fn is_edge(part: PathPart, x: int, y: int, to_x: int, to_y: int) -> bool {
    let one = pow2(149) as int;
    match part {
        PathPart::Line { x1, y1, x2, y2 } => {
            &&& 5 * abs(x1.scaled() - x) <= one
            &&& 5 * abs(y1.scaled() - y) <= one
            &&& 5 * abs(x2.scaled() - to_x) <= one
            &&& 5 * abs(y2.scaled() - to_y) <= one
        },
        _ => false,
    }
}

/// A gradient runs over the whole of its shape: its box begins half a pixel
/// above the shape and ends at least as much below it, within a hundredth, and
/// is as wide as the shape, or one pixel where that is narrower.
pub proof fn law_gradients_cover_their_shape(area: RoundRect)
    requires
        is_plain(area),
    ensures
        ({
            let one = pow2(149) as int;
            let g = gradient_area(area);
            &&& g.x == area.x
            &&& 100 * abs(2 * g.y.scaled() + one - 2 * area.y.scaled()) <= one
            &&& 100 * (2 * (g.y.scaled() + g.h.scaled()) - 2 * (area.y.scaled() + area.h.scaled()))
                >= 99 * one - one
            &&& g.w.scaled() >= one && (area.w.scaled() >= one ==> g.w.scaled() == area.w.scaled())
        }),
{
    lemma_units();
    lemma_one_scaled();
    let (half, one) = (of_bits(HALF), of_bits(ONE));
    assert(half.step() == 125 && half.significand() == 0x80_0000);
    lemma_pow2_big();
    lemma_pow2_adds(23, 125);
    lemma_pow2_unfold(149);
    lemma_rank_order(area.w, one);
    lemma_rank_order(area.h, one);
    lemma_minus_error(area.y, half);
    lemma_plus_error(area.h.larger(one), one);
}

} // verus!
