//! What else a frame shows: the tail that points at the tray icon, and the
//! captions; and how large and how opaque the bar is.

use crate::animation_laws::{lemma_hundredth, lemma_in_unit};
use crate::config::{Orientation, Position};
use crate::control_laws::lemma_zero_product;
use crate::draw::{
    draw_horizontal_shapes, draw_vertical_shapes, half_points, hundredths, maybe, points, BarView,
};
use crate::frame::{lemma_alpha, lemma_hundredths, Bar};
use crate::frame_laws::{
    channels_of, fills, gradients, is_fine_resolution, lemma_card_size, lemma_channels,
    lemma_lying_track, lemma_near_half, lemma_near_half_points, lemma_near_minus, lemma_near_pixels,
    lemma_near_plus, lemma_near_points, lemma_near_whole, lemma_near_zero, lemma_peak_fills,
    lemma_shapes_joined, lemma_upright_track, lying_face, near, upright_face,
};
use crate::gfx::{argb_word, Caption, Point, RoundRect, Shape, FULL};
use crate::motion::in_unit;
use crate::precision::{
    fine, lemma_minus_error, lemma_plus_error, lemma_times_error, lemma_to_int, lemma_units, unit,
};
use crate::rounding::{
    lemma_one_scaled, lemma_pow2_big, lemma_rank_order, lemma_share, lemma_sign, lemma_signed_exact,
    lemma_times_keeps_order,
};
use crate::scale::{lemma_times_commutes, lemma_whole_share};
use crate::single::{abs, of_bits, single_of, zero, Single, ONE};
use vstd::arithmetic::power2::{lemma_pow2_adds, pow2};
use vstd::prelude::*;

verus! {

/// The triangles of a drawing, by their corners.
pub open spec fn triangles(s: Seq<Shape>) -> Seq<(Point, Point, Point)>
    decreases s.len(),
{
    if s.len() == 0 {
        Seq::empty()
    } else {
        (match s[0] {
            Shape::Triangle { a, b, c, color } => seq![(a, b, c)],
            _ => Seq::empty(),
        }) + triangles(s.drop_first())
    }
}

/// The captions of a drawing: what each says, and where it starts and ends
/// from left to right and from top to bottom.
pub open spec fn captions(s: Seq<Shape>) -> Seq<(Caption, Single, Single, Single, Single)>
    decreases s.len(),
{
    if s.len() == 0 {
        Seq::empty()
    } else {
        (match s[0] {
            Shape::Text { what, x, y, w, h, size, color, align, bold } => seq![(what, x, y, w, h)],
            _ => Seq::empty(),
        }) + captions(s.drop_first())
    }
}

proof fn lemma_joined(a: Seq<Shape>, b: Seq<Shape>)
    ensures
        triangles(a + b) == triangles(a) + triangles(b),
        captions(a + b) == captions(a) + captions(b),
    decreases a.len(),
{
    if a.len() == 0 {
        assert(a + b == b);
        assert(triangles(a) + triangles(b) == triangles(b));
        assert(captions(a) + captions(b) == captions(b));
    } else {
        lemma_joined(a.drop_first(), b);
        assert((a + b).drop_first() == a.drop_first() + b);
        assert(triangles(a + b) =~= triangles(a) + triangles(b));
        assert(captions(a + b) =~= captions(a) + captions(b));
    }
}

/// How to read a list that is put together from others.
pub proof fn lemma_captions_joined()
    ensures
        forall|a: Seq<Shape>, b: Seq<Shape>| #[trigger]
            triangles(a + b) == triangles(a) + triangles(b),
        forall|a: Seq<Shape>, b: Seq<Shape>| #[trigger]
            captions(a + b) == captions(a) + captions(b),
        forall|x: Shape| #[trigger]
            triangles(seq![x]) == (match x {
                Shape::Triangle { a, b, c, color } => seq![(a, b, c)],
                _ => Seq::empty(),
            }),
        forall|x: Shape| #[trigger]
            captions(seq![x]) == (match x {
                Shape::Text { what, x, y, w, h, size, color, align, bold } => seq![
                    (what, x, y, w, h),
                ],
                _ => Seq::empty(),
            }),
        forall|t: bool, x: Shape| #[trigger]
            triangles(maybe(t, x)) == (match x {
                Shape::Triangle { a, b, c, color } if t => seq![(a, b, c)],
                _ => Seq::empty(),
            }),
        forall|t: bool, x: Shape| #[trigger]
            captions(maybe(t, x)) == (match x {
                Shape::Text { what, x, y, w, h, size, color, align, bold } if t => seq![
                    (what, x, y, w, h),
                ],
                _ => Seq::empty(),
            }),
        triangles(Seq::<Shape>::empty()) == Seq::<(Point, Point, Point)>::empty(),
        captions(Seq::<Shape>::empty()) == Seq::<
            (Caption, Single, Single, Single, Single),
        >::empty(),
{
    assert forall|a: Seq<Shape>, b: Seq<Shape>| #[trigger] triangles(a + b) == triangles(a)
        + triangles(b) by {
        lemma_joined(a, b);
    }
    assert forall|a: Seq<Shape>, b: Seq<Shape>| #[trigger] captions(a + b) == captions(a)
        + captions(b) by {
        lemma_joined(a, b);
    }
    assert forall|x: Shape| #[trigger] triangles(seq![x]) == (match x {
        Shape::Triangle { a, b, c, color } => seq![(a, b, c)],
        _ => Seq::empty(),
    }) by {
        assert(seq![x].drop_first() == Seq::<Shape>::empty());
        assert(triangles(seq![x].drop_first()) == Seq::<(Point, Point, Point)>::empty());
        assert(triangles(seq![x]) =~= (match x {
            Shape::Triangle { a, b, c, color } => seq![(a, b, c)],
            _ => Seq::empty(),
        }));
    }
    assert forall|x: Shape| #[trigger] captions(seq![x]) == (match x {
        Shape::Text { what, x, y, w, h, size, color, align, bold } => seq![(what, x, y, w, h)],
        _ => Seq::empty(),
    }) by {
        assert(seq![x].drop_first() == Seq::<Shape>::empty());
        assert(captions(seq![x].drop_first()) == Seq::<
            (Caption, Single, Single, Single, Single),
        >::empty());
        assert(captions(seq![x]) =~= (match x {
            Shape::Text { what, x, y, w, h, size, color, align, bold } => seq![(what, x, y, w, h)],
            _ => Seq::empty(),
        }));
    }
}

// ---------------------------------------------------------------------------
// The tail
// ---------------------------------------------------------------------------

/// The tail is the one triangle of a docked bar; a floating bar has none.
proof fn lemma_one_tail(bar: Bar)
    ensures
        triangles(bar.drawing()) == if bar.is_tail_drawn() {
            let bottom = bar.pad().plus_spec(bar.card_h());
            let half = points(18, bar.dpi as int).over_spec(single_of(2));
            seq![
                (
                    Point {
                        x: bar.tail_center().minus_spec(half),
                        y: bottom.minus_spec(single_of(1)),
                    },
                    Point {
                        x: bar.tail_center().plus_spec(half),
                        y: bottom.minus_spec(single_of(1)),
                    },
                    Point { x: bar.tail_center(), y: bottom.plus_spec(bar.tail_h()) },
                ),
            ]
        } else {
            Seq::empty()
        },
{
    lemma_captions_joined();
    let t = triangles(bar.drawing());
    assert(triangles(bar.face()).len() == 0);
    assert(triangles(bar.card()).len() == 0);
    assert(t =~= triangles(bar.tail()));
    assert(triangles(bar.tail()).len() == 1 ==> t =~= seq![t[0]]);
    assert(triangles(bar.tail()).len() == 0 ==> t =~= Seq::empty());
}

/// The straight part of the card's lower edge, in parts of 768 of a pixel.
proof fn lemma_tail_range(bar: Bar)
    requires
        bar.has_own_size(),
    ensures
        ({
            let d = bar.dpi as int;
            let r = if bar.is_vertical() {
                176 * d
            } else {
                128 * d
            };
            let w = 768 * bar.width - 160 * d;
            &&& near(bar.tail_range().0, 80 * d + r + 48 * d, 5)
            &&& near(bar.tail_range().1, 80 * d + w - r - 48 * d, 10)
        }),
{
    let d = bar.dpi as int;
    lemma_card_size(bar);
    lemma_near_points(22, d);
    lemma_near_points(16, d);
    lemma_near_points(6, d);
    let r = if bar.is_vertical() {
        176 * d
    } else {
        128 * d
    };
    let w = 768 * bar.width - 160 * d;
    let (pad, radius, room) = (bar.pad(), bar.radius(), points(6, d));
    lemma_near_plus(pad, 80 * d, 1, radius, r, 1);
    lemma_near_plus(pad.plus_spec(radius), 80 * d + r, 3, room, 48 * d, 1);
    lemma_near_plus(pad, 80 * d, 1, bar.card_w(), w, 4);
    let far = pad.plus_spec(bar.card_w());
    lemma_near_minus(far, 80 * d + w, 6, radius, r, 1);
    lemma_near_minus(far.minus_spec(radius), 80 * d + w - r, 8, room, 48 * d, 1);
}

/// A docked bar has a tail, and only a docked one has. Its tip stands under
/// the card, 9 points below it, and points at the tray icon: with the bar at
/// its resting place it is exactly at the icon's place, wherever that lies
/// along the straight part of the card's edge, and else at the nearer end of
/// that part, within two pixels. The tail is 18 points wide, and with no icon
/// to point at it is in the middle.
pub proof fn law_the_tail_points_at_the_icon(bar: Bar)
    requires
        bar.has_own_size(),
        bar.fits_tail(),
        match bar.tray_point {
            Some(p) => abs(p.0 - bar.end().0) < 0x100_0000,
            None => true,
        },
    ensures
        ({
            let one = pow2(149) as int;
            let docked = bar.view.settings.position == Position::AboveTray;
            let tails = triangles(bar.drawing());
            let (a, b, c) = tails[0];
            let d = bar.dpi as int;
            let (from, to) = if bar.view.settings.orientation == Orientation::Vertical {
                (38 * d, 48 * d)
            } else {
                (32 * d, 288 * d)
            };
            &&& tails.len() == if docked {
                1int
            } else {
                0
            }
            &&& docked ==> {
                &&& c.x.is_finite() && c.y.is_finite()
                &&& match bar.tray_point {
                    Some(p) => {
                        let local = p.0 - bar.end().0;
                        &&& from + 192 <= 96 * local <= to - 192 ==> c.x.scaled() == local * one
                        &&& 96 * local < from + 192 ==> abs(96 * c.x.scaled() - from * one) <= 384
                            * one
                        &&& 96 * local > to - 192 ==> abs(96 * c.x.scaled() - to * one) <= 384 * one
                    },
                    None => 2 * abs(2 * c.x.scaled() - bar.width * one) <= one,
                }
                &&& 10 * abs(
                    96 * c.y.scaled() - (96 * bar.height - 10 * d) * one,
                ) <= 96 * one
                &&& 10 * abs(96 * (b.x.scaled() - a.x.scaled()) - (18 * d) * one) <= 96 * one
                &&& 10 * abs(a.x.scaled() + b.x.scaled() - 2 * c.x.scaled()) <= one
                &&& a.y == b.y
                &&& 10 * abs(96 * (c.y.scaled() - a.y.scaled()) - (9 * d + 96) * one) <= 96 * one
            }
        }),
{
    let u = unit();
    let d = bar.dpi as int;
    lemma_units();
    lemma_one_tail(bar);
    lemma_card_size(bar);
    lemma_near_zero();
    lemma_sign(zero(false));
    lemma_near_pixels(bar.tail_h(), if bar.is_docked() {
        72 * d
    } else {
        0
    }, 1);
    assert((72 * d) * u >= 6912 * u) by (nonlinear_arith)
        requires
            d >= 96,
            u > 0,
    ;
    if bar.is_docked() {
        lemma_rank_order(zero(false), bar.tail_h());
        assert(bar.is_tail_drawn());
        lemma_tail_height(bar);
        lemma_tail_place(bar);
        lemma_tail_sides(bar.tail_center(), d);
    } else {
        assert(!bar.is_tail_drawn());
    }
}

/// How far down the tail reaches.
proof fn lemma_tail_height(bar: Bar)
    requires
        bar.has_own_size(),
        bar.is_docked(),
    ensures
        ({
            let u = unit();
            let d = bar.dpi as int;
            let bottom = bar.pad().plus_spec(bar.card_h());
            let (tip, top) = (bottom.plus_spec(bar.tail_h()), bottom.minus_spec(single_of(1)));
            &&& tip.is_finite() && top.is_finite()
            &&& 10 * abs(96 * tip.scaled() - (96 * bar.height - 10 * d) * u) <= 96 * u
            &&& 10 * abs(96 * (tip.scaled() - top.scaled()) - (9 * d + 96) * u) <= 96 * u
        }),
{
    let u = unit();
    let d = bar.dpi as int;
    lemma_units();
    lemma_card_size(bar);
    let h = 768 * bar.height - 160 * d - 72 * d;
    let bottom = bar.pad().plus_spec(bar.card_h());
    lemma_near_plus(bar.pad(), 80 * d, 1, bar.card_h(), h, 6);
    lemma_near_plus(bottom, 80 * d + h, 8, bar.tail_h(), 72 * d, 1);
    lemma_near_whole(1);
    lemma_near_minus(bottom, 80 * d + h, 8, single_of(1), 768, 0);
    let (tip, top) = (bottom.plus_spec(bar.tail_h()), bottom.minus_spec(single_of(1)));
    lemma_near_pixels(tip, 80 * d + h + 72 * d, 10);
    lemma_near_pixels(top, 80 * d + h - 768, 9);
    assert((80 * d + h + 72 * d) * u == 8 * ((96 * bar.height - 10 * d) * u)) by (nonlinear_arith)
        requires
            h == 768 * bar.height - 160 * d - 72 * d,
    ;
    assert((80 * d + h + 72 * d) * u - (80 * d + h - 768) * u == 8 * ((9 * d + 96) * u))
        by (nonlinear_arith);
}

/// The corners of the tail beside its middle.
proof fn lemma_tail_sides(c: Single, d: int)
    requires
        c.is_finite(),
        abs(c.scaled()) <= 40_000 * unit(),
        is_fine_resolution(d),
    ensures
        ({
            let u = unit();
            let half = points(18, d).over_spec(single_of(2));
            let (a, b) = (c.minus_spec(half), c.plus_spec(half));
            &&& 10 * abs(96 * (b.scaled() - a.scaled()) - (18 * d) * u) <= 96 * u
            &&& 10 * abs(a.scaled() + b.scaled() - 2 * c.scaled()) <= u
        }),
{
    let u = unit();
    lemma_units();
    lemma_near_points(18, d);
    lemma_near_half(points(18, d), 72 * d, 1);
    let half = points(18, d).over_spec(single_of(2));
    lemma_near_pixels(half, 72 * d, 2);
    assert(0 <= (72 * d) * u <= 691_200 * u && 4 * ((18 * d) * u) == (72 * d) * u)
        by (nonlinear_arith)
        requires
            0 <= d <= 9600,
            u > 0,
    ;
    lemma_minus_error(c, half);
    lemma_plus_error(c, half);
}

/// Where the tail is.
proof fn lemma_tail_place(bar: Bar)
    requires
        bar.has_own_size(),
        bar.fits_tail(),
        bar.is_docked(),
        bar.is_tail_drawn(),
        match bar.tray_point {
            Some(p) => abs(p.0 - bar.end().0) < 0x100_0000,
            None => true,
        },
    ensures
        ({
            let one = unit();
            let c = bar.tail_center();
            let d = bar.dpi as int;
            let (from, to) = if bar.is_vertical() {
                (38 * d, 48 * d)
            } else {
                (32 * d, 288 * d)
            };
            &&& c.is_finite()
            &&& abs(c.scaled()) <= 40_000 * one
            &&& match bar.tray_point {
                Some(p) => {
                    let local = p.0 - bar.end().0;
                    &&& from + 192 <= 96 * local <= to - 192 ==> c.scaled() == local * one
                    &&& 96 * local < from + 192 ==> abs(96 * c.scaled() - from * one) <= 384 * one
                    &&& 96 * local > to - 192 ==> abs(96 * c.scaled() - to * one) <= 384 * one
                },
                None => 2 * abs(2 * c.scaled() - bar.width * one) <= one,
            }
        }),
{
    match bar.tray_point {
        Some(p) => {
            lemma_tail_under(bar, p.0 - bar.end().0);
        },
        None => {
            lemma_tail_in_the_middle(bar);
        },
    }
}

/// Where the tail is with an icon to point at.
proof fn lemma_tail_under(bar: Bar, local: int)
    requires
        bar.has_own_size(),
        bar.tail_range().0.at_most_spec(bar.tail_range().1),
        abs(local) < 0x100_0000,
    ensures
        ({
            let one = unit();
            let c = single_of(local).clamped(bar.tail_range().0, bar.tail_range().1);
            let d = bar.dpi as int;
            let (from, to) = if bar.is_vertical() {
                (38 * d, 48 * d)
            } else {
                (32 * d, 288 * d)
            };
            &&& c.is_finite()
            &&& abs(c.scaled()) <= 40_000 * one
            &&& from + 192 <= 96 * local <= to - 192 ==> c.scaled() == local * one
            &&& 96 * local < from + 192 ==> abs(96 * c.scaled() - from * one) <= 384 * one
            &&& 96 * local > to - 192 ==> abs(96 * c.scaled() - to * one) <= 384 * one
        }),
{
    let u = unit();
    let d = bar.dpi as int;
    lemma_units();
    lemma_tail_ends(bar);
    let (from, to) = if bar.is_vertical() {
        (38 * d, 48 * d)
    } else {
        (32 * d, 288 * d)
    };
    let (lo, hi) = bar.tail_range();
    lemma_signed_exact(local);
    let x = single_of(local);
    lemma_rank_order(lo, hi);
    lemma_rank_order(x, lo);
    lemma_rank_order(hi, x);
    let k = 96 * local;
    assert(96 * (local * u) == k * u) by (nonlinear_arith)
        requires
            k == 96 * local,
    ;
    assert((k >= from + 192 ==> k * u >= from * u + 192 * u) && (k <= to - 192 ==> k * u <= to * u
        - 192 * u) && (k < from + 192 ==> k * u <= from * u + 192 * u) && (k > to - 192 ==> k * u
        >= to * u - 192 * u)) by (nonlinear_arith)
        requires
            u > 0,
    ;
}

/// The ends of the straight part of the card's edge, in pixels.
proof fn lemma_tail_ends(bar: Bar)
    requires
        bar.has_own_size(),
    ensures
        ({
            let u = unit();
            let d = bar.dpi as int;
            let (from, to) = if bar.is_vertical() {
                (38 * d, 48 * d)
            } else {
                (32 * d, 288 * d)
            };
            let (lo, hi) = bar.tail_range();
            &&& lo.is_finite() && hi.is_finite()
            &&& abs(96 * lo.scaled() - from * u) <= 10 * u
            &&& to * u - 110 * u <= 96 * hi.scaled() <= to * u + 10 * u
            &&& 3000 * u <= from * u <= 2_764_800 * u
            &&& 0 <= to * u <= 2_764_800 * u
        }),
{
    let u = unit();
    let d = bar.dpi as int;
    lemma_units();
    lemma_card_size(bar);
    lemma_tail_range(bar);
    let w = 768 * bar.width - 160 * d;
    let (from, to, r) = if bar.is_vertical() {
        (38 * d, 48 * d, 176 * d)
    } else {
        (32 * d, 288 * d, 128 * d)
    };
    let (lo, hi) = bar.tail_range();
    lemma_near_pixels(lo, 80 * d + r + 48 * d, 5);
    lemma_near_pixels(hi, 80 * d + w - r - 48 * d, 10);
    let (k, m) = (80 * d + r + 48 * d, 80 * d + w - r - 48 * d);
    assert(k == 8 * from);
    assert(8 * to - 768 < m <= 8 * to);
    assert(k * u == 8 * (from * u)) by (nonlinear_arith)
        requires
            k == 8 * from,
    ;
    assert(8 * (to * u) - 768 * u <= m * u <= 8 * (to * u) && 3000 * u <= from * u && from * u
        <= 2_764_800 * u && to * u <= 2_764_800 * u && to * u >= 0) by (nonlinear_arith)
        requires
            8 * to - 768 < m <= 8 * to,
            3000 <= from <= 2_764_800,
            0 <= to <= 2_764_800,
            u > 0,
    ;
}

/// Where the tail is with no icon to point at.
proof fn lemma_tail_in_the_middle(bar: Bar)
    requires
        bar.has_own_size(),
    ensures
        ({
            let one = unit();
            let c = bar.pad().plus_spec(bar.card_w().over_spec(single_of(2)));
            &&& c.is_finite()
            &&& abs(c.scaled()) <= 40_000 * one
            &&& 2 * abs(2 * c.scaled() - bar.width * one) <= one
        }),
{
    let u = unit();
    let d = bar.dpi as int;
    lemma_units();
    lemma_card_size(bar);
    let n = bar.width as int;
    let k = 384 * n - 80 * d;
    assert(768 * n - 160 * d == 2 * k);
    let half = bar.card_w().over_spec(single_of(2));
    lemma_near_half(bar.card_w(), k, 4);
    lemma_near_plus(bar.pad(), 80 * d, 1, half, k, 5);
    let c = bar.pad().plus_spec(half);
    lemma_near_pixels(c, 80 * d + k, 7);
    assert((80 * d + k) * u == 384 * (n * u)) by (nonlinear_arith)
        requires
            80 * d + k == 384 * n,
    ;
    assert(0 <= n * u <= 33_000 * u) by (nonlinear_arith)
        requires
            0 <= n <= 33_000,
            u > 0,
    ;
}

// ---------------------------------------------------------------------------
// Captions
// ---------------------------------------------------------------------------

/// The captions of a face.
proof fn lemma_captions(bar: Bar)
    ensures
        ({
            let d = bar.dpi as int;
            let (pad, w, h) = (bar.pad(), bar.card_w(), bar.card_h());
            let low = pad.plus_spec(h);
            let mid = pad.plus_spec(h.over_spec(single_of(2)));
            let side = pad.plus_spec(w).minus_spec(points(70, d));
            let left = pad.plus_spec(points(62, d));
            let right = pad.plus_spec(w).minus_spec(points(74, d));
            let all = captions(bar.drawing());
            let (label, level, gain) = if bar.is_vertical() {
                (
                    (Caption::Channel, pad, pad.plus_spec(points(38, d)), w, points(14, d)),
                    (Caption::Level, pad, low.minus_spec(points(36, d)), w, points(20, d)),
                    (Caption::Gain, pad, low.minus_spec(points(20, d)), w, points(14, d)),
                )
            } else {
                (
                    (
                        Caption::Channel,
                        left,
                        pad.plus_spec(points(14, d)),
                        right.minus_spec(left),
                        points(14, d),
                    ),
                    (
                        Caption::Level,
                        side,
                        mid.minus_spec(points(14, d)),
                        points(58, d),
                        points(20, d),
                    ),
                    (
                        Caption::Gain,
                        side,
                        mid.plus_spec(points(6, d)),
                        points(58, d),
                        points(14, d),
                    ),
                )
            };
            all == if bar.view.muted {
                seq![label, level]
            } else {
                seq![label, level, gain]
            }
        }),
{
    lemma_captions_joined();
    let all = captions(bar.drawing());
    assert(captions(bar.card()).len() == 0);
    assert(captions(bar.tail()).len() == 0);
    assert(all =~= captions(bar.face()));
    let (view, pad, w, h) = (bar.view, bar.pad(), bar.card_w(), bar.card_h());
    let pct = bar.display_pct.over_spec(single_of(100)).clamped(zero(false), of_bits(ONE));
    if bar.is_vertical() {
        lemma_captions_upright(view, pad, w, h, bar.dpi, bar.accent, pct);
    } else {
        lemma_captions_lying(view, pad, w, h, bar.dpi, bar.accent, pct);
    }
}

proof fn lemma_captions_upright(
    view: BarView,
    pad: Single,
    w: Single,
    h: Single,
    dpi: i32,
    accent: (u8, u8, u8),
    pct: Single,
)
    ensures
        ({
            let d = dpi as int;
            let low = pad.plus_spec(h);
            let all = captions(draw_vertical_shapes(view, pad, w, h, dpi, accent, pct));
            let label = (Caption::Channel, pad, pad.plus_spec(points(38, d)), w, points(14, d));
            let level = (Caption::Level, pad, low.minus_spec(points(36, d)), w, points(20, d));
            let gain = (Caption::Gain, pad, low.minus_spec(points(20, d)), w, points(14, d));
            all == if view.muted {
                seq![label, level]
            } else {
                seq![label, level, gain]
            }
        }),
{
    lemma_captions_joined();
    let all = captions(draw_vertical_shapes(view, pad, w, h, dpi, accent, pct));
    assert(view.muted ==> all =~= seq![all[0], all[1]]);
    assert(!view.muted ==> all =~= seq![all[0], all[1], all[2]]);
}

proof fn lemma_captions_lying(
    view: BarView,
    pad: Single,
    w: Single,
    h: Single,
    dpi: i32,
    accent: (u8, u8, u8),
    pct: Single,
)
    ensures
        ({
            let d = dpi as int;
            let mid = pad.plus_spec(h.over_spec(single_of(2)));
            let side = pad.plus_spec(w).minus_spec(points(70, d));
            let left = pad.plus_spec(points(62, d));
            let right = pad.plus_spec(w).minus_spec(points(74, d));
            let all = captions(draw_horizontal_shapes(view, pad, w, h, dpi, accent, pct));
            let label = (
                Caption::Channel,
                left,
                pad.plus_spec(points(14, d)),
                right.minus_spec(left),
                points(14, d),
            );
            let level = (
                Caption::Level,
                side,
                mid.minus_spec(points(14, d)),
                points(58, d),
                points(20, d),
            );
            let gain = (
                Caption::Gain,
                side,
                mid.plus_spec(points(6, d)),
                points(58, d),
                points(14, d),
            );
            all == if view.muted {
                seq![label, level]
            } else {
                seq![label, level, gain]
            }
        }),
{
    lemma_captions_joined();
    let all = captions(draw_horizontal_shapes(view, pad, w, h, dpi, accent, pct));
    assert(view.muted ==> all =~= seq![all[0], all[1]]);
    assert(!view.muted ==> all =~= seq![all[0], all[1], all[2]]);
}

/// Every frame says the channel's name and the level, and the gain unless the
/// channel is muted. The name stands above the track. The level stands below
/// the track of an upright bar and to the right of that of a lying one, and
/// the gain below the level.
pub proof fn law_the_captions_stand_around_the_track(bar: Bar)
    requires
        bar.has_own_size(),
    ensures
        ({
            let all = captions(bar.drawing());
            let track = fills(bar.drawing(), 0x26FF_FFFF)[0];
            let (label, level) = (all[0], all[1]);
            &&& all.len() == if bar.view.muted {
                2int
            } else {
                3
            }
            &&& label.0 == Caption::Channel && level.0 == Caption::Level
            &&& label.2.scaled() + label.4.scaled() < track.y.scaled()
            &&& bar.view.settings.orientation == Orientation::Vertical ==> level.2.scaled()
                > track.y.scaled() + track.h.scaled()
            &&& bar.view.settings.orientation == Orientation::Horizontal ==> level.1.scaled()
                > track.x.scaled() + track.w.scaled()
            &&& !bar.view.muted ==> all[2].0 == Caption::Gain && all[2].1 == level.1
                && all[2].2.scaled() > level.2.scaled()
        }),
{
    let u = unit();
    let d = bar.dpi as int;
    lemma_units();
    lemma_captions(bar);
    lemma_peak_fills(bar);
    if bar.is_vertical() {
        lemma_upright_captions(bar);
    } else {
        lemma_lying_captions(bar);
    }
}

proof fn lemma_upright_captions(bar: Bar)
    requires
        bar.has_own_size(),
        bar.is_vertical(),
    ensures
        ({
            let d = bar.dpi as int;
            let pad = bar.pad();
            let low = pad.plus_spec(bar.card_h());
            let top = pad.plus_spec(points(58, d));
            let t = low.minus_spec(points(42, d)).minus_spec(top);
            &&& pad.plus_spec(points(38, d)).scaled() + points(14, d).scaled() < top.scaled()
            &&& low.minus_spec(points(36, d)).scaled() > top.scaled() + t.scaled()
            &&& low.minus_spec(points(20, d)).scaled() > low.minus_spec(points(36, d)).scaled()
        }),
{
    let u = unit();
    let d = bar.dpi as int;
    lemma_units();
    lemma_card_size(bar);
    lemma_upright_track(bar);
    lemma_near_points(38, d);
    lemma_near_points(14, d);
    lemma_near_points(36, d);
    lemma_near_points(20, d);
    let tail = if bar.is_docked() {
        72 * d
    } else {
        0
    };
    let h = 768 * bar.height - 160 * d - tail;
    let (pad, low) = (bar.pad(), bar.pad().plus_spec(bar.card_h()));
    lemma_near_plus(pad, 80 * d, 1, bar.card_h(), h, 6);
    lemma_near_plus(pad, 80 * d, 1, points(38, d), 304 * d, 1);
    lemma_near_minus(low, 80 * d + h, 8, points(36, d), 288 * d, 1);
    lemma_near_minus(low, 80 * d + h, 8, points(20, d), 160 * d, 1);
    let top = pad.plus_spec(points(58, d));
    let t = low.minus_spec(points(42, d)).minus_spec(top);
    let m = 768 * bar.height - 416 * d - tail;
    lemma_near_pixels(pad.plus_spec(points(38, d)), 384 * d, 3);
    lemma_near_pixels(points(14, d), 112 * d, 1);
    lemma_near_pixels(top, 544 * d, 3);
    lemma_near_pixels(t, m - 544 * d, 14);
    lemma_near_pixels(low.minus_spec(points(36, d)), 80 * d + h - 288 * d, 10);
    lemma_near_pixels(low.minus_spec(points(20, d)), 80 * d + h - 160 * d, 10);
    assert((384 * d) * u + (112 * d) * u + 4000 * u <= (544 * d) * u) by (nonlinear_arith)
        requires
            d >= 96,
            u > 0,
    ;
    assert((544 * d) * u + (m - 544 * d) * u + 4000 * u <= (80 * d + h - 288 * d) * u)
        by (nonlinear_arith)
        requires
            m + 4000 <= 80 * d + h - 288 * d,
            u > 0,
    ;
    assert((80 * d + h - 288 * d) * u + 4000 * u <= (80 * d + h - 160 * d) * u) by (nonlinear_arith)
        requires
            d >= 96,
            u > 0,
    ;
}

proof fn lemma_lying_captions(bar: Bar)
    requires
        bar.has_own_size(),
        !bar.is_vertical(),
    ensures
        ({
            let d = bar.dpi as int;
            let (pad, w, h) = (bar.pad(), bar.card_w(), bar.card_h());
            let mid = pad.plus_spec(h.over_spec(single_of(2)));
            let y = mid.minus_spec(points(10, d).over_spec(single_of(2))).plus_spec(points(6, d));
            let left = pad.plus_spec(points(62, d));
            let right = pad.plus_spec(w).minus_spec(points(74, d));
            let side = pad.plus_spec(w).minus_spec(points(70, d));
            &&& pad.plus_spec(points(14, d)).scaled() + points(14, d).scaled() < y.scaled()
            &&& side.scaled() > left.scaled() + right.minus_spec(left).scaled()
            &&& mid.plus_spec(points(6, d)).scaled() > mid.minus_spec(points(14, d)).scaled()
        }),
{
    lemma_above_lying_track(bar);
    lemma_beside_lying_track(bar);
}

proof fn lemma_above_lying_track(bar: Bar)
    requires
        bar.has_own_size(),
        !bar.is_vertical(),
    ensures
        ({
            let d = bar.dpi as int;
            let (pad, h) = (bar.pad(), bar.card_h());
            let mid = pad.plus_spec(h.over_spec(single_of(2)));
            let y = mid.minus_spec(points(10, d).over_spec(single_of(2))).plus_spec(points(6, d));
            &&& pad.plus_spec(points(14, d)).scaled() + points(14, d).scaled() < y.scaled()
            &&& mid.plus_spec(points(6, d)).scaled() > mid.minus_spec(points(14, d)).scaled()
        }),
{
    let u = unit();
    let d = bar.dpi as int;
    lemma_units();
    lemma_card_size(bar);
    lemma_near_points(14, d);
    lemma_near_points(10, d);
    lemma_near_points(6, d);
    let tail = if bar.is_docked() {
        72 * d
    } else {
        0
    };
    let (pad, card_h) = (bar.pad(), bar.card_h());
    let k = 384 * bar.height - 80 * d - tail / 2;
    assert(768 * bar.height - 160 * d - tail == 2 * k);
    assert(688 * d - 768 < 2 * k <= 688 * d);
    lemma_near_half(card_h, k, 6);
    lemma_near_half(points(10, d), 40 * d, 1);
    let mid = pad.plus_spec(card_h.over_spec(single_of(2)));
    lemma_near_plus(pad, 80 * d, 1, card_h.over_spec(single_of(2)), k, 7);
    let thin = points(10, d).over_spec(single_of(2));
    lemma_near_minus(mid, 80 * d + k, 9, thin, 40 * d, 2);
    lemma_near_plus(mid.minus_spec(thin), 40 * d + k, 12, points(6, d), 48 * d, 1);
    lemma_near_plus(mid, 80 * d + k, 9, points(6, d), 48 * d, 1);
    lemma_near_minus(mid, 80 * d + k, 9, points(14, d), 112 * d, 1);
    lemma_near_plus(pad, 80 * d, 1, points(14, d), 112 * d, 1);
    let y = mid.minus_spec(thin).plus_spec(points(6, d));
    lemma_near_pixels(y, 88 * d + k, 14);
    lemma_near_pixels(pad.plus_spec(points(14, d)), 192 * d, 3);
    lemma_near_pixels(points(14, d), 112 * d, 1);
    lemma_near_pixels(mid.plus_spec(points(6, d)), 128 * d + k, 11);
    lemma_near_pixels(mid.minus_spec(points(14, d)), k - 32 * d, 11);
    assert((192 * d) * u + (112 * d) * u + 2000 * u <= (88 * d + k) * u) by (nonlinear_arith)
        requires
            304 * d + 2000 <= 88 * d + k,
            u > 0,
    ;
    assert((k - 32 * d) * u + 2000 * u <= (128 * d + k) * u) by (nonlinear_arith)
        requires
            d >= 96,
            u > 0,
    ;
}

proof fn lemma_beside_lying_track(bar: Bar)
    requires
        bar.has_own_size(),
        !bar.is_vertical(),
    ensures
        ({
            let d = bar.dpi as int;
            let (pad, w) = (bar.pad(), bar.card_w());
            let left = pad.plus_spec(points(62, d));
            let right = pad.plus_spec(w).minus_spec(points(74, d));
            let side = pad.plus_spec(w).minus_spec(points(70, d));
            side.scaled() > left.scaled() + right.minus_spec(left).scaled()
        }),
{
    let u = unit();
    let d = bar.dpi as int;
    lemma_units();
    lemma_card_size(bar);
    lemma_lying_track(bar);
    lemma_near_points(70, d);
    let (pad, card_w) = (bar.pad(), bar.card_w());
    let w = 768 * bar.width - 160 * d;
    lemma_near_plus(pad, 80 * d, 1, card_w, w, 4);
    let far = pad.plus_spec(card_w);
    lemma_near_minus(far, 80 * d + w, 6, points(70, d), 560 * d, 1);
    let left = pad.plus_spec(points(62, d));
    let right = far.minus_spec(points(74, d));
    let m = 768 * bar.width - 672 * d;
    lemma_near_pixels(far.minus_spec(points(70, d)), 80 * d + w - 560 * d, 8);
    lemma_near_pixels(left, 576 * d, 3);
    lemma_near_pixels(right.minus_spec(left), m - 576 * d, 12);
    assert((576 * d) * u + (m - 576 * d) * u + 2000 * u <= (80 * d + w - 560 * d) * u)
        by (nonlinear_arith)
        requires
            m + 2000 <= 80 * d + w - 560 * d,
            u > 0,
    ;
}

// ---------------------------------------------------------------------------
// Opacity and growth
// ---------------------------------------------------------------------------

/// A percentage of a number from 0 to 1.
proof fn lemma_part_shown(n: int, a: Single)
    requires
        0 <= n <= 100,
        in_unit(a),
    ensures
        ({
            let y = hundredths(n).times_spec(a);
            &&& y.is_finite() && 0 <= y.scaled() <= unit()
            &&& abs(100 * y.scaled() - n * a.scaled()) <= 400 * fine()
        }),
{
    let (u, e) = (unit(), fine());
    let x = hundredths(n);
    let (one, none) = (of_bits(ONE), zero(false));
    lemma_units();
    lemma_one_scaled();
    lemma_hundredth(n);
    lemma_hundredths(n);
    lemma_in_unit(a);
    lemma_sign(x);
    lemma_sign(none);
    lemma_rank_order(x, one);
    let (p, q) = (x.scaled(), a.scaled());
    assert(abs(p * q) == p * q && p * q <= u * u && u * u <= 0x100_0000_0000 * u * u)
        by (nonlinear_arith)
        requires
            0 <= p <= u,
            0 <= q <= u,
    ;
    lemma_times_error(x, a);
    lemma_share(x, a);
    let y = x.times_spec(a);
    lemma_rank_order(none, y);
    lemma_rank_order(y, x);
    let v = y.scaled();
    let s = 100 * p - n * u;
    assert(100 * (p * q) == (n * q) * u + s * q) by (nonlinear_arith)
        requires
            s == 100 * p - n * u,
    ;
    assert((n + 1) * e <= 101 * e) by (nonlinear_arith)
        requires
            n <= 100,
            e > 0,
    ;
    assert(abs(s * q) <= 101 * (u * e)) by (nonlinear_arith)
        requires
            abs(s) <= 101 * e,
            0 <= q <= u,
    ;
    assert(u * u == 0x80_0000 * (u * e) && u <= u * e) by (nonlinear_arith)
        requires
            u == 0x80_0000 * e,
            e >= 1,
    ;
    let h = 100 * v - n * q;
    assert(h * u == 100 * (v * u) - (n * q) * u) by (nonlinear_arith)
        requires
            h == 100 * v - n * q,
    ;
    assert(abs(h * u) <= 400 * (u * e));
    assert(abs(h) <= 400 * e) by (nonlinear_arith)
        requires
            abs(h * u) <= 400 * (u * e),
            u > 0,
    ;
}

/// A number from 0 to 1 times 255.
proof fn lemma_of_full(y: Single)
    requires
        y.is_finite(),
        0 <= y.scaled() <= unit(),
        y.rank() >= 0,
    ensures
        ({
            let z = y.times_spec(of_bits(FULL));
            &&& z.is_finite() && z.scaled() >= 0
            &&& abs(z.scaled() - 255 * y.scaled()) <= 256 * fine()
        }),
        of_bits(FULL).scaled() == 255 * unit(),
{
    let (u, e) = (unit(), fine());
    let (full, none) = (of_bits(FULL), zero(false));
    lemma_units();
    lemma_sign(none);
    assert(full.step() == 133 && full.significand() == 0xFF_0000);
    lemma_pow2_big();
    lemma_pow2_adds(16, 133);
    assert(full.scaled() == 255 * u);
    lemma_sign(full);
    let v = y.scaled();
    assert(abs(v * (255 * u)) == 255 * (v * u) && 255 * (v * u) <= 255 * (u * u) && 255 * (u * u)
        <= 0x100_0000_0000 * u * u) by (nonlinear_arith)
        requires
            0 <= v <= u,
            u > 0,
    ;
    lemma_times_error(y, full);
    let z = y.times_spec(full);
    let w = z.scaled();
    assert(w * u - v * (255 * u) == (w - 255 * v) * u) by (nonlinear_arith);
    let g = w - 255 * v;
    assert(0x80_0000 * abs(g * u) <= 255 * (u * u) + 0x80_0000 * u);
    assert(abs(g) <= 256 * e) by (nonlinear_arith)
        requires
            0x80_0000 * abs(g * u) <= 255 * (u * u) + 0x80_0000 * u,
            u == 0x80_0000 * e,
            e >= 1,
    ;
    lemma_times_keeps_order(none, y, full);
    lemma_zero_product(full);
    lemma_sign(z);
}

/// The window is as opaque as the settings ask for, as far as it has faded in:
/// 255 times the one times the other, cut to a whole number. So a bar that has
/// faded out is not seen, and a fully faded in one at 100 percent is solid.
pub proof fn law_the_bar_is_as_opaque_as_asked_for(bar: Bar)
    requires
        in_unit(bar.anim_alpha),
        bar.view.settings.opacity_pct <= 100,
    ensures
        ({
            let one = pow2(149) as int;
            let exact = (255 * bar.view.settings.opacity_pct) * bar.anim_alpha.scaled();
            &&& exact - 101 * one <= (100 * bar.alpha()) * one <= exact + one
            &&& bar.anim_alpha.scaled() == 0 ==> bar.alpha() == 0
            &&& bar.anim_alpha.scaled() == one && bar.view.settings.opacity_pct == 100
                ==> bar.alpha() == 255
        }),
{
    let (u, e) = (unit(), fine());
    let n = bar.view.settings.opacity_pct as int;
    let (x, a, full) = (hundredths(n), bar.anim_alpha, of_bits(FULL));
    let (one, none) = (of_bits(ONE), zero(false));
    lemma_units();
    lemma_one_scaled();
    lemma_sign(none);
    lemma_hundredth(n);
    lemma_hundredths(n);
    lemma_in_unit(a);
    lemma_part_shown(n, a);
    let y = x.times_spec(a);
    lemma_rank_order(none, y);
    lemma_rank_order(y, one);
    assert(y.clamped(none, one) == y);
    lemma_of_full(y);
    let z = y.times_spec(full);
    let (q, v, w) = (a.scaled(), y.scaled(), z.scaled());
    let exact = (255 * n) * q;
    assert(exact == 255 * (n * q)) by (nonlinear_arith)
        requires
            exact == (255 * n) * q,
    ;
    assert(abs(100 * w - exact) <= 200_000 * e);
    lemma_to_int(z);
    let r = bar.alpha();
    assert(r == z.to_int(false));
    assert((r + 1) * u == r * u + u && (100 * r) * u == 100 * (r * u)) by (nonlinear_arith);
    if q == 0 {
        assert(r <= 0) by (nonlinear_arith)
            requires
                (100 * r) * u <= u,
                u > 0,
        ;
        lemma_alpha(bar);
    }
    if q == u && n == 100 {
        assert(exact == 25_500 * u) by (nonlinear_arith)
            requires
                exact == (255 * n) * q,
                n == 100,
                q == u,
        ;
        assert(x == one) by {
            lemma_signed_exact(100);
            lemma_sign(single_of(100));
            lemma_whole_share(single_of(100));
        }
        lemma_rank_order(a, one);
        assert(a == one);
        lemma_share(one, one);
        lemma_rank_order(y, one);
        assert(y.scaled() == u);
        lemma_share(full, one);
        lemma_times_commutes(y, full);
        assert(y == one);
        assert(z.scaled() == 255 * u) by {
            lemma_rank_order(z, full);
        }
        assert(r >= 255) by (nonlinear_arith)
            requires
                255 * u < (r + 1) * u,
                u > 0,
        ;
        lemma_alpha(bar);
    }
}

// ---------------------------------------------------------------------------
// The card
// ---------------------------------------------------------------------------

/// The card is the first gradient of a frame. It takes up the window but for
/// 10 points of shadow on each side and the tail, within a tenth of a pixel,
/// is nearly opaque, and has corners of 22 points where it is upright and 16
/// where it is not.
pub proof fn law_the_card_fills_the_window_but_for_its_shadow(bar: Bar)
    requires
        bar.has_own_size(),
    ensures
        ({
            let one = pow2(149) as int;
            let d = bar.dpi as int;
            let all = gradients(bar.drawing());
            let card = all[0].0;
            let tail = if bar.view.settings.position == Position::AboveTray {
                9 * d
            } else {
                0
            };
            let corner = if bar.view.settings.orientation == Orientation::Vertical {
                22 * d
            } else {
                16 * d
            };
            &&& all.len() >= 1
            &&& 10 * abs(96 * card.x.scaled() - (10 * d) * one) <= 96 * one
            &&& 10 * abs(96 * card.y.scaled() - (10 * d) * one) <= 96 * one
            &&& 10 * abs(
                96 * (card.x.scaled() + card.w.scaled()) - (96 * bar.width - 10 * d) * one,
            ) <= 96 * one
            &&& 10 * abs(
                96 * (card.y.scaled() + card.h.scaled()) - (96 * bar.height - 10 * d - tail) * one,
            ) <= 96 * one
            &&& 10 * abs(96 * card.r.scaled() - corner * one) <= 96 * one
            &&& channels_of(all[0].1).0 == 247
            &&& channels_of(all[0].2).0 == 247
        }),
{
    let u = unit();
    let d = bar.dpi as int;
    lemma_units();
    lemma_card_area(bar);
    lemma_channels(247, 38, 38, 42);
    lemma_channels(247, 24, 24, 27);
    lemma_card_size(bar);
    let tail = if bar.is_docked() {
        72 * d
    } else {
        0
    };
    let (w, h) = (768 * bar.width - 160 * d, 768 * bar.height - 160 * d - tail);
    lemma_near_pixels(bar.pad(), 80 * d, 1);
    lemma_near_pixels(bar.card_w(), w, 4);
    lemma_near_pixels(bar.card_h(), h, 6);
    lemma_near_points(22, d);
    lemma_near_points(16, d);
    lemma_near_pixels(points(22, d), 176 * d, 1);
    lemma_near_pixels(points(16, d), 128 * d, 1);
    assert((80 * d) * u == 8 * ((10 * d) * u) && (176 * d) * u == 8 * ((22 * d) * u) && (128 * d)
        * u == 8 * ((16 * d) * u)) by (nonlinear_arith);
    assert((80 * d) * u + w * u == 8 * ((96 * bar.width - 10 * d) * u)) by (nonlinear_arith)
        requires
            w == 768 * bar.width - 160 * d,
    ;
    let t = if bar.is_docked() {
        9 * d
    } else {
        0
    };
    assert((80 * d) * u + h * u == 8 * ((96 * bar.height - 10 * d - t) * u)) by (nonlinear_arith)
        requires
            h == 768 * bar.height - 160 * d - 8 * t,
    ;
}

proof fn lemma_card_area(bar: Bar)
    ensures
        ({
            let all = gradients(bar.drawing());
            &&& all.len() >= 1
            &&& all[0].0 == (RoundRect {
                x: bar.pad(),
                y: bar.pad(),
                w: bar.card_w(),
                h: bar.card_h(),
                r: bar.radius(),
            })
            &&& all[0].1 == argb_word(247, 38, 38, 42)
            &&& all[0].2 == argb_word(247, 24, 24, 27)
        }),
{
    lemma_shapes_joined();
    assert(gradients(bar.card()).len() == 1);
}

/// How many arcs and how many lines a drawing has.
pub open spec fn arcs_and_lines(s: Seq<Shape>) -> (int, int)
    decreases s.len(),
{
    if s.len() == 0 {
        (0, 0)
    } else {
        let (a, l) = arcs_and_lines(s.drop_first());
        match s[0] {
            Shape::Arc { .. } => (a + 1, l),
            Shape::Line { .. } => (a, l + 1),
            _ => (a, l),
        }
    }
}

proof fn lemma_counts_joined(a: Seq<Shape>, b: Seq<Shape>)
    ensures
        arcs_and_lines(a + b).0 == arcs_and_lines(a).0 + arcs_and_lines(b).0,
        arcs_and_lines(a + b).1 == arcs_and_lines(a).1 + arcs_and_lines(b).1,
    decreases a.len(),
{
    if a.len() == 0 {
        assert(a + b == b);
    } else {
        lemma_counts_joined(a.drop_first(), b);
        assert((a + b).drop_first() == a.drop_first() + b);
    }
}

/// The loudspeaker on the card tells whether the channel is muted: two waves
/// where it is not, and where it is two crossing lines, besides the two edges
/// of a docked bar's tail.
pub proof fn law_the_glyph_tells_muted_from_not(bar: Bar)
    requires
        bar.has_own_size(),
    ensures
        arcs_and_lines(bar.drawing()).0 == if bar.view.muted {
            0int
        } else {
            2
        },
        arcs_and_lines(bar.drawing()).1 == (if bar.view.muted {
            2int
        } else {
            0
        }) + (if bar.view.settings.position == Position::AboveTray {
            2int
        } else {
            0
        }),
{
    assert forall|a: Seq<Shape>, b: Seq<Shape>|
        (#[trigger] arcs_and_lines(a + b)).0 == arcs_and_lines(a).0 + arcs_and_lines(b).0 && (
        arcs_and_lines(a + b)).1 == arcs_and_lines(a).1 + arcs_and_lines(b).1 by {
        lemma_counts_joined(a, b);
    }
    assert forall|x: Shape| #[trigger] arcs_and_lines(seq![x]) == (match x {
        Shape::Arc { .. } => (1int, 0int),
        Shape::Line { .. } => (0int, 1int),
        _ => (0int, 0int),
    }) by {
        assert(seq![x].drop_first() == Seq::<Shape>::empty());
        assert(arcs_and_lines(seq![x].drop_first()) == (0int, 0int));
    }
    lemma_tail_is_drawn(bar);
    assert(arcs_and_lines(bar.card()) == (0int, 0int));
    assert(arcs_and_lines(bar.tail()).0 == 0);
    assert(arcs_and_lines(bar.tail()).1 == if bar.is_docked() {
        2int
    } else {
        0
    });
}

proof fn lemma_tail_is_drawn(bar: Bar)
    requires
        bar.has_own_size(),
    ensures
        bar.is_tail_drawn() == bar.is_docked(),
{
    let u = unit();
    let d = bar.dpi as int;
    lemma_units();
    lemma_card_size(bar);
    lemma_sign(zero(false));
    if bar.is_docked() {
        lemma_near_pixels(bar.tail_h(), 72 * d, 1);
        assert((72 * d) * u >= 6912 * u) by (nonlinear_arith)
            requires
                d >= 96,
                u > 0,
        ;
        lemma_rank_order(zero(false), bar.tail_h());
    }
}

/// Track and meter stand beside each other in the middle of the card. On an
/// upright bar the track is 10 points thick, the meter 4, and 7 lie between
/// them, and the two together are centred. On a lying one the meter is below
/// the track, with 8 points between them. All within a fifth of a pixel.
pub proof fn law_track_and_meter_stand_beside_each_other(bar: Bar)
    requires
        bar.has_own_size(),
    ensures
        ({
            let one = pow2(149) as int;
            let d = bar.dpi as int;
            let track = fills(bar.drawing(), 0x26FF_FFFF)[0];
            let ground = fills(bar.drawing(), 0x1EFF_FFFF)[0];
            &&& bar.view.settings.orientation == Orientation::Vertical ==> {
                &&& 5 * abs(
                    track.x.scaled() + ground.x.scaled() + ground.w.scaled() - bar.width * one,
                ) <= one
                &&& 5 * abs(96 * track.w.scaled() - (10 * d) * one) <= 96 * one
                &&& 5 * abs(96 * ground.w.scaled() - (4 * d) * one) <= 96 * one
                &&& 5 * abs(
                    96 * (ground.x.scaled() - (track.x.scaled() + track.w.scaled())) - (7 * d)
                        * one,
                ) <= 96 * one
            }
            &&& bar.view.settings.orientation == Orientation::Horizontal ==> {
                &&& 5 * abs(96 * track.h.scaled() - (10 * d) * one) <= 96 * one
                &&& 5 * abs(96 * ground.h.scaled() - (4 * d) * one) <= 96 * one
                &&& 5 * abs(
                    96 * (ground.y.scaled() - (track.y.scaled() + track.h.scaled())) - (8 * d)
                        * one,
                ) <= 96 * one
            }
        }),
{
    lemma_peak_fills(bar);
    if bar.is_vertical() {
        lemma_upright_middle(bar);
    } else {
        lemma_lying_middle(bar);
    }
}

proof fn lemma_upright_middle(bar: Bar)
    requires
        bar.has_own_size(),
        bar.is_vertical(),
    ensures
        ({
            let u = unit();
            let d = bar.dpi as int;
            let f = upright_face(bar);
            let (x, w, g, t) = (f.track.x, f.track.w, f.ground.x, f.ground.w);
            &&& 5 * abs(x.scaled() + g.scaled() + t.scaled() - bar.width * u) <= u
            &&& 5 * abs(96 * w.scaled() - (10 * d) * u) <= 96 * u
            &&& 5 * abs(96 * t.scaled() - (4 * d) * u) <= 96 * u
            &&& 5 * abs(96 * (g.scaled() - (x.scaled() + w.scaled())) - (7 * d) * u) <= 96 * u
        }),
{
    let u = unit();
    let d = bar.dpi as int;
    lemma_units();
    lemma_card_size(bar);
    lemma_near_points(10, d);
    lemma_near_points(7, d);
    lemma_near_points(4, d);
    lemma_near_half_points(21, d);
    let n = bar.width as int;
    let k = 384 * n - 80 * d;
    assert(768 * n - 160 * d == 2 * k);
    let (pad, half) = (bar.pad(), bar.card_w().over_spec(single_of(2)));
    lemma_near_half(bar.card_w(), k, 4);
    lemma_near_plus(pad, 80 * d, 1, half, k, 5);
    let cx = pad.plus_spec(half);
    lemma_near_minus(cx, 80 * d + k, 7, half_points(21, d), 84 * d, 1);
    let x = cx.minus_spec(half_points(21, d));
    let w = points(10, d);
    lemma_near_plus(x, 80 * d + k - 84 * d, 9, w, 80 * d, 1);
    let near_end = x.plus_spec(w);
    lemma_near_plus(near_end, 160 * d + k - 84 * d, 11, points(7, d), 56 * d, 1);
    let g = near_end.plus_spec(points(7, d));
    let (m1, m2) = (80 * d + k - 84 * d, 216 * d + k - 84 * d);
    lemma_near_pixels(x, m1, 9);
    lemma_near_pixels(w, 80 * d, 1);
    lemma_near_pixels(g, m2, 13);
    lemma_near_pixels(points(4, d), 32 * d, 1);
    assert(m1 * u + m2 * u + (32 * d) * u == 768 * (n * u)) by (nonlinear_arith)
        requires
            m1 + m2 + 32 * d == 768 * n,
    ;
    assert(m2 * u - m1 * u - (80 * d) * u == 8 * ((7 * d) * u) && (80 * d) * u == 8 * ((10 * d)
        * u) && (32 * d) * u == 8 * ((4 * d) * u)) by (nonlinear_arith)
        requires
            m2 - m1 - 80 * d == 56 * d,
    ;
}

proof fn lemma_lying_middle(bar: Bar)
    requires
        bar.has_own_size(),
        !bar.is_vertical(),
    ensures
        ({
            let u = unit();
            let d = bar.dpi as int;
            let f = lying_face(bar);
            let (y, h, g, t) = (f.track.y, f.track.h, f.ground.y, f.ground.h);
            &&& 5 * abs(96 * h.scaled() - (10 * d) * u) <= 96 * u
            &&& 5 * abs(96 * t.scaled() - (4 * d) * u) <= 96 * u
            &&& 5 * abs(96 * (g.scaled() - (y.scaled() + h.scaled())) - (8 * d) * u) <= 96 * u
        }),
{
    let u = unit();
    let d = bar.dpi as int;
    lemma_units();
    lemma_card_size(bar);
    lemma_near_points(10, d);
    lemma_near_points(8, d);
    lemma_near_points(6, d);
    lemma_near_points(4, d);
    let tail = if bar.is_docked() {
        72 * d
    } else {
        0
    };
    let k = 384 * bar.height - 80 * d - tail / 2;
    assert(768 * bar.height - 160 * d - tail == 2 * k);
    let (pad, card_h, h) = (bar.pad(), bar.card_h(), points(10, d));
    lemma_near_half(card_h, k, 6);
    lemma_near_half(h, 40 * d, 1);
    let mid = pad.plus_spec(card_h.over_spec(single_of(2)));
    lemma_near_plus(pad, 80 * d, 1, card_h.over_spec(single_of(2)), k, 7);
    let thin = h.over_spec(single_of(2));
    lemma_near_minus(mid, 80 * d + k, 9, thin, 40 * d, 2);
    lemma_near_plus(mid.minus_spec(thin), 40 * d + k, 12, points(6, d), 48 * d, 1);
    let y = mid.minus_spec(thin).plus_spec(points(6, d));
    lemma_near_plus(y, 88 * d + k, 14, h, 80 * d, 1);
    let low = y.plus_spec(h);
    lemma_near_plus(low, 168 * d + k, 16, points(8, d), 64 * d, 1);
    let g = low.plus_spec(points(8, d));
    lemma_near_pixels(y, 88 * d + k, 14);
    lemma_near_pixels(h, 80 * d, 1);
    lemma_near_pixels(g, 232 * d + k, 18);
    lemma_near_pixels(points(4, d), 32 * d, 1);
    assert((232 * d + k) * u - (88 * d + k) * u - (80 * d) * u == 8 * ((8 * d) * u) && (80 * d) * u
        == 8 * ((10 * d) * u) && (32 * d) * u == 8 * ((4 * d) * u)) by (nonlinear_arith);
}

} // verus!
