//! What a frame shows: the level as a filled part of its track, the signal
//! meter beside it, the mark at 0 dB, the tail at the icon, and the captions,
//! at any resolution.

use crate::animation_laws::lemma_hundredth;
use crate::config::{Orientation, Settings};
use crate::draw::{
    draw_horizontal_shapes, draw_vertical_shapes, fill_words, half_points, hundredths, maybe,
    meter_color_word, points, unity_share, BarView,
};
use crate::frame::{lemma_hundredths, Bar};
use crate::gfx::{argb_word, shaded, shaded_color, RoundRect, Shape, FULL};
use crate::motion::in_unit;
use crate::osd::{law_the_window_scales_with_the_resolution, window_size};
use crate::precision::{
    fine, lemma_minus_error, lemma_over_error, lemma_plus_error, lemma_times_error, lemma_to_int,
    lemma_units, unit,
};
use crate::rounding::{
    lemma_exact, lemma_negated, lemma_one_scaled, lemma_over_keeps_order, lemma_plus_keeps_order,
    lemma_plus_zero, lemma_pow2_big, lemma_rank_order, lemma_share, lemma_sign, lemma_signed_exact,
    lemma_single_of_exact, lemma_times_keeps_order, lemma_zero_rounds,
};
use crate::scale::{lemma_plus_commutes, lemma_times_commutes, lemma_whole_share, span};
use crate::single::{abs, of_bits, single_of, zero, Single, ONE};
use vstd::arithmetic::div_mod::lemma_fundamental_div_mod_converse;
use vstd::arithmetic::power2::{lemma_pow2_adds, pow2};
use vstd::prelude::*;

verus! {

// ---------------------------------------------------------------------------
// Lengths
// ---------------------------------------------------------------------------

/// `x` is `m` parts of 768 of a pixel, but for `c` roundings of at most a
/// 192nd of a pixel each.
pub open spec fn near(x: Single, m: int, c: int) -> bool {
    x.is_finite() && abs(768 * x.scaled() - m * unit()) <= c * (0x200_0000 * fine())
}

/// Coordinates of windows of up to 38000 pixels.
pub open spec fn is_length(m: int) -> bool {
    -0x1C0_0000 <= m <= 0x1C0_0000
}

pub proof fn lemma_near_sum(x: int, y: int, r: int, m: int, n: int, i: int, j: int)
    requires
        abs(768 * x - m * unit()) <= i * (0x200_0000 * fine()),
        abs(768 * y - n * unit()) <= j * (0x200_0000 * fine()),
        is_length(m + n),
        i >= 0,
        j >= 0,
        i + j <= 40,
        abs(x + y) <= 0x100_0000_0000 * unit() ==> 0x80_0000 * abs(r - (x + y)) <= abs(x + y)
            + 0x80_0000,
    ensures
        abs(x + y) <= 0x100_0000_0000 * unit(),
        abs(768 * r - (m + n) * unit()) <= (i + j + 1) * (0x200_0000 * fine()),
{
    lemma_units();
    let (u, e) = (unit(), fine());
    let t = 0x200_0000 * e;
    assert((m + n) * u == m * u + n * u) by (nonlinear_arith);
    assert((i + j) * t == i * t + j * t && (i + j + 1) * t == (i + j) * t + t && (i + j) * t <= 40
        * t) by (nonlinear_arith)
        requires
            i + j <= 40,
            t > 0,
    ;
    assert(abs((m + n) * u) <= 0x1C0_0000 * u) by (nonlinear_arith)
        requires
            -0x1C0_0000 <= m + n <= 0x1C0_0000,
            u > 0,
    ;
}

pub proof fn lemma_near_plus(a: Single, m: int, i: int, b: Single, n: int, j: int)
    requires
        near(a, m, i),
        near(b, n, j),
        is_length(m + n),
        i >= 0,
        j >= 0,
        i + j <= 40,
    ensures
        near(a.plus_spec(b), m + n, i + j + 1),
{
    if abs(a.scaled() + b.scaled()) <= 0x100_0000_0000 * unit() {
        lemma_plus_error(a, b);
    }
    lemma_near_sum(a.scaled(), b.scaled(), a.plus_spec(b).scaled(), m, n, i, j);
    lemma_plus_error(a, b);
}

pub proof fn lemma_near_minus(a: Single, m: int, i: int, b: Single, n: int, j: int)
    requires
        near(a, m, i),
        near(b, n, j),
        is_length(m - n),
        i >= 0,
        j >= 0,
        i + j <= 40,
    ensures
        near(a.minus_spec(b), m - n, i + j + 1),
{
    if abs(a.scaled() - b.scaled()) <= 0x100_0000_0000 * unit() {
        lemma_minus_error(a, b);
    }
    let u = unit();
    assert((-n) * u == -(n * u)) by (nonlinear_arith);
    lemma_near_sum(a.scaled(), -b.scaled(), a.minus_spec(b).scaled(), m, -n, i, j);
    lemma_minus_error(a, b);
}

pub proof fn lemma_near_twice(a: Single, m: int, i: int)
    requires
        near(a, m, i),
        is_length(2 * m),
        0 <= i <= 15,
    ensures
        near(a.times_spec(single_of(2)), 2 * m, 2 * i + 1),
{
    lemma_units();
    lemma_signed_exact(2);
    let (u, e, x) = (unit(), fine(), a.scaled());
    let t = 0x200_0000 * e;
    assert(abs(m * u) <= 0xE0_0000 * u && i * t <= 15 * t) by (nonlinear_arith)
        requires
            -0x1C0_0000 <= 2 * m <= 0x1C0_0000,
            u > 0,
            0 <= i <= 15,
            t > 0,
    ;
    assert(abs(x) <= 0x10_0000 * u);
    assert(abs(x * (2 * u)) <= 0x100_0000_0000 * u * u) by (nonlinear_arith)
        requires
            abs(x) <= 0x10_0000 * u,
            u > 0,
    ;
    lemma_times_error(a, single_of(2));
    let r = a.times_spec(single_of(2)).scaled();
    assert(r * u - x * (2 * u) == (r - 2 * x) * u && abs(x * (2 * u)) == 2 * abs(x) * u)
        by (nonlinear_arith)
        requires
            u > 0,
    ;
    let (p, q) = (r - 2 * x, 2 * abs(x));
    assert(0x80_0000 * abs(p) <= q + 0x80_0000) by (nonlinear_arith)
        requires
            0x80_0000 * abs(p * u) <= q * u + 0x80_0000 * u,
            u > 0,
    ;
    assert((2 * m) * u == 2 * (m * u) && (2 * i + 1) * t == 2 * (i * t) + t) by (nonlinear_arith);
}

pub proof fn lemma_near_half(a: Single, m: int, i: int)
    requires
        near(a, 2 * m, i),
        is_length(2 * m),
        0 <= i <= 40,
    ensures
        near(a.over_spec(single_of(2)), m, i + 1),
{
    lemma_units();
    lemma_signed_exact(2);
    lemma_sign(single_of(2));
    let (u, e, x) = (unit(), fine(), a.scaled());
    let t = 0x200_0000 * e;
    assert(abs((2 * m) * u) <= 0x1C0_0000 * u && i * t <= 40 * t) by (nonlinear_arith)
        requires
            -0x1C0_0000 <= 2 * m <= 0x1C0_0000,
            u > 0,
            0 <= i <= 40,
            t > 0,
    ;
    assert(abs(x) <= 0x10_0000 * u);
    assert(abs(x * u) <= 0x100_0000_0000 * u * (2 * u)) by (nonlinear_arith)
        requires
            abs(x) <= 0x10_0000 * u,
            u > 0,
    ;
    lemma_over_error(a, single_of(2));
    let r = a.over_spec(single_of(2)).scaled();
    assert(r * (2 * u) - x * u == (2 * r - x) * u && abs(x * u) == abs(x) * u) by (nonlinear_arith)
        requires
            u > 0,
    ;
    let (p, q) = (2 * r - x, abs(x));
    assert(0x80_0000 * abs(p) <= q + 0x80_0000 * 2) by (nonlinear_arith)
        requires
            0x80_0000 * abs(p * u) <= q * u + 0x80_0000 * (2 * u),
            u > 0,
    ;
    assert((2 * m) * u == 2 * (m * u) && (i + 1) * t == i * t + t) by (nonlinear_arith);
}

/// Whole pixels are exact.
pub proof fn lemma_near_whole(n: int)
    requires
        -38_000 <= n <= 38_000,
    ensures
        near(single_of(n), 768 * n, 0),
{
    lemma_signed_exact(n);
    let u = unit();
    assert(768 * (n * u) == (768 * n) * u) by (nonlinear_arith);
    assert(0 * (0x200_0000 * fine()) == 0) by (nonlinear_arith);
}

/// Resolutions of up to a hundredfold.
pub open spec fn is_fine_resolution(dpi: int) -> bool {
    96 <= dpi <= 9600
}

/// A number of points is what it says, nearly.
pub proof fn lemma_near_points(n: int, dpi: int)
    requires
        0 <= n <= 300,
        is_fine_resolution(dpi),
    ensures
        near(points(n, dpi), 8 * (n * dpi), 1),
{
    lemma_units();
    let (u, e, k) = (unit(), fine(), n * dpi);
    assert(0 <= k <= 2_880_000) by (nonlinear_arith)
        requires
            0 <= n <= 300,
            96 <= dpi <= 9600,
            k == n * dpi,
    ;
    lemma_signed_exact(n);
    lemma_signed_exact(dpi);
    lemma_signed_exact(k);
    lemma_signed_exact(96);
    lemma_sign(single_of(96));
    let x = single_of(k);
    assert(single_of(n).times_spec(single_of(dpi)) == x) by {
        reveal(Single::times_spec);
        lemma_exact(x, u, false);
        assert((n * u) * (dpi * u) == (k * u) * u) by (nonlinear_arith)
            requires
                k == n * dpi,
        ;
    }
    assert(abs((k * u) * u) == (k * u) * u && (k * u) * u <= 0x100_0000_0000 * u * (96 * u))
        by (nonlinear_arith)
        requires
            0 <= k <= 2_880_000,
            u > 0,
    ;
    lemma_over_error(x, single_of(96));
    let r = points(n, dpi).scaled();
    assert(r * (96 * u) - (k * u) * u == (96 * r - k * u) * u) by (nonlinear_arith);
    let (p, q) = (96 * r - k * u, k * u);
    assert(0x80_0000 * abs(p) <= q + 0x80_0000 * 96) by (nonlinear_arith)
        requires
            0x80_0000 * abs(p * u) <= q * u + 0x80_0000 * (96 * u),
            u > 0,
            q >= 0,
    ;
    assert(k * u <= 2_880_000 * u && (8 * k) * u == 8 * (k * u)) by (nonlinear_arith)
        requires
            k <= 2_880_000,
            u > 0,
    ;
}

// ---------------------------------------------------------------------------
// What is on the card
// ---------------------------------------------------------------------------

/// The gradients of a drawing: their areas and colours, in order.
pub open spec fn gradients(s: Seq<Shape>) -> Seq<(RoundRect, u32, u32)>
    decreases s.len(),
{
    if s.len() == 0 {
        Seq::empty()
    } else {
        (match s[0] {
            Shape::Gradient { area, top, bottom } => seq![(area, top, bottom)],
            _ => Seq::empty(),
        }) + gradients(s.drop_first())
    }
}

/// The areas that a drawing fills with a colour, in order.
pub open spec fn fills(s: Seq<Shape>, word: u32) -> Seq<RoundRect>
    decreases s.len(),
{
    if s.len() == 0 {
        Seq::empty()
    } else {
        (match s[0] {
            Shape::Fill { area, color } if color == word => seq![area],
            _ => Seq::empty(),
        }) + fills(s.drop_first(), word)
    }
}

proof fn lemma_joined(a: Seq<Shape>, b: Seq<Shape>, word: u32)
    ensures
        gradients(a + b) == gradients(a) + gradients(b),
        fills(a + b, word) == fills(a, word) + fills(b, word),
    decreases a.len(),
{
    if a.len() == 0 {
        assert(a + b == b);
        assert(gradients(a) + gradients(b) == gradients(b));
        assert(fills(a, word) + fills(b, word) == fills(b, word));
    } else {
        lemma_joined(a.drop_first(), b, word);
        assert((a + b).drop_first() == a.drop_first() + b);
        assert(gradients(a + b) =~= gradients(a) + gradients(b));
        assert(fills(a + b, word) =~= fills(a, word) + fills(b, word));
    }
}

proof fn lemma_alone(x: Shape, word: u32)
    ensures
        gradients(seq![x]) == (match x {
            Shape::Gradient { area, top, bottom } => seq![(area, top, bottom)],
            _ => Seq::empty(),
        }),
        fills(seq![x], word) == (match x {
            Shape::Fill { area, color } if color == word => seq![area],
            _ => Seq::empty(),
        }),
        gradients(Seq::<Shape>::empty()) == Seq::<(RoundRect, u32, u32)>::empty(),
        fills(Seq::<Shape>::empty(), word) == Seq::<RoundRect>::empty(),
{
    let s = seq![x];
    assert(s.drop_first() == Seq::<Shape>::empty());
    assert(gradients(s.drop_first()) == Seq::<(RoundRect, u32, u32)>::empty());
    assert(fills(s.drop_first(), word) == Seq::<RoundRect>::empty());
    assert(gradients(s) =~= (match x {
        Shape::Gradient { area, top, bottom } => seq![(area, top, bottom)],
        _ => Seq::empty(),
    }));
    assert(fills(s, word) =~= (match x {
        Shape::Fill { area, color } if color == word => seq![area],
        _ => Seq::empty(),
    }));
}

/// How to read a list that is put together from others.
pub proof fn lemma_lists(word: u32)
    ensures
        forall|a: Seq<Shape>, b: Seq<Shape>| #[trigger]
            gradients(a + b) == gradients(a) + gradients(b),
        forall|a: Seq<Shape>, b: Seq<Shape>| #[trigger]
            fills(a + b, word) == fills(a, word) + fills(b, word),
        forall|x: Shape| #[trigger]
            gradients(seq![x]) == (match x {
                Shape::Gradient { area, top, bottom } => seq![(area, top, bottom)],
                _ => Seq::empty(),
            }),
        forall|x: Shape| #[trigger]
            fills(seq![x], word) == (match x {
                Shape::Fill { area, color } if color == word => seq![area],
                _ => Seq::empty(),
            }),
        forall|t: bool, x: Shape| #[trigger]
            gradients(maybe(t, x)) == (match x {
                Shape::Gradient { area, top, bottom } if t => seq![(area, top, bottom)],
                _ => Seq::empty(),
            }),
        forall|t: bool, x: Shape| #[trigger]
            fills(maybe(t, x), word) == (match x {
                Shape::Fill { area, color } if t && color == word => seq![area],
                _ => Seq::empty(),
            }),
        gradients(Seq::<Shape>::empty()) == Seq::<(RoundRect, u32, u32)>::empty(),
        fills(Seq::<Shape>::empty(), word) == Seq::<RoundRect>::empty(),
{
    assert forall|a: Seq<Shape>, b: Seq<Shape>| #[trigger] gradients(a + b) == gradients(a)
        + gradients(b) by {
        lemma_joined(a, b, word);
    }
    assert forall|a: Seq<Shape>, b: Seq<Shape>| #[trigger] fills(a + b, word) == fills(a, word)
        + fills(b, word) by {
        lemma_joined(a, b, word);
    }
    assert forall|x: Shape| #[trigger] gradients(seq![x]) == (match x {
        Shape::Gradient { area, top, bottom } => seq![(area, top, bottom)],
        _ => Seq::empty(),
    }) by {
        lemma_alone(x, word);
    }
    assert forall|x: Shape| #[trigger] fills(seq![x], word) == (match x {
        Shape::Fill { area, color } if color == word => seq![area],
        _ => Seq::empty(),
    }) by {
        lemma_alone(x, word);
    }
}

/// How to read the gradients of a list that is put together from others.
pub proof fn lemma_shapes_joined()
    ensures
        forall|a: Seq<Shape>, b: Seq<Shape>| #[trigger]
            gradients(a + b) == gradients(a) + gradients(b),
        forall|x: Shape| #[trigger]
            gradients(seq![x]) == (match x {
                Shape::Gradient { area, top, bottom } => seq![(area, top, bottom)],
                _ => Seq::empty(),
            }),
        gradients(Seq::<Shape>::empty()) == Seq::<(RoundRect, u32, u32)>::empty(),
{
    lemma_lists(0);
}

/// The colour of the track of the level.
pub open spec fn track_word() -> u32 {
    0x26FF_FFFF
}

/// The face of an upright bar has one track, and the level in it.
proof fn lemma_upright(
    view: BarView,
    pad: Single,
    card_w: Single,
    card_h: Single,
    dpi: i32,
    accent: (u8, u8, u8),
    pct: Single,
)
    ensures
        ({
            let face = draw_vertical_shapes(view, pad, card_w, card_h, dpi, accent, pct);
            let cx = pad.plus_spec(card_w.over_spec(single_of(2)));
            let track_top = pad.plus_spec(points(58, dpi as int));
            let track_bottom = pad.plus_spec(card_h).minus_spec(points(42, dpi as int));
            let track = RoundRect {
                x: cx.minus_spec(half_points(21, dpi as int)),
                y: track_top,
                w: points(10, dpi as int),
                h: track_bottom.minus_spec(track_top),
                r: points(10, dpi as int).over_spec(single_of(2)),
            };
            let level = track.h.times_spec(pct);
            &&& fills(face, track_word()) == seq![track]
            &&& gradients(face) == if hundredths(50).below_spec(level) {
                seq![
                    (
                        RoundRect { y: track_bottom.minus_spec(level), h: level, ..track },
                        fill_words(view.muted, accent).0,
                        fill_words(view.muted, accent).1,
                    ),
                ]
            } else {
                Seq::empty()
            }
        }),
{
    lemma_lists(track_word());
    let face = draw_vertical_shapes(view, pad, card_w, card_h, dpi, accent, pct);
    let g = gradients(face);
    let f = fills(face, track_word());
    assert(f.len() == 1);
    assert(f =~= seq![f[0]]);
    assert(g.len() <= 1);
    assert(g.len() == 1 ==> g =~= seq![g[0]]);
    assert(g.len() == 0 ==> g =~= Seq::empty());
}

/// The face of a lying bar has one track, and the level in it.
proof fn lemma_lying(
    view: BarView,
    pad: Single,
    card_w: Single,
    card_h: Single,
    dpi: i32,
    accent: (u8, u8, u8),
    pct: Single,
)
    ensures
        ({
            let face = draw_horizontal_shapes(view, pad, card_w, card_h, dpi, accent, pct);
            let left = pad.plus_spec(points(62, dpi as int));
            let right = pad.plus_spec(card_w).minus_spec(points(74, dpi as int));
            let height = points(10, dpi as int);
            let track = RoundRect {
                x: left,
                y: pad.plus_spec(card_h.over_spec(single_of(2))).minus_spec(
                    height.over_spec(single_of(2)),
                ).plus_spec(points(6, dpi as int)),
                w: right.minus_spec(left),
                h: height,
                r: height.over_spec(single_of(2)),
            };
            let level = track.w.times_spec(pct);
            &&& fills(face, track_word()) == seq![track]
            &&& gradients(face) == if hundredths(50).below_spec(level) {
                seq![
                    (
                        RoundRect { w: level, ..track },
                        fill_words(view.muted, accent).1,
                        fill_words(view.muted, accent).0,
                    ),
                ]
            } else {
                Seq::empty()
            }
        }),
{
    lemma_lists(track_word());
    let face = draw_horizontal_shapes(view, pad, card_w, card_h, dpi, accent, pct);
    let g = gradients(face);
    let f = fills(face, track_word());
    assert(f.len() == 1);
    assert(f =~= seq![f[0]]);
    assert(g.len() <= 1);
    assert(g.len() == 1 ==> g =~= seq![g[0]]);
    assert(g.len() == 0 ==> g =~= Seq::empty());
}

impl Bar {
    /// Everything that is drawn.
    pub open spec fn drawing(self) -> Seq<Shape> {
        self.card() + self.tail() + self.face()
    }

    /// A bar on a surface of its own size.
    pub open spec fn has_own_size(self) -> bool {
        &&& is_fine_resolution(self.dpi as int)
        &&& self.width == window_size(self.view.settings, self.dpi as int).0
        &&& self.height == window_size(self.view.settings, self.dpi as int).1
    }
}

/// The card and the tail have one gradient, and nothing of another colour.
proof fn lemma_card(bar: Bar, word: u32)
    requires
        word >= 0x1100_0000,
    ensures
        gradients(bar.drawing()).len() == 1 + gradients(bar.face()).len(),
        gradients(bar.drawing()).skip(1) == gradients(bar.face()),
        fills(bar.drawing(), word) == fills(bar.face(), word),
{
    lemma_lists(word);
    let (card, tail, face) = (bar.card(), bar.tail(), bar.face());
    assert(gradients(card).len() == 1);
    assert(gradients(tail).len() == 0);
    assert(fills(card, word).len() == 0);
    assert(fills(tail, word).len() == 0);
    assert(gradients(bar.drawing()).skip(1) =~= gradients(face));
    assert(fills(bar.drawing(), word) =~= fills(face, word));
}

/// The length of a track or of what is in it.
pub open spec fn length_of(area: RoundRect, upright: bool) -> Single {
    if upright {
        area.h
    } else {
        area.w
    }
}

/// The share of a track that a percentage fills.
pub proof fn lemma_filled(t: Single, d: Single)
    requires
        t.is_finite(),
        unit() <= t.scaled() <= 0x10_0000 * unit(),
        d.is_finite(),
        0 <= d.scaled() <= 100 * unit(),
    ensures
        ({
            let p = d.over_spec(single_of(100)).clamped(zero(false), of_bits(ONE));
            let f = t.times_spec(p);
            &&& f.is_finite() && 0 <= f.scaled() <= t.scaled()
            &&& p.is_finite() && 0 <= p.rank() <= 0x3F80_0000
            &&& 1_000_000 * abs(100 * (f.scaled() * unit()) - t.scaled() * d.scaled()) <= 100 * (
            t.scaled() * unit())
            &&& d.scaled() == 0 ==> f.scaled() == 0
            &&& d.scaled() == 100 * unit() ==> f.scaled() == t.scaled()
            &&& p == d.over_spec(single_of(100))
        }),
{
    let (u, e) = (unit(), fine());
    let (c, one, none) = (single_of(100), of_bits(ONE), zero(false));
    let q = d.over_spec(c);
    lemma_units();
    lemma_one_scaled();
    lemma_signed_exact(100);
    lemma_sign(c);
    lemma_sign(d);
    lemma_sign(t);
    lemma_sign(none);
    lemma_rank_order(none, d);
    lemma_rank_order(d, c);
    lemma_over_keeps_order(none, d, c);
    lemma_over_keeps_order(d, c, c);
    lemma_whole_share(c);
    lemma_none_over(c);
    if d.scaled() == 0 {
        lemma_over_keeps_order(d, none, c);
    }
    if d.scaled() == 100 * u {
        lemma_over_keeps_order(c, d, c);
    }
    let x = d.scaled();
    assert(abs(x * u) == x * u && x * u <= 0x100_0000_0000 * u * (100 * u)) by (nonlinear_arith)
        requires
            0 <= x <= 100 * u,
            u > 0,
    ;
    lemma_over_error(d, c);
    let p = q.scaled();
    lemma_sign(q);
    assert(p * (100 * u) - x * u == (100 * p - x) * u) by (nonlinear_arith);
    let w = 100 * p - x;
    assert(0x80_0000 * abs(w) <= x + 0x80_0000 * 100) by (nonlinear_arith)
        requires
            0x80_0000 * abs(w * u) <= x * u + 0x80_0000 * (100 * u),
            u > 0,
            x >= 0,
    ;
    assert(abs(w) <= 101 * e);
    lemma_share(t, q);
    lemma_rank_order(q, one);
    let (y, f) = (t.scaled(), t.times_spec(q));
    lemma_rank_order(none, f);
    lemma_rank_order(f, t);
    assert(abs(y * p) == y * p && y * p <= y * u && y * p <= 0x100_0000_0000 * u * u)
        by (nonlinear_arith)
        requires
            0 <= p <= u,
            0 <= y <= 0x10_0000 * u,
    ;
    lemma_times_error(t, q);
    let v = f.scaled();
    assert(100 * (y * p) == y * x + y * w) by (nonlinear_arith)
        requires
            w == 100 * p - x,
    ;
    assert(abs(y * w) <= 101 * (y * e)) by (nonlinear_arith)
        requires
            abs(w) <= 101 * e,
            y >= 0,
    ;
    assert(y * u == 0x80_0000 * (y * e)) by (nonlinear_arith)
        requires
            u == 0x80_0000 * e,
    ;
    assert(u <= y * e) by (nonlinear_arith)
        requires
            u <= y,
            e >= 1,
            u > 0,
    ;
    assert(abs(v * u - y * p) <= 2 * (y * e));
}

pub proof fn lemma_none_over(c: Single)
    requires
        c.is_finite(),
        c.rank() > 0,
    ensures
        zero(false).over_spec(c).rank() == 0,
        zero(false).over_spec(c).is_finite(),
{
    reveal(Single::over_spec);
    lemma_units();
    lemma_sign(zero(false));
    lemma_sign(c);
    let u = unit();
    assert(0 * u == 0) by (nonlinear_arith);
    lemma_zero_rounds(c.scaled(), false);
}

/// What `near` means in pixels.
pub proof fn lemma_near_pixels(x: Single, m: int, c: int)
    requires
        near(x, m, c),
    ensures
        abs(768 * x.scaled() - m * unit()) <= 4 * c * unit(),
{
    lemma_units();
    let (u, e) = (unit(), fine());
    assert(c * (0x200_0000 * e) == 4 * c * u) by (nonlinear_arith)
        requires
            u == 0x80_0000 * e,
    ;
}

pub proof fn lemma_near_zero()
    ensures
        near(zero(false), 0, 0),
{
    lemma_sign(zero(false));
    let u = unit();
    assert(0 * u == 0) by (nonlinear_arith);
    assert(0 * (0x200_0000 * fine()) == 0) by (nonlinear_arith);
}

/// The room for the shadow and the size of the card.
pub proof fn lemma_card_size(bar: Bar)
    requires
        bar.has_own_size(),
    ensures
        ({
            let d = bar.dpi as int;
            let tail = if bar.is_docked() {
                72 * d
            } else {
                0
            };
            let (w, h) = (768 * bar.width - 160 * d, 768 * bar.height - 160 * d - tail);
            let (card_w, card_h) = if bar.is_vertical() {
                (66int, 226int)
            } else {
                (300int, 86int)
            };
            &&& near(bar.pad(), 80 * d, 1)
            &&& near(bar.tail_h(), tail, 1)
            &&& near(bar.card_w(), w, 4)
            &&& near(bar.card_h(), h, 6)
            &&& 8 * (card_w * d) - 768 < w <= 8 * (card_w * d)
            &&& 8 * (card_h * d) - 768 < h <= 8 * (card_h * d)
            &&& bar.is_vertical() ==> 528 * d - 768 < w <= 528 * d && 1808 * d - 768 < h <= 1808 * d
            &&& !bar.is_vertical() ==> 2400 * d - 768 < w <= 2400 * d && 688 * d - 768 < h <= 688
                * d
        }),
{
    let d = bar.dpi as int;
    law_the_window_scales_with_the_resolution(bar.view.settings, d);
    let (w, h) = (bar.width as int, bar.height as int);
    if bar.is_vertical() {
        assert(96 * w <= 86 * d < 96 * (w + 1));
        assert(bar.is_docked() ==> 96 * h <= 255 * d < 96 * (h + 1));
        assert(!bar.is_docked() ==> 96 * h <= 246 * d < 96 * (h + 1));
    } else {
        assert(96 * w <= 320 * d < 96 * (w + 1));
        assert(bar.is_docked() ==> 96 * h <= 115 * d < 96 * (h + 1));
        assert(!bar.is_docked() ==> 96 * h <= 106 * d < 96 * (h + 1));
    }
    lemma_near_points(10, d);
    lemma_near_points(9, d);
    lemma_near_zero();
    lemma_near_whole(bar.width as int);
    lemma_near_whole(bar.height as int);
    lemma_near_twice(bar.pad(), 80 * d, 1);
    let twice = bar.pad().times_spec(single_of(2));
    lemma_near_minus(single_of(bar.width as int), 768 * bar.width, 0, twice, 160 * d, 3);
    lemma_near_minus(single_of(bar.height as int), 768 * bar.height, 0, twice, 160 * d, 3);
    let inner = single_of(bar.height as int).minus_spec(twice);
    let tail = if bar.is_docked() {
        72 * d
    } else {
        0
    };
    let t = 0x200_0000 * fine();
    lemma_units();
    assert(near(bar.tail_h(), tail, 1)) by {
        assert(0 * t == 0 && 1 * t == t) by (nonlinear_arith);
    }
    lemma_near_minus(inner, 768 * bar.height - 160 * d, 4, bar.tail_h(), tail, 1);
}

/// The track of an upright bar.
pub proof fn lemma_upright_track(bar: Bar)
    requires
        bar.has_own_size(),
        bar.is_vertical(),
    ensures
        ({
            let d = bar.dpi as int;
            let top = bar.pad().plus_spec(points(58, d));
            let bottom = bar.pad().plus_spec(bar.card_h()).minus_spec(points(42, d));
            let t = bottom.minus_spec(top);
            let tail = if bar.is_docked() {
                72 * d
            } else {
                0
            };
            let m = 768 * bar.height - 416 * d - tail;
            &&& near(top, 544 * d, 3)
            &&& near(bottom, m, 10)
            &&& near(t, m - 544 * d, 14)
            &&& 1008 * d - 768 < m - 544 * d <= 1008 * d
        }),
{
    let d = bar.dpi as int;
    lemma_card_size(bar);
    lemma_near_points(58, d);
    lemma_near_points(42, d);
    let tail = if bar.is_docked() {
        72 * d
    } else {
        0
    };
    let h = 768 * bar.height - 160 * d - tail;
    lemma_near_plus(bar.pad(), 80 * d, 1, points(58, d), 464 * d, 1);
    lemma_near_plus(bar.pad(), 80 * d, 1, bar.card_h(), h, 6);
    let low = bar.pad().plus_spec(bar.card_h());
    lemma_near_minus(low, 80 * d + h, 8, points(42, d), 336 * d, 1);
    let (top, bottom) = (bar.pad().plus_spec(points(58, d)), low.minus_spec(points(42, d)));
    lemma_near_minus(bottom, 80 * d + h - 336 * d, 10, top, 544 * d, 3);
}

/// The track of a lying bar.
pub proof fn lemma_lying_track(bar: Bar)
    requires
        bar.has_own_size(),
        !bar.is_vertical(),
    ensures
        ({
            let d = bar.dpi as int;
            let left = bar.pad().plus_spec(points(62, d));
            let right = bar.pad().plus_spec(bar.card_w()).minus_spec(points(74, d));
            let t = right.minus_spec(left);
            let m = 768 * bar.width - 672 * d;
            &&& near(left, 576 * d, 3)
            &&& near(right, m, 8)
            &&& near(t, m - 576 * d, 12)
            &&& 1312 * d - 768 < m - 576 * d <= 1312 * d
        }),
{
    let d = bar.dpi as int;
    lemma_card_size(bar);
    lemma_near_points(62, d);
    lemma_near_points(74, d);
    let w = 768 * bar.width - 160 * d;
    lemma_near_plus(bar.pad(), 80 * d, 1, points(62, d), 496 * d, 1);
    lemma_near_plus(bar.pad(), 80 * d, 1, bar.card_w(), w, 4);
    let far = bar.pad().plus_spec(bar.card_w());
    lemma_near_minus(far, 80 * d + w, 6, points(74, d), 592 * d, 1);
    let (left, right) = (bar.pad().plus_spec(points(62, d)), far.minus_spec(points(74, d)));
    lemma_near_minus(right, 80 * d + w - 592 * d, 8, left, 576 * d, 3);
}

/// A track that is nearly `n` points long, in pixels.
proof fn lemma_track_length(t: Single, m: int, c: int, n: int, d: int)
    requires
        near(t, m, c),
        0 <= c <= 20,
        100 <= n <= 200,
        is_fine_resolution(d),
        8 * (n * d) - 768 < m <= 8 * (n * d),
    ensures
        abs(96 * t.scaled() - (n * d) * unit()) <= 192 * unit(),
        unit() <= t.scaled() <= 40_000 * unit(),
{
    lemma_units();
    lemma_near_pixels(t, m, c);
    let (u, k) = (unit(), n * d);
    assert(9600 <= k <= 1_920_000) by (nonlinear_arith)
        requires
            100 <= n <= 200,
            96 <= d <= 9600,
            k == n * d,
    ;
    assert(m * u <= (8 * k) * u && m * u >= (8 * k) * u - 768 * u && 4 * c * u <= 80 * u && (8
        * k) * u == 8 * (k * u) && 9600 * u <= k * u <= 1_920_000 * u) by (nonlinear_arith)
        requires
            8 * k - 768 < m <= 8 * k,
            0 <= c <= 20,
            9600 <= k <= 1_920_000,
            u > 0,
    ;
}

/// The level in a frame: how much of its track is filled. At 96 dots per inch
/// the track of an upright bar is 126 pixels long and that of a lying one 164,
/// and it scales with the resolution, within two pixels. The level lies in the
/// track and starts where the track does, at the bottom or on the left. Its
/// length is the percentage of the track's, within a millionth; where that is
/// too little to see, below 0.6 pixels, there may be none. Nothing is shown
/// for 0 percent, and for 100 percent the whole track is filled.
pub proof fn law_the_level_fills_its_share_of_the_track(bar: Bar)
    requires
        bar.has_own_size(),
        bar.display_pct.is_finite(),
        0 <= bar.display_pct.scaled() <= 100 * pow2(149),
    ensures
        ({
            let one = pow2(149) as int;
            let upright = bar.view.settings.orientation == Orientation::Vertical;
            let tracks = fills(bar.drawing(), 0x26FF_FFFF);
            let levels = gradients(bar.drawing()).skip(1);
            let track = tracks[0];
            let whole = length_of(track, upright).scaled();
            let points = if upright {
                126int
            } else {
                164int
            };
            &&& tracks.len() == 1
            &&& abs(96 * whole - (points * bar.dpi) * one) <= 192 * one
            &&& levels.len() <= 1
            &&& levels.len() == 1 ==> {
                let level = levels[0].0;
                let filled = length_of(level, upright).scaled();
                &&& 1_000_000 * abs(100 * (filled * one) - whole * bar.display_pct.scaled()) <= 100
                    * (whole * one)
                &&& level.x == track.x
                &&& level.r == track.r
                &&& upright ==> level.w == track.w && 10 * abs(
                    (level.y.scaled() + level.h.scaled()) - (track.y.scaled() + track.h.scaled()),
                ) <= one
                &&& !upright ==> level.y == track.y && level.h == track.h
            }
            &&& levels.len() == 0 ==> 10 * (whole * bar.display_pct.scaled()) <= 600 * (one * one)
            &&& bar.display_pct.scaled() == 0 ==> levels.len() == 0
            &&& bar.display_pct.scaled() == 100 * one ==> levels.len() == 1 && length_of(
                levels[0].0,
                upright,
            ).scaled() == whole
        }),
{
    let (u, e) = (unit(), fine());
    lemma_units();
    lemma_card(bar, track_word());
    lemma_hundredth(50);
    let d = bar.dpi as int;
    let pct = bar.display_pct.over_spec(single_of(100)).clamped(zero(false), of_bits(ONE));
    let shown = bar.display_pct;
    let (pad, card_w, card_h) = (bar.pad(), bar.card_w(), bar.card_h());
    if bar.is_vertical() {
        lemma_upright(bar.view, pad, card_w, card_h, bar.dpi, bar.accent, pct);
        lemma_upright_track(bar);
        let tail = if bar.is_docked() {
            72 * d
        } else {
            0
        };
        let m = 768 * bar.height - 416 * d - tail;
        let top = pad.plus_spec(points(58, d));
        let bottom = pad.plus_spec(card_h).minus_spec(points(42, d));
        let t = bottom.minus_spec(top);
        lemma_track_length(t, m - 544 * d, 14, 126, d);
        lemma_filled(t, shown);
        let f = t.times_spec(pct);
        lemma_rank_order(hundredths(50), f);
        lemma_seen(t.scaled(), shown.scaled(), f.scaled());
        lemma_near_pixels(top, 544 * d, 3);
        lemma_near_pixels(bottom, m, 10);
        assert(m * u <= 0x1C0_0000 * u && m * u >= 0 && (544 * d) * u <= 0x1C0_0000 * u && (544
            * d) * u >= 0) by (nonlinear_arith)
            requires
                0 <= m <= 0x1C0_0000,
                0 <= 544 * d <= 0x1C0_0000,
                u > 0,
        ;
        lemma_minus_error(bottom, top);
        lemma_minus_error(bottom, f);
    } else {
        lemma_lying(bar.view, pad, card_w, card_h, bar.dpi, bar.accent, pct);
        lemma_lying_track(bar);
        let left = pad.plus_spec(points(62, d));
        let right = pad.plus_spec(card_w).minus_spec(points(74, d));
        let t = right.minus_spec(left);
        lemma_track_length(t, 768 * bar.width - 672 * d - 576 * d, 12, 164, d);
        lemma_filled(t, shown);
        let f = t.times_spec(pct);
        lemma_rank_order(hundredths(50), f);
        lemma_seen(t.scaled(), shown.scaled(), f.scaled());
    }
}

/// What half a pixel is at most of.
proof fn lemma_seen(t: int, x: int, f: int)
    requires
        1_000_000 * abs(100 * (f * unit()) - t * x) <= 100 * (t * unit()),
        0 <= t <= 40_000 * unit(),
    ensures
        100 * f <= 50 * unit() + 51 * fine() ==> 10 * (t * x) <= 600 * (unit() * unit()),
{
    lemma_units();
    let (u, e) = (unit(), fine());
    if 100 * f <= 50 * u + 51 * e {
        assert(100 * (f * u) <= 51 * (u * u) && t * u <= 40_000 * (u * u)) by (nonlinear_arith)
            requires
                100 * f <= 50 * u + 51 * e,
                u == 0x80_0000 * e,
                e > 0,
                t <= 40_000 * u,
        ;
    }
}

/// How long the level in a frame is; nothing where none is shown.
pub open spec fn level_length(bar: Bar) -> int {
    let levels = gradients(bar.drawing()).skip(1);
    if levels.len() == 0 {
        0
    } else {
        length_of(levels[0].0, bar.view.settings.orientation == Orientation::Vertical).scaled()
    }
}

/// The length of the track, as it is computed.
pub open spec fn computed_track(bar: Bar) -> Single {
    let d = bar.dpi as int;
    if bar.is_vertical() {
        bar.pad().plus_spec(bar.card_h()).minus_spec(points(42, d)).minus_spec(
            bar.pad().plus_spec(points(58, d)),
        )
    } else {
        bar.pad().plus_spec(bar.card_w()).minus_spec(points(74, d)).minus_spec(
            bar.pad().plus_spec(points(62, d)),
        )
    }
}

spec fn computed_level(bar: Bar) -> Single {
    computed_track(bar).times_spec(
        bar.display_pct.over_spec(single_of(100)).clamped(zero(false), of_bits(ONE)),
    )
}

proof fn lemma_level_length(bar: Bar)
    requires
        bar.has_own_size(),
    ensures
        computed_track(bar).is_finite(),
        unit() <= computed_track(bar).scaled() <= 40_000 * unit(),
        level_length(bar) == if hundredths(50).below_spec(computed_level(bar)) {
            computed_level(bar).scaled()
        } else {
            0
        },
        fills(bar.drawing(), 0x26FF_FFFF).len() == 1,
        length_of(fills(bar.drawing(), 0x26FF_FFFF)[0], bar.is_vertical()) == computed_track(bar),
{
    lemma_card(bar, track_word());
    let d = bar.dpi as int;
    let pct = bar.display_pct.over_spec(single_of(100)).clamped(zero(false), of_bits(ONE));
    let (pad, card_w, card_h) = (bar.pad(), bar.card_w(), bar.card_h());
    if bar.is_vertical() {
        lemma_upright(bar.view, pad, card_w, card_h, bar.dpi, bar.accent, pct);
        lemma_upright_track(bar);
        let tail = if bar.is_docked() {
            72 * d
        } else {
            0
        };
        let m = 768 * bar.height - 416 * d - tail;
        lemma_track_length(computed_track(bar), m - 544 * d, 14, 126, d);
    } else {
        lemma_lying(bar.view, pad, card_w, card_h, bar.dpi, bar.accent, pct);
        lemma_lying_track(bar);
        lemma_track_length(
            computed_track(bar),
            768 * bar.width - 672 * d - 576 * d,
            12,
            164,
            d,
        );
    }
}

/// Of two frames that differ in their level alone, the one with the higher
/// level never shows a shorter one, and shows a longer one where the levels
/// differ by a thousandth of a percent or more and there is any to see.
pub proof fn law_a_higher_level_is_longer(a: Bar, b: Bar)
    requires
        a.has_own_size(),
        b == (Bar { display_pct: b.display_pct, ..a }),
        a.display_pct.is_finite(),
        b.display_pct.is_finite(),
        0 <= a.display_pct.scaled() <= b.display_pct.scaled() <= 100 * pow2(149),
    ensures
        level_length(a) <= level_length(b),
        1000 * (b.display_pct.scaled() - a.display_pct.scaled()) >= pow2(149) && level_length(b) > 0
            ==> level_length(a) < level_length(b),
{
    let u = unit();
    lemma_units();
    lemma_level_length(a);
    lemma_level_length(b);
    let (t, c) = (computed_track(a), single_of(100));
    assert(computed_track(b) == t);
    lemma_filled(t, a.display_pct);
    lemma_filled(t, b.display_pct);
    lemma_signed_exact(100);
    lemma_sign(c);
    lemma_sign(t);
    lemma_rank_order(a.display_pct, b.display_pct);
    lemma_over_keeps_order(a.display_pct, b.display_pct, c);
    let (p, q) = (a.display_pct.over_spec(c), b.display_pct.over_spec(c));
    lemma_times_commutes(t, p);
    lemma_times_commutes(t, q);
    lemma_times_keeps_order(p, q, t);
    let (f, g) = (computed_level(a), computed_level(b));
    lemma_rank_order(f, g);
    lemma_hundredth(50);
    lemma_rank_order(hundredths(50), f);
    lemma_rank_order(hundredths(50), g);
    let (x, y, w) = (a.display_pct.scaled(), b.display_pct.scaled(), t.scaled());
    if 1000 * (y - x) >= u {
        assert(1000 * (w * y - w * x) >= w * u && w * u > 0) by (nonlinear_arith)
            requires
                1000 * (y - x) >= u,
                w >= u,
                u > 0,
        ;
        let (m, n) = (f.scaled(), g.scaled());
        assert(100 * (n * u) > 100 * (m * u));
        assert(n > m) by (nonlinear_arith)
            requires
                n * u > m * u,
                u > 0,
        ;
    }
}

// ---------------------------------------------------------------------------
// Colours
// ---------------------------------------------------------------------------

/// The parts of a colour word: how opaque, red, green and blue it is.
pub open spec fn channels_of(word: u32) -> (int, int, int, int) {
    (
        word as int / 0x100_0000,
        word as int / 0x1_0000 % 256,
        word as int / 0x100 % 256,
        word as int % 256,
    )
}

/// A channel lightened by `n` hundredths goes that part of the way to white,
/// cut to a whole number.
pub proof fn law_lightening_goes_toward_white(c: u8, n: int)
    requires
        0 <= n <= 100,
    ensures
        ({
            let s = shaded(c, hundredths(n));
            let exact = 100 * c + (255 - c) * n;
            &&& c <= s <= 255
            &&& exact - 101 <= 100 * s <= exact + 1
            &&& n == 0 ==> s == c
        }),
{
    let (u, e) = (unit(), fine());
    let (v, full, amount) = (single_of(c as int), of_bits(FULL), hundredths(n));
    lemma_units();
    lemma_signed_exact(c as int);
    lemma_signed_exact(255);
    lemma_hundredth(n);
    lemma_hundredths(n);
    assert(full.step() == 133 && full.significand() == 0xFF_0000);
    lemma_pow2_big();
    lemma_pow2_adds(16, 133);
    assert(full.scaled() == 255 * u);
    let rest = full.minus_spec(v);
    assert(0 <= c * u <= 255 * u) by (nonlinear_arith)
        requires
            0 <= c <= 255,
            u > 0,
    ;
    lemma_minus_error(full, v);
    lemma_exact_difference(c as int);
    lemma_sign(amount);
    lemma_one_scaled();
    lemma_rank_order(amount, of_bits(ONE));
    let (r, a) = (rest.scaled(), amount.scaled());
    assert(r == (255 - c) * u) by (nonlinear_arith)
        requires
            r == 255 * u - c * u,
    ;
    assert(abs(r * a) == r * a && r * a <= 255 * (u * u) && 255 * (u * u) <= 0x100_0000_0000 * u
        * u) by (nonlinear_arith)
        requires
            0 <= r <= 255 * u,
            0 <= a <= u,
    ;
    lemma_times_error(rest, amount);
    lemma_sign(rest);
    lemma_rank_order(zero(false), rest);
    lemma_sign(zero(false));
    lemma_share(rest, amount);
    let part = rest.times_spec(amount);
    lemma_rank_order(zero(false), part);
    lemma_rank_order(part, rest);
    let p = part.scaled();
    // 100 p is nearly n times the rest.
    let (k, w) = (255 - c, 100 * a - n * u);
    assert(100 * (r * a) == (k * n) * (u * u) + r * w) by (nonlinear_arith)
        requires
            r == k * u,
            w == 100 * a - n * u,
    ;
    assert((n + 1) * e <= 101 * e) by (nonlinear_arith)
        requires
            n <= 100,
            e > 0,
    ;
    assert(abs(r * w) <= 25_755 * (u * e)) by (nonlinear_arith)
        requires
            0 <= r <= 255 * u,
            abs(w) <= 101 * e,
    ;
    assert(u * u == 0x80_0000 * (u * e) && u <= u * e) by (nonlinear_arith)
        requires
            u == 0x80_0000 * e,
            e >= 1,
    ;
    let z = 100 * p - (k * n) * u;
    assert(z * u == 100 * (p * u) - (k * n) * (u * u)) by (nonlinear_arith)
        requires
            z == 100 * p - (k * n) * u,
    ;
    assert(abs(z * u) <= 60_000 * (u * e));
    assert(abs(z) <= 60_000 * e) by (nonlinear_arith)
        requires
            abs(z * u) <= 60_000 * (u * e),
            u > 0,
    ;
    lemma_plus_error(v, part);
    let moved = v.plus_spec(part);
    // Between the channel and white.
    lemma_plus_commutes(v, part);
    lemma_plus_commutes(v, rest);
    lemma_plus_commutes(v, zero(false));
    lemma_plus_zero(v, zero(false));
    lemma_plus_keeps_order(zero(false), part, v);
    lemma_plus_keeps_order(part, rest, v);
    assert(v.plus_spec(rest).rank() == full.rank()) by {
        reveal(Single::plus_spec);
        lemma_exact(full, 1, false);
    }
    lemma_rank_order(v, moved);
    lemma_rank_order(moved, full);
    lemma_to_int(moved);
    let s = shaded(c, amount);
    assert(s == moved.to_int(false));
    let m = moved.scaled();
    assert(100 * (c * u) + (k * n) * u == (100 * c + k * n) * u) by (nonlinear_arith);
    let exact = 100 * c + k * n;
    assert(abs(100 * m - exact * u) <= 100_000 * e);
    assert(c <= s <= 255 && exact - 101 <= 100 * s <= exact + 1) by (nonlinear_arith)
        requires
            s * u <= m < (s + 1) * u,
            c * u <= m <= 255 * u,
            abs(100 * m - exact * u) <= 100_000 * e,
            u == 0x80_0000 * e,
            e > 0,
    ;
    if n == 0 {
        assert(k * n == 0) by (nonlinear_arith)
            requires
                n == 0,
        ;
        assert(s <= c) by (nonlinear_arith)
            requires
                s * u <= m,
                abs(100 * m - (100 * c) * u) <= 100_000 * e,
                u == 0x80_0000 * e,
                e > 0,
        ;
    }
}

/// What is left of a channel to white is exact.
proof fn lemma_exact_difference(c: int)
    requires
        0 <= c <= 255,
    ensures
        of_bits(FULL).minus_spec(single_of(c)).scaled() == 255 * unit() - c * unit(),
{
    let (u, full) = (unit(), of_bits(FULL));
    lemma_units();
    assert(full.step() == 133 && full.significand() == 0xFF_0000);
    lemma_pow2_big();
    lemma_pow2_adds(16, 133);
    lemma_signed_exact(c);
    lemma_signed_exact(255 - c);
    lemma_negated(single_of(c));
    reveal(Single::minus_spec);
    reveal(Single::plus_spec);
    assert((255 - c) * u == 255 * u - c * u) by (nonlinear_arith);
    let z = single_of(255 - c);
    lemma_exact(z, 1, false);
    assert((255 - c) * u >= 0) by (nonlinear_arith)
        requires
            c <= 255,
            u > 0,
    ;
    lemma_zero_rounds(1, false);
    lemma_sign(zero(false));
}

/// The level is drawn in the accent, or in a dull red while muted, always
/// opaque: an upright one at its foot, a lying one where it starts, and toward
/// its other end no channel of the colour gets darker.
pub proof fn law_the_level_is_drawn_in_the_accent(bar: Bar)
    requires
        bar.has_own_size(),
    ensures
        ({
            let levels = gradients(bar.drawing()).skip(1);
            levels.len() > 0 ==> {
                let (base, end) = if bar.view.settings.orientation == Orientation::Vertical {
                    (levels[0].2, levels[0].1)
                } else {
                    (levels[0].1, levels[0].2)
                };
                let full = if bar.view.muted {
                    (150int, 62int, 62int)
                } else {
                    (bar.accent.0 as int, bar.accent.1 as int, bar.accent.2 as int)
                };
                &&& channels_of(base) == (255int, full.0, full.1, full.2)
                &&& channels_of(end).0 == 255
                &&& channels_of(end).1 >= full.0
                &&& channels_of(end).2 >= full.1
                &&& channels_of(end).3 >= full.2
            }
        }),
{
    lemma_card(bar, track_word());
    let pct = bar.display_pct.over_spec(single_of(100)).clamped(zero(false), of_bits(ONE));
    let (pad, card_w, card_h) = (bar.pad(), bar.card_w(), bar.card_h());
    lemma_upright(bar.view, pad, card_w, card_h, bar.dpi, bar.accent, pct);
    lemma_lying(bar.view, pad, card_w, card_h, bar.dpi, bar.accent, pct);
    lemma_fill_words(bar.view.muted, bar.accent);
}

pub proof fn lemma_channels(a: u8, r: u8, g: u8, b: u8)
    ensures
        channels_of(argb_word(a, r, g, b)) == (a as int, r as int, g as int, b as int),
{
    let low = g as int * 0x100 + b;
    let mid = r as int * 0x1_0000 + low;
    let word = a as int * 0x100_0000 + mid;
    assert(argb_word(a, r, g, b) == word);
    lemma_fundamental_div_mod_converse(word, 0x100_0000, a as int, mid);
    lemma_fundamental_div_mod_converse(word, 0x1_0000, a as int * 0x100 + r, low);
    lemma_fundamental_div_mod_converse(a as int * 0x100 + r, 0x100, a as int, r as int);
    let upper = a as int * 0x1_0000 + r as int * 0x100 + g;
    lemma_fundamental_div_mod_converse(word, 0x100, upper, b as int);
    lemma_fundamental_div_mod_converse(upper, 0x100, a as int * 0x100 + r, g as int);
}

proof fn lemma_fill_words(muted: bool, accent: (u8, u8, u8))
    ensures
        ({
            let (light, base) = fill_words(muted, accent);
            let full = if muted {
                (150int, 62int, 62int)
            } else {
                (accent.0 as int, accent.1 as int, accent.2 as int)
            };
            &&& channels_of(base) == (255int, full.0, full.1, full.2)
            &&& channels_of(light).0 == 255
            &&& channels_of(light).1 >= full.0
            &&& channels_of(light).2 >= full.1
            &&& channels_of(light).3 >= full.2
        }),
{
    law_lightening_goes_toward_white(150, 25);
    law_lightening_goes_toward_white(62, 25);
    law_lightening_goes_toward_white(accent.0, 28);
    law_lightening_goes_toward_white(accent.1, 28);
    law_lightening_goes_toward_white(accent.2, 28);
    let (c, n) = if muted {
        ((150u8, 62u8, 62u8), 25int)
    } else {
        (accent, 28int)
    };
    let s = shaded_color(c, hundredths(n));
    lemma_channels(255, c.0, c.1, c.2);
    lemma_channels(255, s.0, s.1, s.2);
}

// ---------------------------------------------------------------------------
// The meter and the mark at 0 dB
// ---------------------------------------------------------------------------

/// An area that is there only on a condition.
pub open spec fn area_if(there: bool, area: RoundRect) -> Seq<RoundRect> {
    if there {
        seq![area]
    } else {
        Seq::empty()
    }
}

/// The colour of the ground that the signal meter stands on, and of the mark
/// at 0 dB.
pub open spec fn ground_word() -> u32 {
    0x1EFF_FFFF
}

pub open spec fn mark_word() -> u32 {
    0x46FF_FFFF
}

/// Where things are on an upright face.
pub struct Face {
    pub track: RoundRect,
    pub ground: RoundRect,
    pub meter: RoundRect,
    pub meter_shown: bool,
    pub peak: RoundRect,
    pub peak_shown: bool,
    pub mark: RoundRect,
    pub mark_shown: bool,
}

pub open spec fn upright_face(bar: Bar) -> Face {
    let (view, pad, card_w, card_h, d) = (
        bar.view,
        bar.pad(),
        bar.card_w(),
        bar.card_h(),
        bar.dpi as int,
    );
    let cx = pad.plus_spec(card_w.over_spec(single_of(2)));
    let top = pad.plus_spec(points(58, d));
    let bottom = pad.plus_spec(card_h).minus_spec(points(42, d));
    let h = bottom.minus_spec(top);
    let x = cx.minus_spec(half_points(21, d));
    let w = points(10, d);
    let thin = points(4, d);
    let meter_x = x.plus_spec(w).plus_spec(points(7, d));
    let meter_h = h.times_spec(view.meter.clamped(single_of(0), single_of(1)));
    let peak_y = bottom.minus_spec(
        h.times_spec(view.meter_peak.clamped(single_of(0), single_of(1))),
    );
    let unity_y = bottom.minus_spec(h.times_spec(unity_share(view.settings)));
    Face {
        track: RoundRect { x, y: top, w, h, r: w.over_spec(single_of(2)) },
        ground: RoundRect { x: meter_x, y: top, w: thin, h, r: thin.over_spec(single_of(2)) },
        meter: RoundRect {
            x: meter_x,
            y: bottom.minus_spec(meter_h),
            w: thin,
            h: meter_h,
            r: thin.over_spec(single_of(2)),
        },
        meter_shown: hundredths(50).below_spec(meter_h),
        peak: RoundRect {
            x: meter_x,
            y: peak_y.minus_spec(points(1, d)),
            w: thin,
            h: points(2, d),
            r: points(1, d),
        },
        peak_shown: hundredths(2).below_spec(view.meter_peak),
        mark: RoundRect {
            x: x.minus_spec(points(5, d)),
            y: unity_y.minus_spec(half_points(1, d)),
            w: w.plus_spec(points(10, d)),
            h: points(1, d),
            r: single_of(0),
        },
        mark_shown: view.settings.min_db.below_spec(single_of(0)) && single_of(0).below_spec(
            view.settings.max_db,
        ),
    }
}

pub open spec fn lying_face(bar: Bar) -> Face {
    let (view, pad, card_w, card_h, d) = (
        bar.view,
        bar.pad(),
        bar.card_w(),
        bar.card_h(),
        bar.dpi as int,
    );
    let left = pad.plus_spec(points(62, d));
    let right = pad.plus_spec(card_w).minus_spec(points(74, d));
    let h = points(10, d);
    let y = pad.plus_spec(card_h.over_spec(single_of(2))).minus_spec(
        h.over_spec(single_of(2)),
    ).plus_spec(points(6, d));
    let w = right.minus_spec(left);
    let unity_x = left.plus_spec(w.times_spec(unity_share(view.settings)));
    let thin = points(4, d);
    let meter_y = y.plus_spec(h).plus_spec(points(8, d));
    let meter_w = w.times_spec(view.meter.clamped(single_of(0), single_of(1)));
    let peak_x = left.plus_spec(
        w.times_spec(view.meter_peak.clamped(single_of(0), single_of(1))),
    );
    Face {
        track: RoundRect { x: left, y, w, h, r: h.over_spec(single_of(2)) },
        ground: RoundRect { x: left, y: meter_y, w, h: thin, r: thin.over_spec(single_of(2)) },
        meter: RoundRect {
            x: left,
            y: meter_y,
            w: meter_w,
            h: thin,
            r: thin.over_spec(single_of(2)),
        },
        meter_shown: hundredths(50).below_spec(meter_w),
        peak: RoundRect {
            x: peak_x.minus_spec(points(1, d)),
            y: meter_y.minus_spec(points(1, d)),
            w: points(2, d),
            h: thin.plus_spec(points(2, d)),
            r: points(1, d),
        },
        peak_shown: hundredths(2).below_spec(view.meter_peak),
        mark: RoundRect {
            x: unity_x.minus_spec(half_points(1, d)),
            y: y.minus_spec(points(5, d)),
            w: points(1, d),
            h: h.plus_spec(points(10, d)),
            r: single_of(0),
        },
        mark_shown: view.settings.min_db.below_spec(single_of(0)) && single_of(0).below_spec(
            view.settings.max_db,
        ),
    }
}

pub open spec fn face_of(bar: Bar) -> Face {
    if bar.is_vertical() {
        upright_face(bar)
    } else {
        lying_face(bar)
    }
}

/// What a face fills with a colour.
proof fn lemma_face_fills(bar: Bar, word: u32)
    requires
        word >= 0x1100_0000,
    ensures
        ({
            let f = face_of(bar);
            let track = area_if(word == track_word(), f.track);
            let ground = area_if(word == ground_word(), f.ground);
            let meter = area_if(f.meter_shown && word == meter_color_word(bar.view.meter), f.meter);
            let peak = area_if(
                f.peak_shown && word == meter_color_word(bar.view.meter_peak),
                f.peak,
            );
            let mark = area_if(f.mark_shown && word == mark_word(), f.mark);
            fills(bar.drawing(), word) == if bar.is_vertical() {
                track + ground + meter + peak + mark
            } else {
                track + mark + ground + meter + peak
            }
        }),
{
    lemma_card(bar, word);
    lemma_lists(word);
    let f = face_of(bar);
    let track = area_if(word == track_word(), f.track);
    let ground = area_if(word == ground_word(), f.ground);
    let meter = area_if(f.meter_shown && word == meter_color_word(bar.view.meter), f.meter);
    let peak = area_if(f.peak_shown && word == meter_color_word(bar.view.meter_peak), f.peak);
    let mark = area_if(f.mark_shown && word == mark_word(), f.mark);
    if bar.is_vertical() {
        assert(fills(bar.face(), word) =~= track + ground + meter + peak + mark);
    } else {
        assert(fills(bar.face(), word) =~= track + mark + ground + meter + peak);
    }
}

/// A part of a track.
proof fn lemma_part_of(t: Single, k: Single)
    requires
        t.is_finite(),
        unit() <= t.scaled() <= 40_000 * unit(),
        in_unit(k),
    ensures
        ({
            let f = t.times_spec(k);
            &&& f.is_finite() && 0 <= f.scaled() <= t.scaled()
            &&& 0 <= k.scaled() <= unit()
            &&& 1_000_000 * abs(f.scaled() * unit() - t.scaled() * k.scaled()) <= t.scaled()
                * unit()
            &&& k.clamped(single_of(0), single_of(1)) == k
            &&& k.scaled() == 0 ==> f.scaled() == 0
            &&& k.scaled() == unit() ==> f.scaled() == t.scaled()
        }),
{
    let (u, e) = (unit(), fine());
    let (one, none) = (of_bits(ONE), zero(false));
    lemma_units();
    lemma_one_scaled();
    lemma_sign(k);
    lemma_sign(t);
    lemma_sign(none);
    lemma_rank_order(k, one);
    lemma_signed_exact(1);
    lemma_single_of_exact(0);
    lemma_rank_order(one, single_of(1));
    lemma_share(t, k);
    let f = t.times_spec(k);
    lemma_rank_order(none, f);
    lemma_rank_order(f, t);
    let (y, p) = (t.scaled(), k.scaled());
    assert(abs(y * p) == y * p && y * p <= y * u && y * p <= 0x100_0000_0000 * u * u)
        by (nonlinear_arith)
        requires
            0 <= p <= u,
            0 <= y <= 40_000 * u,
    ;
    lemma_times_error(t, k);
    assert(y * u == 0x80_0000 * (y * e)) by (nonlinear_arith)
        requires
            u == 0x80_0000 * e,
    ;
    assert(u <= y * e) by (nonlinear_arith)
        requires
            u <= y,
            e >= 1,
            u > 0,
    ;
    if p == u {
        assert(k == one);
    }
}

/// The ends of the track and coordinates in between are moderate.
proof fn lemma_ends(bar: Bar)
    requires
        bar.has_own_size(),
    ensures
        ({
            let f = face_of(bar);
            let d = bar.dpi as int;
            let bottom = bar.pad().plus_spec(bar.card_h()).minus_spec(points(42, d));
            &&& computed_track(bar) == length_of(f.track, bar.is_vertical())
            &&& bar.is_vertical() ==> {
                &&& bottom.is_finite() && 0 <= bottom.scaled() <= 40_000 * unit()
                &&& f.track.y.is_finite()
                &&& 100 * abs(f.track.y.scaled() + f.track.h.scaled() - bottom.scaled()) <= unit()
            }
            &&& !bar.is_vertical() ==> f.track.x.is_finite() && 0 <= f.track.x.scaled() <= 40_000
                * unit()
        }),
{
    let u = unit();
    let d = bar.dpi as int;
    lemma_units();
    let (pad, card_h) = (bar.pad(), bar.card_h());
    if bar.is_vertical() {
        lemma_upright_track(bar);
        let tail = if bar.is_docked() {
            72 * d
        } else {
            0
        };
        let m = 768 * bar.height - 416 * d - tail;
        let top = pad.plus_spec(points(58, d));
        let bottom = pad.plus_spec(card_h).minus_spec(points(42, d));
        lemma_near_pixels(top, 544 * d, 3);
        lemma_near_pixels(bottom, m, 10);
        assert(m * u <= 0x1C0_0000 * u && m * u >= 1000 * u && (544 * d) * u <= 0x1C0_0000 * u
            && (544 * d) * u >= 1000 * u) by (nonlinear_arith)
            requires
                1000 <= m <= 0x1C0_0000,
                1000 <= 544 * d <= 0x1C0_0000,
                u > 0,
        ;
        lemma_minus_error(bottom, top);
    } else {
        lemma_lying_track(bar);
        let left = pad.plus_spec(points(62, d));
        lemma_near_pixels(left, 576 * d, 3);
        assert((576 * d) * u <= 0x1C0_0000 * u && (576 * d) * u >= 1000 * u) by (nonlinear_arith)
            requires
                1000 <= 576 * d <= 0x1C0_0000,
                u > 0,
        ;
    }
}

/// The signal meter of a frame. Its ground is as long as the track of the
/// level and starts and ends where that does, beside it. The meter stands on
/// the ground's foot, is as thick as the ground, and as long as the signal's
/// part of it, within a millionth; below 0.6 pixels there may be none. Without
/// a signal, or a peak to remember, nothing has a signal's colour.
pub proof fn law_the_meter_shows_the_signal(bar: Bar)
    requires
        bar.has_own_size(),
        in_unit(bar.view.meter),
    ensures
        ({
            let one = pow2(149) as int;
            let upright = bar.view.settings.orientation == Orientation::Vertical;
            let track = fills(bar.drawing(), 0x26FF_FFFF)[0];
            let grounds = fills(bar.drawing(), 0x1EFF_FFFF);
            let ground = grounds[0];
            let whole = length_of(ground, upright).scaled();
            let meters = fills(bar.drawing(), meter_color_word(bar.view.meter));
            let level = bar.view.meter.scaled();
            &&& grounds.len() == 1
            &&& upright ==> ground.y == track.y && ground.h == track.h
            &&& !upright ==> ground.x == track.x && ground.w == track.w
            &&& 10 * (whole * level) >= 6 * (one * one) ==> {
                let meter = meters[0];
                let length = length_of(meter, upright).scaled();
                &&& meters.len() >= 1
                &&& 1_000_000 * abs(length * one - whole * level) <= whole * one
                &&& level == one ==> length == whole
                &&& meter.x == ground.x
                &&& meter.r == ground.r
                &&& upright ==> meter.w == ground.w && 10 * abs(
                    (meter.y.scaled() + meter.h.scaled()) - (ground.y.scaled()
                        + ground.h.scaled()),
                ) <= one
                &&& !upright ==> meter.y == ground.y && meter.h == ground.h
            }
            &&& level == 0 && bar.view.meter_peak.scaled() == 0 ==> meters.len() == 0
        }),
{
    let u = unit();
    lemma_units();
    lemma_face_fills(bar, track_word());
    lemma_face_fills(bar, ground_word());
    let word = meter_color_word(bar.view.meter);
    lemma_face_fills(bar, word);
    lemma_level_length(bar);
    lemma_ends(bar);
    lemma_hundredth(50);
    lemma_hundredth(2);
    let f = face_of(bar);
    let t = computed_track(bar);
    lemma_part_of(t, bar.view.meter);
    let m = t.times_spec(bar.view.meter);
    assert(length_of(f.meter, bar.is_vertical()) == m);
    lemma_rank_order(hundredths(50), m);
    let (w, k, v) = (t.scaled(), bar.view.meter.scaled(), m.scaled());
    let e = fine();
    if 10 * (w * k) >= 6 * (u * u) {
        assert(100 * v > 50 * u + 51 * e) by (nonlinear_arith)
            requires
                10 * (w * k) >= 6 * (u * u),
                1_000_000 * abs(v * u - w * k) <= w * u,
                w <= 40_000 * u,
                u == 0x80_0000 * e,
                e > 0,
        ;
        assert(f.meter_shown);
        let d = bar.dpi as int;
        if bar.is_vertical() {
            let bottom = bar.pad().plus_spec(bar.card_h()).minus_spec(points(42, d));
            lemma_minus_error(bottom, m);
        }
    }
    if k == 0 && bar.view.meter_peak.scaled() == 0 {
        lemma_sign(bar.view.meter_peak);
        lemma_sign(hundredths(2));
    }
}

/// A marker of two points around a place on the way from `end`.
proof fn lemma_marker(end: Single, m: Single, d: int)
    requires
        end.is_finite(),
        0 <= end.scaled() <= 40_000 * unit(),
        m.is_finite(),
        0 <= m.scaled() <= 40_000 * unit(),
        is_fine_resolution(d),
    ensures
        ({
            let (p, q) = (points(1, d), points(2, d));
            let down = end.minus_spec(m).minus_spec(p);
            let up = end.plus_spec(m).minus_spec(p);
            &&& 10 * abs(
                (2 * down.scaled() + q.scaled()) - 2 * (end.scaled() - m.scaled()),
            ) <= unit()
            &&& 10 * abs((2 * up.scaled() + q.scaled()) - 2 * (end.scaled() + m.scaled())) <= unit()
            &&& down.is_finite() && up.is_finite() && q.is_finite()
        }),
{
    let u = unit();
    lemma_units();
    lemma_near_points(1, d);
    lemma_near_points(2, d);
    lemma_near_pixels(points(1, d), 8 * d, 1);
    lemma_near_pixels(points(2, d), 16 * d, 1);
    assert((8 * d) * u <= 76_800 * u && (16 * d) * u == 2 * ((8 * d) * u) && (8 * d) * u >= 0)
        by (nonlinear_arith)
        requires
            0 <= d <= 9600,
            u > 0,
    ;
    lemma_minus_error(end, m);
    lemma_minus_error(end.minus_spec(m), points(1, d));
    lemma_plus_error(end, m);
    lemma_minus_error(end.plus_spec(m), points(1, d));
}

/// A place `v` along a track `w` long, and one that is not far from it.
proof fn lemma_place(mid: int, v: int, w: int, k: int)
    requires
        2 * abs(mid - 2 * v) <= unit(),
        1_000_000 * abs(v * unit() - w * k) <= w * unit(),
        0 <= w <= 40_000 * unit(),
    ensures
        abs(mid * unit() - 2 * (w * k)) <= 2 * (unit() * unit()),
{
    let u = unit();
    lemma_units();
    assert(w * u <= 40_000 * (u * u)) by (nonlinear_arith)
        requires
            w <= 40_000 * u,
            u > 0,
    ;
    assert(2 * abs(mid * u - 2 * (v * u)) <= u * u) by (nonlinear_arith)
        requires
            2 * abs(mid - 2 * v) <= u,
            u > 0,
    ;
}

/// The peak marker of a frame: where the peak is above 2.01 percent, the last
/// area in its colour is the marker, and its middle is as far along the ground
/// as the peak, within a pixel.
pub proof fn law_the_marker_shows_the_peak(bar: Bar)
    requires
        bar.has_own_size(),
        in_unit(bar.view.meter_peak),
        10_000 * bar.view.meter_peak.scaled() >= 201 * pow2(149),
    ensures
        ({
            let one = pow2(149) as int;
            let upright = bar.view.settings.orientation == Orientation::Vertical;
            let ground = fills(bar.drawing(), 0x1EFF_FFFF)[0];
            let whole = length_of(ground, upright).scaled();
            let peaks = fills(bar.drawing(), meter_color_word(bar.view.meter_peak));
            let marker = peaks.last();
            let middle = if upright {
                2 * (ground.y.scaled() + ground.h.scaled()) - (2 * marker.y.scaled()
                    + marker.h.scaled())
            } else {
                (2 * marker.x.scaled() + marker.w.scaled()) - 2 * ground.x.scaled()
            };
            &&& peaks.len() >= 1
            &&& abs(middle * one - 2 * (whole * bar.view.meter_peak.scaled())) <= 2 * (one * one)
            &&& upright ==> marker.x == ground.x && marker.w == ground.w
        }),
{
    let u = unit();
    let d = bar.dpi as int;
    lemma_units();
    let peak = bar.view.meter_peak;
    lemma_peak_fills(bar);
    lemma_level_length(bar);
    lemma_ends(bar);
    lemma_hundredth(2);
    lemma_rank_order(hundredths(2), peak);
    let f = face_of(bar);
    let t = computed_track(bar);
    lemma_part_of(t, peak);
    let m = t.times_spec(peak);
    if bar.is_vertical() {
        let bottom = bar.pad().plus_spec(bar.card_h()).minus_spec(points(42, d));
        lemma_marker(bottom, m, d);
        let mid = 2 * (f.ground.y.scaled() + f.ground.h.scaled()) - (2 * f.peak.y.scaled()
            + f.peak.h.scaled());
        lemma_place(mid, m.scaled(), t.scaled(), peak.scaled());
    } else {
        let left = f.track.x;
        lemma_marker(left, m, d);
        let mid = (2 * f.peak.x.scaled() + f.peak.w.scaled()) - 2 * left.scaled();
        lemma_place(mid, m.scaled(), t.scaled(), peak.scaled());
    }
}

pub proof fn lemma_peak_fills(bar: Bar)
    ensures
        fills(bar.drawing(), 0x1EFF_FFFF) == seq![face_of(bar).ground],
        face_of(bar).peak_shown ==> {
            let peaks = fills(bar.drawing(), meter_color_word(bar.view.meter_peak));
            peaks.len() >= 1 && peaks.last() == face_of(bar).peak
        },
        fills(bar.drawing(), 0x46FF_FFFF) == area_if(face_of(bar).mark_shown, face_of(bar).mark),
        fills(bar.drawing(), 0x26FF_FFFF) == seq![face_of(bar).track],
{
    let word = meter_color_word(bar.view.meter_peak);
    lemma_face_fills(bar, ground_word());
    lemma_face_fills(bar, word);
    lemma_face_fills(bar, mark_word());
    lemma_face_fills(bar, track_word());
    assert(fills(bar.drawing(), 0x1EFF_FFFF) =~= seq![face_of(bar).ground]);
    assert(fills(bar.drawing(), 0x26FF_FFFF) =~= seq![face_of(bar).track]);
    assert(fills(bar.drawing(), 0x46FF_FFFF) =~= area_if(
        face_of(bar).mark_shown,
        face_of(bar).mark,
    ));
}

/// The meter warns before clipping: green up to 88 percent, amber up to 96,
/// red above, but for a millionth around the limits.
pub proof fn law_the_meter_warns_before_clipping(level: Single)
    requires
        level.is_finite(),
    ensures
        1_000_000 * level.scaled() >= 960_001 * pow2(149) ==> channels_of(meter_color_word(level))
            == (255int, 240int, 80int, 70int),
        880_001 * pow2(149) <= 1_000_000 * level.scaled() <= 959_999 * pow2(149) ==> channels_of(
            meter_color_word(level),
        ) == (255int, 235int, 175int, 70int),
        1_000_000 * level.scaled() <= 879_999 * pow2(149) ==> channels_of(meter_color_word(level))
            == (255int, 110int, 205int, 130int),
{
    lemma_units();
    lemma_hundredth(88);
    lemma_hundredth(96);
    lemma_rank_order(hundredths(88), level);
    lemma_rank_order(hundredths(96), level);
    lemma_channels(255, 240, 80, 70);
    lemma_channels(255, 235, 175, 70);
    lemma_channels(255, 110, 205, 130);
}

/// A number of half points is what it says, nearly.
pub proof fn lemma_near_half_points(n: int, dpi: int)
    requires
        0 <= n <= 30,
        is_fine_resolution(dpi),
    ensures
        near(half_points(n, dpi), 4 * (n * dpi), 1),
{
    let (u, e) = (unit(), fine());
    lemma_units();
    lemma_signed_exact(n);
    lemma_signed_exact(2);
    lemma_signed_exact(dpi);
    lemma_signed_exact(96);
    lemma_sign(single_of(2));
    lemma_sign(single_of(96));
    let a = single_of(n).over_spec(single_of(2));
    let b = a.times_spec(single_of(dpi));
    let c = b.over_spec(single_of(96));
    assert(abs((n * u) * u) == (n * u) * u && (n * u) * u <= 0x100_0000_0000 * u * (2 * u))
        by (nonlinear_arith)
        requires
            0 <= n <= 30,
            u > 0,
    ;
    lemma_over_error(single_of(n), single_of(2));
    let x = a.scaled();
    assert(x * (2 * u) - (n * u) * u == (2 * x - n * u) * u) by (nonlinear_arith);
    let (p, q) = (2 * x - n * u, n * u);
    assert(0x80_0000 * abs(p) <= q + 0x80_0000 * 2) by (nonlinear_arith)
        requires
            0x80_0000 * abs(p * u) <= q * u + 0x80_0000 * (2 * u),
            u > 0,
            q >= 0,
    ;
    assert(0 <= n * u <= 30 * u) by (nonlinear_arith)
        requires
            0 <= n <= 30,
            u > 0,
    ;
    assert(abs(p) <= 31 * e && abs(x) <= 16 * u);
    assert(abs(x * (dpi * u)) <= 160_000 * (u * u) && 160_000 * (u * u) <= 0x100_0000_0000 * u
        * u) by (nonlinear_arith)
        requires
            abs(x) <= 16 * u,
            0 <= dpi <= 9600,
            u > 0,
    ;
    lemma_times_error(a, single_of(dpi));
    let y = b.scaled();
    assert(y * u - x * (dpi * u) == (y - x * dpi) * u && u * u == 0x80_0000 * (e * u))
        by (nonlinear_arith)
        requires
            u == 0x80_0000 * e,
    ;
    let w = y - x * dpi;
    assert(abs(w) <= 160_001 * e) by (nonlinear_arith)
        requires
            0x80_0000 * abs(w * u) <= 160_000 * (0x80_0000 * (e * u)) + 0x80_0000 * u,
            u > 0,
            e >= 1,
    ;
    assert(abs(x * dpi) <= 160_000 * u && abs(2 * (x * dpi) - (n * dpi) * u) <= 300_000 * e)
        by (nonlinear_arith)
        requires
            abs(x) <= 16 * u,
            abs(2 * x - n * u) <= 31 * e,
            0 <= dpi <= 9600,
            u > 0,
            e > 0,
    ;
    assert(abs(y * u) <= 170_000 * (u * u) && 170_000 * (u * u) <= 0x100_0000_0000 * u * (96 * u))
        by (nonlinear_arith)
        requires
            abs(y) <= 170_000 * u,
            u > 0,
    ;
    lemma_over_error(b, single_of(96));
    let z = c.scaled();
    assert(z * (96 * u) - y * u == (96 * z - y) * u) by (nonlinear_arith);
    let v = 96 * z - y;
    assert(abs(v) <= 170_001 * e) by (nonlinear_arith)
        requires
            0x80_0000 * abs(v * u) <= 170_000 * (0x80_0000 * (e * u)) + 0x80_0000 * (96 * u),
            u > 0,
            e >= 96,
    ;
    assert((4 * (n * dpi)) * u == 4 * ((n * dpi) * u)) by (nonlinear_arith);
}

/// Where 0 dB lies in the display range.
proof fn lemma_unity(settings: Settings)
    requires
        settings.min_db.is_finite(),
        settings.max_db.is_finite(),
        -60 * unit() <= settings.min_db.scaled() < 0,
        0 < settings.max_db.scaled() <= 12 * unit(),
        settings.max_db.scaled() - settings.min_db.scaled() >= unit(),
    ensures
        in_unit(unity_share(settings)),
        abs(
            unity_share(settings).scaled() * (settings.max_db.scaled() - settings.min_db.scaled())
                + settings.min_db.scaled() * unit(),
        ) <= 300 * (unit() * fine()),
{
    let (u, e) = (unit(), fine());
    let (lo, hi) = (settings.min_db, settings.max_db);
    let (none, one) = (zero(false), of_bits(ONE));
    lemma_units();
    lemma_one_scaled();
    lemma_sign(none);
    lemma_negated(lo);
    let z = none.minus_spec(lo);
    assert(z.scaled() == -lo.scaled() && z.is_finite()) by {
        reveal(Single::minus_spec);
        lemma_plus_zero(lo.negated(), none);
        lemma_minus_error(none, lo);
        lemma_rank_order(z, lo.negated());
    }
    let exact = hi.scaled() - lo.scaled();
    let raw = hi.minus_spec(lo);
    lemma_minus_error(hi, lo);
    lemma_rank_order(raw, one);
    let s = span(lo, hi);
    assert(abs(s.scaled() - exact) <= 73 * e && s.is_finite() && s.scaled() >= u);
    lemma_sign(s);
    let (x, y) = (z.scaled(), s.scaled());
    assert(abs(x * u) == x * u && x * u <= 0x100_0000_0000 * u * y && x * u <= 60 * (u * u))
        by (nonlinear_arith)
        requires
            0 <= x <= 60 * u,
            y >= u,
            u > 0,
    ;
    lemma_over_error(z, s);
    lemma_sign(z);
    lemma_over_keeps_order(none, z, s);
    lemma_none_over(s);
    let q = z.over_spec(s);
    lemma_rank_order(none, q);
    lemma_rank_order(q, one);
    let (p, g) = (q.scaled(), exact);
    assert(u * u == 0x80_0000 * (u * e)) by (nonlinear_arith)
        requires
            u == 0x80_0000 * e,
    ;
    assert(y <= u * e) by (nonlinear_arith)
        requires
            y <= 73 * u,
            e >= 73,
            u > 0,
    ;
    assert(abs(p * y - x * u) <= 61 * (u * e));
    assert(p <= 61 * u) by (nonlinear_arith)
        requires
            abs(p * y - x * u) <= 61 * (u * e),
            x <= 60 * u,
            y >= u,
            61 * e <= u,
            u > 0,
    ;
    let k = unity_share(settings);
    assert(k == if one.below_spec(q) {
        one
    } else {
        q
    });
    let v = k.scaled();
    if v == u {
        assert(u * g - x * u >= 0) by (nonlinear_arith)
            requires
                x <= g,
                u > 0,
        ;
        assert(u * y <= p * y) by (nonlinear_arith)
            requires
                u <= p,
                y > 0,
        ;
    }
    assert(0 <= v <= u && v <= p);
    assert(abs(v * g - v * y) <= 73 * (u * e)) by (nonlinear_arith)
        requires
            abs(y - g) <= 73 * e,
            0 <= v <= u,
    ;
    assert(lo.scaled() * u == -(x * u)) by (nonlinear_arith)
        requires
            lo.scaled() == -x,
    ;
}

/// The mark at 0 dB: there is one exactly where 0 dB lies inside the display
/// range. Its middle is as far along the track as 0 dB is in the range, within
/// two pixels, for ranges of a decibel or more.
pub proof fn law_the_mark_is_at_unity_gain(bar: Bar)
    requires
        bar.has_own_size(),
        bar.view.settings.min_db.is_finite(),
        bar.view.settings.max_db.is_finite(),
        -60 * pow2(149) <= bar.view.settings.min_db.scaled(),
        bar.view.settings.max_db.scaled() <= 12 * pow2(149),
        bar.view.settings.max_db.scaled() - bar.view.settings.min_db.scaled() >= pow2(149),
    ensures
        ({
            let one = pow2(149) as int;
            let upright = bar.view.settings.orientation == Orientation::Vertical;
            let track = fills(bar.drawing(), 0x26FF_FFFF)[0];
            let marks = fills(bar.drawing(), 0x46FF_FFFF);
            let mark = marks[0];
            let (lo, hi) = (
                bar.view.settings.min_db.scaled(),
                bar.view.settings.max_db.scaled(),
            );
            let middle = if upright {
                2 * (track.y.scaled() + track.h.scaled()) - (2 * mark.y.scaled() + mark.h.scaled())
            } else {
                (2 * mark.x.scaled() + mark.w.scaled()) - 2 * track.x.scaled()
            };
            &&& (marks.len() == 1) == (lo < 0 < hi)
            &&& marks.len() <= 1
            &&& lo < 0 < hi ==> abs(
                middle * (hi - lo) + 2 * (length_of(track, upright).scaled() * lo),
            ) <= 4 * (one * (hi - lo))
        }),
{
    let (u, e) = (unit(), fine());
    let d = bar.dpi as int;
    let s = bar.view.settings;
    lemma_units();
    lemma_single_of_exact(0);
    lemma_sign(zero(false));
    lemma_rank_order(s.min_db, zero(false));
    lemma_rank_order(zero(false), s.max_db);
    lemma_peak_fills(bar);
    let f = face_of(bar);
    let (lo, hi) = (s.min_db.scaled(), s.max_db.scaled());
    if lo < 0 && 0 < hi {
        lemma_level_length(bar);
        lemma_ends(bar);
        lemma_unity(s);
        let t = computed_track(bar);
        let k = unity_share(s);
        lemma_part_of(t, k);
        let m = t.times_spec(k);
        let mid = if bar.is_vertical() {
            2 * (f.track.y.scaled() + f.track.h.scaled()) - (2 * f.mark.y.scaled()
                + f.mark.h.scaled())
        } else {
            (2 * f.mark.x.scaled() + f.mark.w.scaled()) - 2 * f.track.x.scaled()
        };
        if bar.is_vertical() {
            let bottom = bar.pad().plus_spec(bar.card_h()).minus_spec(points(42, d));
            lemma_half_marker(bottom, m, d);
        } else {
            lemma_half_marker(f.track.x, m, d);
        }
        let (w, c, v, g) = (t.scaled(), k.scaled(), m.scaled(), hi - lo);
        assert(2 * abs(mid - 2 * v) <= u);
        lemma_track_is_short(bar);
        lemma_mark_place(mid, v, w, c, g, lo);
    }
}

/// A marker of one point around a place on the way from `end`.
proof fn lemma_half_marker(end: Single, m: Single, d: int)
    requires
        end.is_finite(),
        0 <= end.scaled() <= 40_000 * unit(),
        m.is_finite(),
        0 <= m.scaled() <= 40_000 * unit(),
        is_fine_resolution(d),
    ensures
        ({
            let (p, q) = (half_points(1, d), points(1, d));
            let down = end.minus_spec(m).minus_spec(p);
            let up = end.plus_spec(m).minus_spec(p);
            &&& 10 * abs(
                (2 * down.scaled() + q.scaled()) - 2 * (end.scaled() - m.scaled()),
            ) <= unit()
            &&& 10 * abs((2 * up.scaled() + q.scaled()) - 2 * (end.scaled() + m.scaled())) <= unit()
        }),
{
    let u = unit();
    lemma_units();
    lemma_near_half_points(1, d);
    lemma_near_points(1, d);
    lemma_near_pixels(half_points(1, d), 4 * d, 1);
    lemma_near_pixels(points(1, d), 8 * d, 1);
    assert((4 * d) * u <= 38_400 * u && (8 * d) * u == 2 * ((4 * d) * u) && (4 * d) * u >= 0)
        by (nonlinear_arith)
        requires
            0 <= d <= 9600,
            u > 0,
    ;
    lemma_minus_error(end, m);
    lemma_minus_error(end.minus_spec(m), half_points(1, d));
    lemma_plus_error(end, m);
    lemma_minus_error(end.plus_spec(m), half_points(1, d));
}

proof fn lemma_track_is_short(bar: Bar)
    requires
        bar.has_own_size(),
    ensures
        computed_track(bar).scaled() <= 20_000 * unit(),
{
    let d = bar.dpi as int;
    let u = unit();
    lemma_units();
    if bar.is_vertical() {
        lemma_upright_track(bar);
        let tail = if bar.is_docked() {
            72 * d
        } else {
            0
        };
        let m = 768 * bar.height - 416 * d - tail;
        lemma_track_length(computed_track(bar), m - 544 * d, 14, 126, d);
        assert((126 * d) * u <= 1_209_600 * u) by (nonlinear_arith)
            requires
                d <= 9600,
                u > 0,
        ;
    } else {
        lemma_lying_track(bar);
        lemma_track_length(computed_track(bar), 768 * bar.width - 672 * d - 576 * d, 12, 164, d);
        assert((164 * d) * u <= 1_574_400 * u) by (nonlinear_arith)
            requires
                d <= 9600,
                u > 0,
        ;
    }
}

proof fn lemma_mark_place(mid: int, v: int, w: int, c: int, g: int, lo: int)
    requires
        2 * abs(mid - 2 * v) <= unit(),
        1_000_000 * abs(v * unit() - w * c) <= w * unit(),
        0 <= w <= 20_000 * unit(),
        abs(c * g + lo * unit()) <= 300 * (unit() * fine()),
        unit() <= g <= 72 * unit(),
    ensures
        abs(mid * g + 2 * (w * lo)) <= 4 * (unit() * g),
{
    let (u, e) = (unit(), fine());
    lemma_units();
    assert(2 * abs(mid * g - 2 * (v * g)) <= u * g) by (nonlinear_arith)
        requires
            2 * abs(mid - 2 * v) <= u,
            g > 0,
    ;
    // v g u is nearly w c g, which is nearly -w lo u.
    assert(1_000_000 * abs((v * u) * g - (w * c) * g) <= 20_000 * ((u * u) * g))
        by (nonlinear_arith)
        requires
            1_000_000 * abs(v * u - w * c) <= w * u,
            0 <= w <= 20_000 * u,
            g > 0,
            u > 0,
    ;
    assert(abs(w * (c * g) + w * (lo * u)) <= 6_000_000 * (u * (u * e))) by (nonlinear_arith)
        requires
            abs(c * g + lo * u) <= 300 * (u * e),
            0 <= w <= 20_000 * u,
            u > 0,
            e > 0,
    ;
    assert((w * c) * g == w * (c * g) && (v * u) * g == (v * g) * u && w * (lo * u) == (w * lo)
        * u) by (nonlinear_arith);
    assert(u * (u * e) * 0x80_0000 <= (u * u) * g) by (nonlinear_arith)
        requires
            u == 0x80_0000 * e,
            g >= u,
            u > 0,
    ;
    let z = v * g + w * lo;
    assert(z * u == (v * g) * u + (w * lo) * u) by (nonlinear_arith)
        requires
            z == v * g + w * lo,
    ;
    assert(abs(z * u) <= (u * u) * g);
    assert(abs(z) <= u * g) by (nonlinear_arith)
        requires
            abs(z * u) <= (u * u) * g,
            u > 0,
    ;
}

} // verus!
