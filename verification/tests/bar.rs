use voicemeeter_osd::app_state::{AppState, Show};
use voicemeeter_osd::config::{ChannelKind, Orientation, Position, Settings};
use voicemeeter_osd::draw::{
    draw_horizontal, draw_preview, draw_shadow, draw_speaker, draw_tail, draw_vertical, meter_color,
    BarView,
};
use voicemeeter_osd::frame::{render, Bar};
use voicemeeter_osd::gfx::{
    argb, color_of_rgb, gradient_box, rgb, round_rect_path, shade, shown_size, tint, Align, Caption,
    PathPart, RoundRect, Shape,
};
use voicemeeter_osd::motion::{frame_time, FrameInput, Release};
use voicemeeter_osd::osd::{size_for, MonitorInfo, Rect};
use voicemeeter_osd::settings_paint::{draw_button, draw_segment, draw_toggle, paint};
use voicemeeter_osd::single::Single;
use voicemeeter_osd::state::{build_watch_targets, scan_for_movement, Channel};
use voicemeeter_osd::time::{Duration, Instant};
use voicemeeter_osd::vmr::Link;

fn single(x: f32) -> Single {
    Single::from_bits(x.to_bits())
}

fn float(x: Single) -> f32 {
    f32::from_bits(x.bits)
}

fn at(millis: u64) -> Instant {
    Instant { nanos: 0 }.plus(Duration::from_millis(millis))
}

fn monitor() -> MonitorInfo {
    let area = Rect { left: 0, top: 0, right: 1920, bottom: 1040 };
    MonitorInfo { work: area, full: area, dpi: 96 }
}

fn app() -> AppState {
    AppState::new(Settings::default(), monitor(), at(0))
}

// --- The channel on show --------------------------------------------------

#[test]
fn readings_update_the_channel() {
    let s = Settings::default();
    let mut c = Channel::unread(ChannelKind::Bus, 0);
    // Parameter names come with being watched.
    assert_eq!((c.gain.as_str(), c.mute.as_str(), c.label.as_str()), ("", "", ""));
    assert!(c.refresh(&s, Some(single(0.0)), Some(single(0.0))));
    assert_eq!(c.percent, 83);
    assert!(!c.muted);
    assert_eq!(c.read_failures, 0);
    // The same values again are no news, and neither is a zero of another sign.
    assert!(!c.refresh(&s, Some(single(-0.0)), Some(single(0.0))));
    assert!(c.refresh(&s, Some(single(-26.0)), Some(single(0.0))));
    assert_eq!(c.percent, 47);
    assert!(c.refresh(&s, Some(single(-26.0)), Some(single(1.0))));
    assert!(c.muted);
    // A failed read keeps what was known.
    assert!(!c.refresh(&s, None, None));
    assert_eq!(c.read_failures, 1);
    assert_eq!(c.percent, 47);
    assert!(c.muted);
    // A reading that is no number is always news.
    assert!(c.refresh(&s, Some(single(f32::NAN)), None));
    assert!(c.refresh(&s, Some(single(f32::NAN)), None));
}

#[test]
fn tooltips_tell_level_or_mute() {
    let s = Settings::default();
    let mut c = Channel::unread(ChannelKind::Bus, 0);
    c.label = "A1".to_string();
    c.refresh(&s, Some(single(-26.0)), Some(single(0.0)));
    assert_eq!(c.tooltip(), "A1  -26.0 dB (47%)");
    assert_eq!(c.level_caption(), "47%");
    c.refresh(&s, None, Some(single(1.0)));
    assert_eq!(c.tooltip(), "A1  Muted");
    assert_eq!(c.level_caption(), "Muted");
}

#[test]
fn nudges_move_by_steps_within_the_fader() {
    let mut s = Settings::default();
    s.step_db = single(2.5);
    let mut c = Channel::unread(ChannelKind::Bus, 0);
    assert_eq!(c.nudge(&s, 1), None);
    c.refresh(&s, Some(single(-6.0)), None);
    assert_eq!(c.nudge(&s, 2).map(float), Some(-1.0));
    assert_eq!(c.nudge(&s, -1).map(float), Some(-8.5));
    assert_eq!(c.nudge(&s, 100).map(float), Some(12.0));
    assert_eq!(c.nudge(&s, -100).map(float), Some(-60.0));
    // The display range does not hold the fader back.
    s.max_db = single(0.0);
    assert_eq!(c.nudge(&s, 4).map(float), Some(4.0));
}

#[test]
fn muting_toggles() {
    let s = Settings::default();
    let mut c = Channel::unread(ChannelKind::Bus, 0);
    assert_eq!(float(c.toggle_mute()), 1.0);
    c.refresh(&s, None, Some(c.toggle_mute()));
    assert!(c.muted);
    assert_eq!(float(c.toggle_mute()), 0.0);
    c.refresh(&s, None, Some(c.toggle_mute()));
    assert!(!c.muted);
}

#[test]
fn scans_report_the_first_channel_that_moved() {
    let mut targets = build_watch_targets(1);
    assert_eq!(targets.len(), 5);
    assert_eq!(targets[3].gain, "Bus[0].Gain");
    let still = vec![(Some(single(0.0)), Some(single(0.0))); 5];
    // The first reading is the baseline.
    assert!(scan_for_movement(&mut targets, &still).is_none());
    assert!(scan_for_movement(&mut targets, &still).is_none());
    let mut moved = still.clone();
    moved[4].0 = Some(single(1.0));
    moved[1].1 = Some(single(1.0));
    assert!(scan_for_movement(&mut targets, &moved) == Some((ChannelKind::Strip, 1)));
    // Every snapshot was updated, so nothing moved since.
    assert!(scan_for_movement(&mut targets, &moved).is_none());
    // A failed read is no movement and keeps the snapshot.
    let lost = vec![(None, None); 5];
    assert!(scan_for_movement(&mut targets, &lost).is_none());
    assert!(scan_for_movement(&mut targets, &moved).is_none());
    assert!(scan_for_movement(&mut targets, &still) == Some((ChannelKind::Strip, 1)));
}

#[test]
fn the_display_switches_channels() {
    let mut a = app();
    a.set_watch(ChannelKind::Strip, 1, Some(single(12.0)), None, None);
    assert_eq!(a.channel.label, "Strip 2");
    assert_eq!(a.channel.gain, "Strip[1].Gain");
    assert_eq!(a.channel.percent, 100);
    assert_eq!(float(a.display_pct), 100.0);
    assert!(a.focus_configured() == Some((ChannelKind::Bus, 0)));
    assert!(a.follow(Some((ChannelKind::Strip, 1))).is_none());
    assert!(a.follow(Some((ChannelKind::Strip, 2))) == Some((ChannelKind::Strip, 2)));
    a.set_watch(ChannelKind::Bus, 0, None, None, Some("Desk".to_string()));
    assert_eq!(a.channel.label, "Desk");
    assert!(a.channel.last_gain.is_none());
    assert!(a.focus_configured().is_none());
    a.refresh_label(None);
    assert_eq!(a.channel.label, "A1");
    a.choose_channel(ChannelKind::Strip, 2);
    assert!(a.focus_configured() == Some((ChannelKind::Strip, 2)));
}

#[test]
fn the_scan_list_follows_the_settings() {
    let mut a = app();
    a.sync_watch_targets();
    assert!(a.watch_targets.is_empty());
    a.settings.watch_all = true;
    a.sync_watch_targets();
    assert_eq!(a.watch_targets.len(), 5);
    assert!(a.check_edition(Some(3)));
    assert_eq!(a.watch_targets.len(), 16);
    assert_eq!(a.edition, 3);
    // Known now, until the link is lost.
    assert!(!a.check_edition(Some(2)));
    assert_eq!(a.edition, 3);
}

#[test]
fn an_unknown_edition_is_asked_for_again() {
    let mut a = app();
    assert!(!a.check_edition(None));
    assert!(!a.edition_known);
    assert!(!a.check_edition(Some(1)));
    assert!(a.edition_known);
}

#[test]
fn the_link_is_restored_with_backoff() {
    let mut a = app();
    a.edition_known = true;
    let mut relogins = Vec::new();
    // A poll every 40 ms, all of them failing.
    for poll in 0..2000u64 {
        if a.supervise_link(Link::Stale, at(poll * 40)) {
            relogins.push(poll);
            assert!(!a.edition_known);
        }
    }
    assert_eq!(relogins[..4], [49, 99, 199, 399]);
    assert!(!a.supervise_link(Link::Up, at(90_000)));
    assert_eq!(a.failed_polls, 0);
    assert!(a.reconnect.next_at().is_none());
}

#[test]
fn a_stopped_server_forgets_the_edition() {
    let mut a = app();
    a.edition_known = true;
    assert!(!a.supervise_link(Link::Stale, at(0)));
    assert!(a.edition_known);
    assert!(!a.supervise_link(Link::NoServer, at(0)));
    assert!(!a.edition_known);
    // An unreadable channel counts as unhealthy, too.
    a.channel.read_failures = 1;
    a.supervise_link(Link::Up, at(0));
    assert_eq!(a.failed_polls, 3);
}

#[test]
fn the_icon_is_looked_for_every_fifty_polls() {
    let mut a = app();
    let due: Vec<usize> = (1..=100).filter(|_| a.tick()).collect();
    assert_eq!(due, vec![50, 100]);
}

#[test]
fn wheel_events_add_up_to_steps() {
    let mut a = app();
    assert_eq!(a.wheel(80), 0);
    assert_eq!(a.wheel(80), 1);
    assert_eq!(a.wheel(-120), -1);
}

// --- Showing ---------------------------------------------------------------

#[test]
fn fullscreen_apps_keep_the_bar_away() {
    let mut a = app();
    assert_eq!(a.show_osd(true, at(0)), Show::Suppressed);
    assert!(a.hide_at.is_none());
    assert_eq!(a.show_osd(false, at(100)), Show::Fresh);
    assert_eq!(a.hide_at, Some(at(1600)));
    a.appear(Some((5, 6)), monitor(), at(100));
    assert!(a.animating);
    assert_eq!(a.tray_point, Some((5, 6)));
    assert_eq!(a.show_osd(false, at(200)), Show::Extended);
    assert_eq!(a.hide_at, Some(at(1700)));
    a.settings.hide_in_fullscreen = false;
    assert_eq!(a.show_osd(true, at(300)), Show::Extended);
}

fn input(dt: f32, level: f32, hovering: bool, now: Instant) -> FrameInput {
    let frames = dt / (16.0 / 1000.0);
    FrameInput {
        dt: single(dt),
        keep_meter: single((1.0f32 - 0.25).powf(frames)),
        keep_level: single((1.0f32 - 0.3).powf(frames)),
        level: single(level),
        hovering,
        now,
    }
}

#[test]
fn animation_matches_single_precision_arithmetic() {
    let mut a = app();
    a.set_watch(ChannelKind::Bus, 0, Some(single(0.0)), Some(single(0.0)), None);
    a.display_pct = single(10.0);
    a.show_osd(false, at(0));
    a.appear(None, monitor(), at(0));
    let (mut meter, mut peak, mut shown, mut alpha, mut pop) = (0.0f32, 0.0f32, 10.0f32, 0.0, 0.0);
    let levels = [0.9f32, 0.2, 0.2, 0.5, 0.0, 0.0, 1.0, 0.3];
    for i in 0..150u64 {
        let dt = 0.016f32;
        let now = at(i * 16);
        let level = levels[(i % 8) as usize];
        let visible = a.animate(input(dt, level, false, now));
        let frames = dt / (16.0 / 1000.0);
        let approach = |per: f32| 1.0 - (1.0 - per).powf(frames);
        meter = if level > meter { level } else { meter + (level - meter) * approach(0.25) };
        peak = if meter >= peak { meter } else { (peak - dt * 0.4).max(meter) };
        let diff = 83.0 - shown;
        if diff.abs() < 0.4 {
            shown = 83.0;
        } else {
            shown += diff * approach(0.3);
        }
        assert_eq!(float(a.meter).to_bits(), meter.to_bits());
        assert_eq!(float(a.meter_peak).to_bits(), peak.to_bits());
        assert_eq!(float(a.display_pct).to_bits(), shown.to_bits());
        if i * 16 >= 1500 {
            alpha -= dt / 0.22;
            pop = f32::max(pop - dt / 0.20, 0.0);
            if alpha <= 0.0 {
                assert!(!visible);
                assert!(!a.animating && a.hide_at.is_none());
                assert_eq!((float(a.anim_alpha), float(a.pop)), (0.0, 0.0));
                return;
            }
        } else {
            alpha = f32::min(alpha + dt / 0.11, 1.0);
            pop = f32::min(pop + dt / 0.26, 1.0);
        }
        assert!(visible);
        assert_eq!(float(a.anim_alpha).to_bits(), f32::to_bits(alpha));
        assert_eq!(float(a.pop).to_bits(), f32::to_bits(pop));
    }
    panic!("the bar never hid");
}

#[test]
fn hovering_keeps_the_bar_up() {
    let mut a = app();
    a.animating = true;
    a.anim_alpha = single(1.0);
    a.hide_at = Some(at(10));
    assert!(a.animate(input(0.016, 0.0, true, at(100))));
    assert_eq!(a.hide_at, Some(at(500)));
    assert_eq!(float(a.anim_alpha), 1.0);
    // Too faint to be hovered.
    a.anim_alpha = single(0.5);
    a.hide_at = Some(at(10));
    assert!(a.animate(input(0.016, 0.0, true, at(200))));
    assert!(float(a.anim_alpha) < 0.5);
}

#[test]
fn frames_account_for_the_time_that_passed() {
    for (passed, expected) in [(0u64, 0.001f32), (16, 0.016), (33, 0.033), (2000, 0.1)] {
        let (dt, frames) = frame_time(at(1000), at(1000 + passed));
        let exact = std::time::Duration::from_millis(passed)
            .as_secs_f32()
            .clamp(0.001, 0.1);
        assert_eq!(float(dt).to_bits(), exact.to_bits());
        assert!((float(dt) - expected).abs() < 1e-6);
        assert_eq!(float(frames).to_bits(), (exact / (16.0f32 / 1000.0)).to_bits());
    }
    assert_eq!(float(frame_time(at(9), at(3)).0), 0.001);
}

#[test]
fn a_small_movement_is_a_click() {
    let mut a = app();
    assert!(a.motion((0, 0), at(0)).is_none());
    a.press((100, 100), (50, 60));
    assert!(a.motion((103, 103), at(0)).is_none());
    assert!(a.settings.position == Position::AboveTray);
    assert_eq!(a.release(at(0)), Release::Clicked);
    assert!(a.drag.is_none());
    assert_eq!(a.release(at(0)), Release::Clicked);
}

#[test]
fn a_larger_movement_is_a_drag() {
    let mut a = app();
    a.press((100, 100), (50, 60));
    assert_eq!(a.motion((104, 97), at(0)), Some((54, 57)));
    assert!(a.settings.position == Position::Custom);
    assert_eq!((a.settings.custom_x, a.settings.custom_y), (54, 57));
    assert_eq!((float(a.pop), float(a.anim_alpha)), (1.0, 1.0));
    assert_eq!(a.hide_at, Some(at(600)));
    // Once a drag, small movements count.
    assert_eq!(a.motion((101, 100), at(100)), Some((51, 60)));
    assert_eq!(a.release(at(200)), Release::Dragged);
    assert_eq!(a.hide_at, Some(at(1700)));
    a.press((0, 0), (0, 0));
    a.capture_lost();
    assert!(a.drag.is_none());
}

// --- Drawing ---------------------------------------------------------------

#[test]
fn colours_pack_into_words() {
    assert_eq!(argb(0x12, 0x34, 0x56, 0x78), 0x1234_5678);
    assert_eq!(tint((1, 2, 3), 255), 0xFF01_0203);
    assert_eq!(rgb(1, 2, 3), 0x0003_0201);
    assert_eq!(color_of_rgb(0x0003_0201), (1, 2, 3));
}

#[test]
fn shading_matches_single_precision_arithmetic() {
    let reference = |c: u8, amount: f32| {
        let c = c as f32;
        let v = if amount >= 0.0 { c + (255.0 - c) * amount } else { c * (1.0 + amount) };
        v.clamp(0.0, 255.0) as u8
    };
    for amount in [-2.0f32, -1.0, -0.18, -0.0, 0.0, 0.25, 0.28, 1.0, 2.0, f32::NAN] {
        for c in 0..=255u8 {
            let expected = reference(c, amount);
            assert_eq!(shade((c, c, c), single(amount)), (expected, expected, expected));
        }
    }
}

#[test]
fn outlines_round_their_corners() {
    let area = |w, h, r| RoundRect {
        x: single(1.0),
        y: single(2.0),
        w: single(w),
        h: single(h),
        r: single(r),
    };
    let square = round_rect_path(area(10.0, 6.0, 0.0));
    assert_eq!(square.len(), 3);
    assert_eq!(
        square[1],
        PathPart::Line {
            x1: single(11.0),
            y1: single(2.0),
            x2: single(11.0),
            y2: single(8.0),
        }
    );
    // The radius is held to half the smaller side.
    let round = round_rect_path(area(10.0, 6.0, 50.0));
    assert_eq!(round.len(), 4);
    assert_eq!(
        round[2],
        PathPart::Quarter { x: single(5.0), y: single(2.0), d: single(6.0), start: 0 }
    );
    let gradient = gradient_box(area(0.5, 6.0, 1.0));
    assert_eq!((float(gradient.y), float(gradient.w), float(gradient.h)), (1.5, 1.0, 7.0));
    assert_eq!(shown_size(0, 500, (86, 255)), (1, 255));
    assert_eq!(shown_size(40, 50, (86, 255)), (40, 50));
}

fn view(muted: bool) -> BarView {
    BarView {
        settings: Settings::default(),
        muted,
        meter: single(0.6),
        meter_peak: single(0.9),
    }
}

fn bar(position: Position, orientation: Orientation, dpi: i32, pop: f32, alpha: f32) -> Bar {
    let mut v = view(false);
    v.settings.position = position;
    v.settings.orientation = orientation;
    let (width, height) = size_for(&v.settings, dpi);
    Bar {
        view: v,
        display_pct: single(47.0),
        anim_alpha: single(alpha),
        pop: single(pop),
        tray_point: Some((1800, 1060)),
        monitor: monitor(),
        dpi,
        width,
        height,
        accent: (70, 160, 255),
    }
}

#[test]
fn frames_match_single_precision_arithmetic() {
    for position in [Position::AboveTray, Position::Centre] {
        for orientation in [Orientation::Vertical, Orientation::Horizontal] {
            for dpi in [96, 120, 144, 192] {
                for step in 0..=20 {
                    let pop_in = step as f32 / 20.0;
                    let b = bar(position, orientation, dpi, pop_in, pop_in);
                    let f = render(&b);
                    let inv = 1.0 - pop_in.clamp(0.0, 1.0);
                    let pop = 1.0 - inv * inv * inv;
                    let scale = 0.28f32 + (1.0 - 0.28) * pop;
                    assert_eq!(float(f.scale).to_bits(), scale.to_bits());
                    let draw_w = (b.width as f32 * scale).round() as i32;
                    let draw_h = (b.height as f32 * scale).round() as i32;
                    assert_eq!((f.width, f.height), (draw_w, draw_h));
                    let (end_x, end_y) = voicemeeter_osd::osd::origin_for(
                        &b.view.settings,
                        dpi,
                        &b.monitor,
                        b.tray_point,
                    );
                    let (x, y) = if position == Position::AboveTray {
                        let start_x = (1800 - draw_w / 2) as f32;
                        let start_y = (1060 - draw_h / 2) as f32;
                        (
                            (start_x + (end_x as f32 - start_x) * pop).round() as i32,
                            (start_y + (end_y as f32 - start_y) * pop).round() as i32,
                        )
                    } else {
                        (
                            end_x + (b.width - draw_w) / 2,
                            end_y + (b.height - draw_h) / 2,
                        )
                    };
                    assert_eq!((f.x, f.y), (x, y));
                    let opacity = (92.0f32 / 100.0) * pop_in;
                    assert_eq!(f.alpha, (opacity.clamp(0.0, 1.0) * 255.0) as u8);
                    assert!(f.width <= b.width && f.height <= b.height);
                }
            }
        }
    }
}

#[test]
fn only_docked_bars_have_a_tail() {
    let tails = |b: &Bar| {
        render(b)
            .shapes
            .iter()
            .filter(|s| matches!(s, Shape::Triangle { .. }))
            .count()
    };
    assert_eq!(tails(&bar(Position::AboveTray, Orientation::Vertical, 96, 1.0, 1.0)), 1);
    assert_eq!(tails(&bar(Position::Centre, Orientation::Vertical, 96, 1.0, 1.0)), 0);
}

#[test]
fn the_tail_points_at_the_icon() {
    let mut b = bar(Position::AboveTray, Orientation::Vertical, 96, 1.0, 1.0);
    let tip = |b: &Bar| {
        render(b).shapes.iter().find_map(|s| match s {
            Shape::Triangle { c, .. } => Some((float(c.x), float(c.y))),
            _ => None,
        })
    };
    // Centred: 43 of 86 pixels, and 9 below a card of 226.
    assert_eq!(tip(&b), Some((43.0, 245.0)));
    b.tray_point = Some((1915, 1060));
    // Held clear of the rounded corner.
    assert_eq!(tip(&b), Some((10.0 + 66.0 - 22.0 - 6.0, 245.0)));
    b.tray_point = None;
    assert_eq!(tip(&b), Some((43.0, 245.0)));
}

fn fills(shapes: &[Shape]) -> Vec<(f32, f32, f32, f32, u32)> {
    shapes
        .iter()
        .filter_map(|s| match s {
            Shape::Fill { area, color } => Some((
                float(area.x),
                float(area.y),
                float(area.w),
                float(area.h),
                *color,
            )),
            _ => None,
        })
        .collect()
}

#[test]
fn the_upright_face() {
    let shapes = draw_vertical(
        view(false),
        single(10.0),
        single(66.0),
        single(226.0),
        96,
        (70, 160, 255),
        single(0.5),
    );
    let f = fills(&shapes);
    // Track, meter track, meter, peak marker, unity tick.
    assert_eq!(f.len(), 5);
    assert_eq!(f[0], (32.5, 68.0, 10.0, 126.0, argb(38, 255, 255, 255)));
    assert_eq!(f[1], (49.5, 68.0, 4.0, 126.0, argb(30, 255, 255, 255)));
    assert_eq!(f[2].4, argb(255, 110, 205, 130));
    assert_eq!(f[2].3, 126.0 * 0.6f32);
    assert_eq!(f[3].4, argb(255, 235, 175, 70));
    assert_eq!(f[3].1, 194.0 - 126.0 * 0.9f32 - 1.0);
    assert_eq!(f[4].1, 194.0 - 126.0 * (60.0f32 / 72.0) - 0.5);
    let gradient = shapes.iter().find_map(|s| match s {
        Shape::Gradient { area, top, bottom } => {
            Some((float(area.y), float(area.h), *top, *bottom))
        }
        _ => None,
    });
    let light = shade((70, 160, 255), single(0.28));
    assert_eq!(
        gradient,
        Some((131.0, 63.0, tint(light, 255), tint((70, 160, 255), 255)))
    );
    let texts: Vec<Caption> = shapes
        .iter()
        .filter_map(|s| match s {
            Shape::Text { what, .. } => Some(*what),
            _ => None,
        })
        .collect();
    assert_eq!(texts, vec![Caption::Channel, Caption::Level, Caption::Gain]);
}

#[test]
fn muted_faces_hide_the_gain() {
    for shapes in [
        draw_vertical(
            view(true),
            single(10.0),
            single(66.0),
            single(226.0),
            96,
            (1, 2, 3),
            single(0.5),
        ),
        draw_horizontal(
            view(true),
            single(10.0),
            single(300.0),
            single(86.0),
            96,
            (1, 2, 3),
            single(0.5),
        ),
    ] {
        assert!(!shapes.iter().any(|s| matches!(s, Shape::Text { what: Caption::Gain, .. })));
        assert_eq!(shapes.iter().filter(|s| matches!(s, Shape::Line { .. })).count(), 2);
        assert!(!shapes.iter().any(|s| matches!(s, Shape::Arc { .. })));
        assert!(shapes.iter().any(|s| match s {
            Shape::Gradient { top, bottom, .. } => {
                *top == tint((150, 62, 62), 255) || *bottom == tint((150, 62, 62), 255)
            }
            _ => false,
        }));
    }
}

#[test]
fn the_lying_face() {
    let shapes = draw_horizontal(
        view(false),
        single(10.0),
        single(300.0),
        single(86.0),
        96,
        (70, 160, 255),
        single(0.5),
    );
    let f = fills(&shapes);
    assert_eq!(f.len(), 5);
    assert_eq!(f[0], (72.0, 54.0, 164.0, 10.0, argb(38, 255, 255, 255)));
    assert_eq!(f[1].0, 72.0 + 164.0 * (60.0f32 / 72.0) - 0.5);
    assert_eq!(f[2], (72.0, 72.0, 164.0, 4.0, argb(30, 255, 255, 255)));
    assert_eq!(f[3].2, 164.0 * 0.6f32);
    assert_eq!(f[4].0, 72.0 + 164.0 * 0.9f32 - 1.0);
}

#[test]
fn meters_turn_amber_and_red() {
    assert_eq!(meter_color(single(0.5)), argb(255, 110, 205, 130));
    assert_eq!(meter_color(single(0.88)), argb(255, 110, 205, 130));
    assert_eq!(meter_color(single(0.9)), argb(255, 235, 175, 70));
    assert_eq!(meter_color(single(0.96)), argb(255, 235, 175, 70));
    assert_eq!(meter_color(single(0.97)), argb(255, 240, 80, 70));
}

#[test]
fn the_glyph_shadow_and_tail() {
    let speaker = draw_speaker(single(50.0), single(30.0), single(20.0), false, 0xEBFF_FFFF);
    assert_eq!(speaker.len(), 3);
    match speaker[0] {
        Shape::Hexagon { a, d, color, .. } => {
            assert_eq!(float(a.x), 50.0 - 20.0 * 0.42f32);
            assert_eq!(float(d.y), 30.0 + 20.0 * 0.44f32);
            assert_eq!(color, 0xEBFF_FFFF);
        }
        _ => panic!("no body"),
    }
    match speaker[2] {
        Shape::Arc { radius, start, sweep, color, .. } => {
            assert_eq!(float(radius), 20.0 * 0.5f32);
            assert_eq!((float(start), float(sweep)), (-52.0, 104.0));
            // 235 - 70 = 165.
            assert_eq!(color, argb(165, 255, 255, 255));
        }
        _ => panic!("no wave"),
    }
    let shadow = draw_shadow(single(10.0), single(66.0), single(226.0), single(22.0), single(1.0));
    let alphas: Vec<u32> = fills(&shadow).iter().map(|f| f.4 >> 24).collect();
    let expected: Vec<u32> = (1..=6).rev().map(|i| (16.0 / i as f32) as u8 as u32).collect();
    assert_eq!(alphas, expected);
    assert_eq!(fills(&shadow)[0].0, 10.0 - 9.0);
    assert_eq!(fills(&shadow)[0].1, 10.0 - 9.0 + 1.5);
    let tail = draw_tail(single(40.0), single(236.0), single(18.0), single(9.0));
    assert_eq!(tail.len(), 3);
}

#[test]
fn the_preview_shows_a_miniature() {
    let area = (single(5.0), single(6.0), single(54.0), single(104.0));
    let s = Settings::default();
    let shapes = draw_preview(&s, (9, 8, 7), 65, false, area);
    assert!(shapes.iter().any(|x| matches!(
        x,
        Shape::Text { what: Caption::Percent(65), align: Align::Center, bold: true, .. }
    )));
    assert_eq!(fills(&shapes), vec![(28.0, 20.0, 8.0, 64.0, argb(38, 255, 255, 255))]);
    let mut flat = s;
    flat.orientation = Orientation::Horizontal;
    let area = (single(5.0), single(6.0), single(252.0), single(62.0));
    let shapes = draw_preview(&flat, (9, 8, 7), 65, true, area);
    assert!(shapes.iter().any(|x| matches!(x, Shape::Hexagon { .. })));
    assert_eq!(fills(&shapes), vec![(39.0, 33.0, 176.0, 8.0, argb(38, 255, 255, 255))]);
}

#[test]
fn the_settings_page() {
    let pr = Rect { left: 24, top: 392, right: 434, bottom: 516 };
    let shapes = paint(896, pr, 96, &Settings::default(), (9, 8, 7), 65, false);
    let f = fills(&shapes);
    assert_eq!(f[0], (0.0, 76.0, 896.0, 1.0, tint((54, 54, 62), 255)));
    assert_eq!(f[1], (448.0, 96.0, 1.0, 420.0, tint((54, 54, 62), 255)));
    // The miniature is centred on the panel: 229 - 27, 454 - 52.
    let card = shapes.iter().filter_map(|s| match s {
        Shape::Gradient { area, .. } => Some((float(area.x), float(area.y))),
        _ => None,
    });
    assert_eq!(card.collect::<Vec<_>>()[..2], [(24.0, 392.0), (202.0, 402.0)]);
}

#[test]
fn controls_are_painted() {
    let rc = Rect { left: 0, top: 0, right: 46, bottom: 26 };
    let on = draw_toggle(rc, true, (9, 8, 7), true, 96);
    let off = draw_toggle(rc, false, (9, 8, 7), false, 96);
    assert_eq!(fills(&on)[0].4, tint((9, 8, 7), 255));
    assert_eq!(fills(&off)[0].4, tint((44, 44, 50), 255));
    let knob = |shapes: &[Shape]| {
        shapes.iter().find_map(|s| match s {
            Shape::Ellipse { x, w, .. } => Some((float(*x), float(*w))),
            _ => None,
        })
    };
    let track_h = 26.0 * 0.78f32;
    let size = track_h - 3.0 * 2.0;
    assert_eq!(knob(&off), Some((3.0, size)));
    assert_eq!(knob(&on), Some((46.0 - size - 3.0, size)));
    let strokes = |shapes: &[Shape]| {
        shapes.iter().filter(|s| matches!(s, Shape::Stroke { .. })).count()
    };
    // The focus outline on the one, the border on the other.
    assert_eq!((strokes(&on), strokes(&off)), (1, 1));
    let seg = draw_segment(rc, true, (9, 8, 7), false, 96);
    assert_eq!(strokes(&seg), 0);
    assert!(matches!(
        seg.last(),
        Some(Shape::Text { what: Caption::Control, bold: true, .. })
    ));
    let save = draw_button(3014, rc, true, (100, 100, 100), false, 96);
    let pressed = shade((100, 100, 100), single(-0.18));
    assert_eq!(fills(&save)[0].4, tint(pressed, 255));
    let color = draw_button(3006, rc, false, (9, 8, 7), true, 96);
    assert_eq!(fills(&color)[0].4, tint((44, 44, 50), 255));
    assert_eq!(fills(&color)[1].4, tint((9, 8, 7), 255));
    assert_eq!(strokes(&color), 2);
}
