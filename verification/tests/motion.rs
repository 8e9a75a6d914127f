use voicemeeter_osd::app_state::AppState;
use voicemeeter_osd::config::{ChannelKind, Orientation, Position, Settings};
use voicemeeter_osd::frame::{render, Bar};
use voicemeeter_osd::gfx::Caption;
use voicemeeter_osd::motion::{frame_time, FrameInput, Release};
use voicemeeter_osd::osd::{origin_for, size_for, MonitorInfo, Rect};
use voicemeeter_osd::poll::PollTask;
use voicemeeter_osd::settings_paint::{
    is_pressed, label_rgb, owner_focus_visible, text_dim_rgb, text_rgb, toggle_focus_visible,
};
use voicemeeter_osd::single::Single;
use voicemeeter_osd::state::{scan_for_movement, Channel};
use voicemeeter_osd::time::Instant;
use voicemeeter_osd::vmr::Link;

fn single(x: f32) -> Single {
    Single::from_bits(x.to_bits())
}

fn float(x: Single) -> f32 {
    f32::from_bits(x.bits)
}

fn monitor(dpi: i32) -> MonitorInfo {
    let area = Rect { left: -1280, top: 0, right: 640, bottom: 1040 };
    MonitorInfo { work: area, full: area, dpi }
}

fn app() -> AppState {
    AppState::new(Settings::default(), monitor(96), Instant { nanos: 0 })
}

// --- A poll ----------------------------------------------------------------

#[test]
fn a_quiet_poll_reads_ticks_and_supervises() {
    let app = app();
    let mut tasks = vec![app.first_task(Link::Up)];
    while *tasks.last().unwrap() != PollTask::Done {
        tasks.push(app.next_task(*tasks.last().unwrap(), false));
    }
    assert_eq!(
        tasks,
        [
            PollTask::CheckEdition,
            PollTask::Refresh,
            PollTask::Tick,
            PollTask::Supervise,
            PollTask::Done,
        ]
    );
    assert_eq!(app.first_task(Link::Stale), PollTask::Refresh);
    assert_eq!(app.first_task(Link::NoServer), PollTask::Refresh);
}

#[test]
fn a_busy_poll_does_everything() {
    let mut app = app();
    app.settings.watch_all = true;
    app.sync_watch_targets();
    let mut tasks = vec![app.first_task(Link::Up)];
    while *tasks.last().unwrap() != PollTask::Done {
        tasks.push(app.next_task(*tasks.last().unwrap(), true));
    }
    assert_eq!(
        tasks,
        [
            PollTask::CheckEdition,
            PollTask::Announce,
            PollTask::Scan,
            PollTask::Follow,
            PollTask::Refresh,
            PollTask::Show,
            PollTask::Tick,
            PollTask::LocateTray,
            PollTask::Supervise,
            PollTask::Relogin,
            PollTask::Done,
        ]
    );
    assert_eq!(app.first_task(Link::Stale), PollTask::Scan);
    assert_eq!(app.next_task(PollTask::Done, true), PollTask::Done);
}

#[test]
fn a_steady_reading_is_reported_once() {
    let mut app = app();
    app.settings.watch_all = true;
    app.sync_watch_targets();
    let mut readings = vec![(Some(single(0.0)), Some(single(0.0))); app.watch_targets.len()];
    assert_eq!(scan_for_movement(&mut app.watch_targets, &readings), None);
    readings[1].0 = Some(single(-3.5));
    let moved = scan_for_movement(&mut app.watch_targets, &readings);
    assert_eq!(moved, Some((ChannelKind::Strip, 1)));
    assert_eq!(scan_for_movement(&mut app.watch_targets, &readings), None);
}

// --- Captions and colours --------------------------------------------------

#[test]
fn captions_say_what_the_channel_shows() {
    let mut c = Channel::unread(ChannelKind::Bus, 0);
    c.label = "Headphones".to_string();
    assert_eq!(c.caption(Caption::Gain, ""), "");
    c.refresh(&Settings::default(), Some(single(-26.0)), Some(single(0.0)));
    assert_eq!(c.caption(Caption::Channel, ""), "Headphones");
    assert_eq!(c.caption(Caption::Level, ""), "47%");
    assert_eq!(c.caption(Caption::Gain, ""), "-26.0 dB");
    assert_eq!(c.caption(Caption::Percent(65), ""), "65%");
    assert_eq!(c.caption(Caption::Title, ""), "Voicemeeter OSD");
    assert_eq!(c.caption(Caption::Subtitle, ""), "On-screen volume display");
    assert_eq!(c.caption(Caption::Control, "Save"), "Save");
    c.refresh(&Settings::default(), None, Some(single(1.0)));
    assert_eq!(c.caption(Caption::Level, ""), "Muted");
}

#[test]
fn control_states_are_told_apart() {
    assert!(owner_focus_visible(0x10));
    assert!(!owner_focus_visible(0x210));
    assert!(!owner_focus_visible(0));
    assert!(toggle_focus_visible(0x210));
    assert!(!toggle_focus_visible(0x10));
    assert!(!toggle_focus_visible(0x200));
    assert!(is_pressed(0x11));
    assert!(!is_pressed(0x10));
    assert_eq!(label_rgb(3100), text_dim_rgb());
    assert_eq!(label_rgb(3199), text_dim_rgb());
    assert_eq!(label_rgb(3200), text_rgb());
    assert_eq!(label_rgb(0), text_rgb());
}

// --- The way of the bar ----------------------------------------------------

fn bar(position: Position, dpi: i32, pop: f32) -> Bar {
    let mut app = app();
    app.settings.position = position;
    app.settings.orientation = Orientation::Horizontal;
    app.tray_point = Some((200, 1060));
    app.monitor = monitor(dpi);
    app.pop = single(pop);
    app.anim_alpha = single(1.0);
    app.bar(dpi, size_for(&app.settings, dpi), (70, 160, 255))
}

fn between(n: i32, a: i32, b: i32) -> bool {
    a.min(b) <= n && n <= a.max(b)
}

#[test]
fn a_docked_bar_travels_between_icon_and_resting_place() {
    for dpi in [96, 120, 144, 168, 192, 288] {
        for step in 0..=20 {
            let bar = bar(Position::AboveTray, dpi, step as f32 / 20.0);
            assert!(bar.has_room_for_tail());
            let frame = render(&bar);
            let end = origin_for(&bar.view.settings, dpi, &bar.monitor, bar.tray_point);
            let start = (200 - frame.width / 2, 1060 - frame.height / 2);
            assert!(between(frame.x, start.0, end.0));
            assert!(between(frame.y, start.1, end.1));
            if step == 0 {
                assert_eq!((frame.x, frame.y), start);
            }
            if step == 20 {
                assert_eq!((frame.x, frame.y), end);
                assert_eq!((frame.width, frame.height), (bar.width, bar.height));
                assert_eq!(float(frame.scale), 1.0);
            }
        }
    }
}

#[test]
fn a_floating_bar_rests_at_its_place() {
    for position in [Position::Centre, Position::Custom] {
        let bar = bar(position, 144, 1.0);
        let frame = render(&bar);
        let end = origin_for(&bar.view.settings, 144, &bar.monitor, bar.tray_point);
        assert_eq!((frame.x, frame.y), end);
        assert_eq!((frame.width, frame.height), (bar.width, bar.height));
    }
}

#[test]
fn a_card_without_a_straight_edge_has_no_room_for_a_tail() {
    let mut bar = bar(Position::AboveTray, 96, 1.0);
    bar.width = 60;
    assert!(!bar.has_room_for_tail());
    bar.tray_point = None;
    assert!(bar.has_room_for_tail());
    bar.tray_point = Some((0, 0));
    bar.view.settings.position = Position::Centre;
    assert!(bar.has_room_for_tail());
}

#[test]
fn meters_stay_between_silence_and_full_scale() {
    let mut app = app();
    let levels = [0.0f32, 1.0, 0.3, 0.31, 0.0, 0.0, 0.9999999, 1e-30, 0.5, 1e-45];
    for round in 0..40 {
        let level = levels[round % levels.len()];
        let before = (float(app.meter), float(app.meter_peak));
        app.animate(FrameInput {
            dt: single(0.016),
            keep_meter: single(0.75),
            keep_level: single(0.7),
            level: single(level),
            hovering: false,
            now: Instant { nanos: 0 },
        });
        let (meter, peak) = (float(app.meter), float(app.meter_peak));
        assert!((0.0..=1.0).contains(&meter));
        assert!((0.0..=1.0).contains(&peak));
        assert!(meter <= peak);
        if level > before.0 {
            assert_eq!(meter, level);
        } else {
            assert!(meter <= before.0);
        }
        assert!(peak <= before.1.max(meter));
    }
}

// --- Whole grabs -----------------------------------------------------------

#[test]
fn a_grab_is_a_click_or_a_drag() {
    let none: &[(i32, i32)] = &[];
    let cases = [
        (none, None),
        (&[(103, 103), (97, 103), (100, 106)][..], None),
        (&[(104, 103)][..], Some((54, 63))),
        (&[(103, 103), (90, 100), (100, 100)][..], Some((50, 60))),
        (&[(-900, 2000), (101, 99), (300, 40)][..], Some((250, 0))),
    ];
    for (moves, place) in cases {
        let mut app = app();
        let before = app.settings.serialize();
        app.press((100, 100), (50, 60));
        for &cursor in moves {
            app.motion(cursor, Instant { nanos: 1 });
        }
        let release = app.release(Instant { nanos: 2 });
        assert!(app.drag.is_none());
        match place {
            None => {
                assert_eq!(release, Release::Clicked);
                assert_eq!(app.settings.serialize(), before);
                assert!(app.hide_at.is_none());
            }
            Some(place) => {
                assert_eq!(release, Release::Dragged);
                assert_eq!(app.settings.position, Position::Custom);
                assert_eq!((app.settings.custom_x, app.settings.custom_y), place);
                let mut back = app.settings;
                back.position = Position::AboveTray;
                (back.custom_x, back.custom_y) = (0, 0);
                assert_eq!(back.serialize(), before);
            }
        }
    }
}

#[test]
fn long_pauses_count_as_a_tenth_of_a_second() {
    let start = Instant { nanos: 0 };
    for nanos in [999_999_999, 1_000_000_000, 5_000_000_000, u128::MAX] {
        let (dt, frames) = frame_time(start, Instant { nanos });
        assert_eq!(float(dt), 0.1);
        assert_eq!(float(frames), 0.1 / (16.0f32 / 1000.0));
    }
    assert_eq!(float(frame_time(start, start).0), 0.001);
}
