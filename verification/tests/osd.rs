use voicemeeter_osd::config::{Orientation, Position, Settings};
use voicemeeter_osd::osd::{
    covers, custom_is_set, fullscreen_foreground, has_tail, is_desktop, metrics_of, origin_for,
    resolve_monitor, size_for, ActiveWindow, MonitorChoice, MonitorInfo, MonitorReport, Rect,
};

fn monitor() -> MonitorInfo {
    let area = Rect {
        left: 0,
        top: 0,
        right: 1920,
        bottom: 1040,
    };
    MonitorInfo {
        work: area,
        full: area,
        dpi: 96,
    }
}

#[test]
fn offscreen_custom_position_is_pulled_back() {
    let mut settings = Settings::default();
    settings.position = Position::Custom;
    settings.custom_x = -3000;
    settings.custom_y = 4000;
    let (x, y) = origin_for(&settings, 96, &monitor(), None);
    let (w, h) = size_for(&settings, 96);
    let wa = monitor().work;
    assert!(x + w >= wa.left + 48);
    assert!(x <= wa.right - 48);
    assert!(y + h >= wa.top + 48);
    assert!(y <= wa.bottom - 48);
}

#[test]
fn onscreen_custom_position_is_untouched() {
    let mut settings = Settings::default();
    settings.position = Position::Custom;
    settings.custom_x = 300;
    settings.custom_y = 200;
    assert_eq!(origin_for(&settings, 96, &monitor(), None), (300, 200));
}

#[test]
fn sizes_grow_with_the_resolution() {
    let mut s = Settings::default();
    assert!(has_tail(&s));
    assert_eq!(size_for(&s, 96), (86, 255));
    assert_eq!(size_for(&s, 144), (129, 382));
    s.position = Position::Centre;
    s.orientation = Orientation::Horizontal;
    assert!(!has_tail(&s));
    assert_eq!(size_for(&s, 96), (320, 106));
}

#[test]
fn a_docked_bar_is_centred_over_the_icon() {
    let s = Settings::default();
    // 86 wide: 43 to the left of the icon.
    assert_eq!(origin_for(&s, 96, &monitor(), Some((1000, 1060))), (957, 785));
    // Too far right: held at the edge.
    assert_eq!(origin_for(&s, 96, &monitor(), Some((1915, 1060))), (1834, 785));
    assert_eq!(origin_for(&s, 96, &monitor(), Some((-50, 1060))), (0, 785));
    // Without an icon it goes to the corner.
    assert_eq!(origin_for(&s, 96, &monitor(), None), (1834, 785));
}

#[test]
fn a_floating_bar_sits_low_in_the_middle() {
    let mut s = Settings::default();
    s.position = Position::Centre;
    assert_eq!(origin_for(&s, 96, &monitor(), None), (917, 664));
    // A custom place that was never set behaves the same.
    s.position = Position::Custom;
    assert!(!custom_is_set(&s));
    assert_eq!(origin_for(&s, 96, &monitor(), None), (917, 664));
}

#[test]
fn the_display_follows_the_position() {
    let mut s = Settings::default();
    let near = |x, y| MonitorChoice::Near { x, y };
    assert_eq!(resolve_monitor(&s, Some((5, 6)), true, None), near(5, 6));
    assert_eq!(resolve_monitor(&s, None, true, None), MonitorChoice::Primary);
    s.position = Position::Centre;
    assert_eq!(resolve_monitor(&s, Some((5, 6)), true, None), MonitorChoice::Foreground);
    assert_eq!(resolve_monitor(&s, None, false, Some((7, 8))), near(7, 8));
    assert_eq!(resolve_monitor(&s, None, false, None), MonitorChoice::Primary);
    s.position = Position::Custom;
    assert_eq!(resolve_monitor(&s, None, true, None), MonitorChoice::Foreground);
    s.custom_y = 9;
    assert_eq!(resolve_monitor(&s, None, true, None), near(0, 9));
}

#[test]
fn displays_have_at_least_the_base_resolution() {
    let m = monitor();
    let report = |dpi| {
        Some(MonitorReport {
            work: m.work,
            full: m.full,
            dpi,
        })
    };
    assert_eq!(metrics_of(report(144), (1, 1)).dpi, 144);
    assert_eq!(metrics_of(report(72), (1, 1)).dpi, 96);
    assert_eq!(metrics_of(report(0xFFFF_FFFF), (1, 1)).dpi, 96);
    let fallback = metrics_of(None, (800, 600));
    assert_eq!(fallback.dpi, 96);
    assert_eq!(fallback.work, fallback.full);
    assert_eq!((fallback.work.right, fallback.work.bottom), (800, 600));
}

fn units(s: &str) -> Vec<u16> {
    s.encode_utf16().collect()
}

#[test]
fn the_desktop_is_no_fullscreen_app() {
    assert!(is_desktop(&units("WorkerW")));
    assert!(is_desktop(&units("Progman")));
    assert!(!is_desktop(&units("Notepad")));
    assert!(!is_desktop(&units("workerw")));
}

#[test]
fn fullscreen_apps_are_recognised() {
    let full = monitor().full;
    let window = |shell, class: &str, rect| {
        Some(ActiveWindow {
            shell,
            class: units(class),
            rect,
            display: full,
        })
    };
    assert!(fullscreen_foreground(Some(3), &None));
    assert!(fullscreen_foreground(Some(4), &None));
    assert!(!fullscreen_foreground(Some(5), &None));
    assert!(!fullscreen_foreground(None, &None));
    assert!(fullscreen_foreground(Some(5), &window(false, "Game", Some(full))));
    assert!(!fullscreen_foreground(Some(5), &window(true, "Game", Some(full))));
    assert!(!fullscreen_foreground(Some(5), &window(false, "Progman", Some(full))));
    assert!(!fullscreen_foreground(Some(5), &window(false, "Game", None)));
    let smaller = Rect { right: 1919, ..full };
    assert!(!fullscreen_foreground(Some(5), &window(false, "Game", Some(smaller))));
    assert!(covers(full, smaller));
    assert!(!covers(smaller, full));
}
