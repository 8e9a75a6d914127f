use voicemeeter_osd::config::{ChannelKind, Hotkey, Orientation, Position, Settings};
use voicemeeter_osd::layout::{build_controls, ControlClass, ControlText, CLIENT_W};
use voicemeeter_osd::messages::{
    failed_keys, hook_change, hotkey_ids, is_inside, main_event, menu_channel, mouse_hook, osd_event,
    settings_event, sync_input, HookChange, HotkeyAction, MainEvent, OsdEvent, Registration,
    SettingsEvent,
};
use voicemeeter_osd::osd::{origin_for, MonitorInfo, Rect};
use voicemeeter_osd::settings_actions::{
    apply_live, channel_caption, is_section, item_caption, item_of, needs_place, route_key,
    warn_taken, Command, KeyRoute,
};
use voicemeeter_osd::settings_ui::{
    get_text, seg_group_of, toggle_of, Controls, Field, Toggle, Ui,
};
use voicemeeter_osd::single::Single;

fn chars(s: &str) -> Vec<char> {
    s.chars().collect()
}

fn float(x: Single) -> f32 {
    f32::from_bits(x.bits)
}

fn ui() -> Ui {
    Ui::new(Settings::default(), false, 96)
}

fn controls() -> Controls {
    Controls {
        selected: -1,
        opacity: chars("92"),
        hide_ms: chars("1500"),
        min_db: chars("-60"),
        max_db: chars("12"),
        step_db: chars("1"),
        hotkey_up: 0x0E26,
        hotkey_down: 0x0E28,
        hotkey_mute: 0x064D,
    }
}

#[test]
fn main_window_messages() {
    let event = |msg, w, l| main_event(msg, w, l, 0xC001);
    assert_eq!(event(0xC001, 0, 0), MainEvent::TaskbarCreated);
    assert_eq!(main_event(0, 0, 0, 0), MainEvent::Default);
    assert_eq!(event(0x8001, 0, 0x1_0205), MainEvent::ShowMenu);
    assert_eq!(event(0x8001, 0, 0x202), MainEvent::OpenSettings);
    assert_eq!(event(0x8001, 0, 0x203), MainEvent::OpenSettings);
    assert_eq!(event(0x8001, 0, 0x200), MainEvent::Nothing);
    assert_eq!(event(0x8003, 0, 0), MainEvent::OpenSettings);
    assert_eq!(event(0x111, 2001, 0), MainEvent::OpenSettings);
    assert_eq!(event(0x111, 2002, 0), MainEvent::ToggleAutostart);
    assert_eq!(event(0x111, 2003, 0), MainEvent::Exit);
    assert_eq!(event(0x111, 0x7_0000 + 2004, 0), MainEvent::Mute);
    assert_eq!(event(0x111, 2005, 0), MainEvent::ShowVoicemeeter);
    assert_eq!(event(0x111, 2103, 0), MainEvent::PickChannel(3));
    assert_eq!(event(0x111, 2050, 0), MainEvent::Nothing);
    assert_eq!(event(0x113, 1, 0), MainEvent::Poll);
    assert_eq!(event(0x113, 2, 0), MainEvent::Animate);
    assert_eq!(event(0x113, 3, 0), MainEvent::Nothing);
    assert_eq!(event(0x8002, (-120i64) as u64, 0), MainEvent::Wheel(-120));
    assert_eq!(event(0x8002, 120, 0), MainEvent::Wheel(120));
    assert_eq!(event(0x312, 1, 0), MainEvent::Hotkey(HotkeyAction::Up));
    assert_eq!(event(0x312, 2, 0), MainEvent::Hotkey(HotkeyAction::Down));
    assert_eq!(event(0x312, 3, 0), MainEvent::Hotkey(HotkeyAction::Mute));
    assert_eq!(event(0x312, 4, 0), MainEvent::Hotkey(HotkeyAction::Unknown));
    assert_eq!(event(0x320, 0, 0), MainEvent::AccentChanged);
    assert_eq!(event(0x7E, 0, 0), MainEvent::DisplayChanged);
    assert_eq!(event(0x1A, 0, 0), MainEvent::DisplayChanged);
    assert_eq!(event(0x2E0, 0, 0), MainEvent::DisplayChanged);
    assert_eq!(event(2, 0, 0), MainEvent::Destroyed);
}

#[test]
fn menu_items_pick_channels_of_the_edition() {
    assert!(menu_channel(0, 2) == Some((ChannelKind::Strip, 0)));
    assert!(menu_channel(9, 2) == Some((ChannelKind::Bus, 4)));
    assert!(menu_channel(10, 2).is_none());
}

#[test]
fn bar_window_messages() {
    assert_eq!(osd_event(0x201, 0), OsdEvent::Press);
    assert_eq!(osd_event(0x200, 0), OsdEvent::Motion);
    assert_eq!(osd_event(0x202, 0), OsdEvent::Release);
    assert_eq!(osd_event(0x20A, 0x0078_0000), OsdEvent::Wheel(120));
    assert_eq!(osd_event(0x20A, 0xFF88_0004), OsdEvent::Wheel(-120));
    assert_eq!(osd_event(0x208, 0), OsdEvent::Mute);
    assert_eq!(osd_event(0x215, 0), OsdEvent::CaptureLost);
    assert_eq!(osd_event(0x0F, 0), OsdEvent::Default);
}

#[test]
fn settings_window_messages() {
    assert_eq!(settings_event(1, 0), SettingsEvent::Create);
    assert_eq!(settings_event(0x82, 0), SettingsEvent::Gone);
    assert_eq!(settings_event(0x14, 0), SettingsEvent::EraseBackground);
    assert_eq!(settings_event(0x0F, 0), SettingsEvent::Paint);
    assert_eq!(settings_event(0x2E0, 0x90_0090), SettingsEvent::Rescaled(144));
    assert_eq!(settings_event(0x2E0, 0x10_0010), SettingsEvent::Rescaled(96));
    assert_eq!(settings_event(0x138, 0), SettingsEvent::LabelColors);
    assert_eq!(settings_event(0x135, 0), SettingsEvent::LabelColors);
    assert_eq!(settings_event(0x133, 0), SettingsEvent::FieldColors);
    assert_eq!(settings_event(0x134, 0), SettingsEvent::FieldColors);
    assert_eq!(settings_event(0x2B, 0), SettingsEvent::DrawItem);
    assert_eq!(settings_event(0x4E, 0), SettingsEvent::Notify);
    assert_eq!(
        settings_event(0x111, 0x0300_0BC0),
        SettingsEvent::Command { id: 3008, notification: 0x300 }
    );
    assert_eq!(settings_event(0x10, 0), SettingsEvent::Close);
    assert_eq!(settings_event(2, 0), SettingsEvent::Destroy);
    assert_eq!(settings_event(3, 0), SettingsEvent::Default);
}

#[test]
fn the_hook_only_takes_wheels_over_the_icon() {
    let tray = Rect { left: 10, top: 10, right: 20, bottom: 20 };
    let hook = |code, msg, p, on| mouse_hook(code, msg, p, 0xFF88_0000, tray, on);
    assert_eq!(hook(0, 0x20A, (10, 19), true), Some(-120));
    assert_eq!(hook(0, 0x20A, (20, 19), true), None);
    assert_eq!(hook(-1, 0x20A, (10, 19), true), None);
    assert_eq!(hook(0, 0x200, (10, 19), true), None);
    assert_eq!(hook(0, 0x20A, (10, 19), false), None);
    assert!(is_inside(tray, (19, 10)));
    assert!(!is_inside(tray, (9, 10)));
    assert!(!is_inside(tray, (19, 20)));
}

#[test]
fn shortcuts_are_registered_as_configured() {
    let mut s = Settings::default();
    assert!(sync_input(&s).is_empty());
    s.hotkeys_enabled = true;
    s.hotkey_down = Hotkey::none();
    assert_eq!(
        sync_input(&s),
        vec![
            Registration { id: 1, mods: 3, vk: 0x26 },
            Registration { id: 3, mods: 0x4003, vk: 0x4D },
        ]
    );
    assert_eq!(hotkey_ids(), vec![1, 2, 3]);
    assert_eq!(hook_change(&s, false), HookChange::Install);
    assert_eq!(hook_change(&s, true), HookChange::Keep);
    s.tray_scroll = false;
    assert_eq!(hook_change(&s, true), HookChange::Remove);
    assert_eq!(hook_change(&s, false), HookChange::Keep);
}

#[test]
fn shortcuts_that_fail_to_register_are_reported_in_order() {
    let mut s = Settings::default();
    assert!(failed_keys(&s, &vec![1, 2, 3]).is_empty());
    s.hotkeys_enabled = true;
    assert!(failed_keys(&s, &vec![]).is_empty());
    assert_eq!(failed_keys(&s, &vec![2]), vec!["Ctrl+Alt+Down"]);
    assert_eq!(
        failed_keys(&s, &vec![3, 1, 2]),
        vec!["Ctrl+Alt+Up", "Ctrl+Alt+Down", "Ctrl+Alt+M"]
    );
    s.hotkey_down = Hotkey::none();
    assert_eq!(failed_keys(&s, &vec![3, 1, 2, 9]), vec!["Ctrl+Alt+Up", "Ctrl+Alt+M"]);
}

#[test]
fn switches_flip_one_setting_each() {
    for (id, t) in [
        (3010, Toggle::Autostart),
        (3016, Toggle::AccentSystem),
        (3017, Toggle::Fullscreen),
        (3019, Toggle::Watch),
        (3020, Toggle::Hotkeys),
        (3021, Toggle::Debug),
        (3023, Toggle::Scroll),
    ] {
        assert_eq!(toggle_of(id), Some(t));
        let mut u = ui();
        let before = u.toggle(t);
        u.flip(t);
        assert_eq!(u.toggle(t), !before);
        u.flip(t);
        assert_eq!(u.toggle(t), before);
    }
    assert_eq!(toggle_of(3011), None);
}

#[test]
fn segments_choose_orientation_and_position() {
    assert_eq!(seg_group_of(3210), Some((0, 3210, 2)));
    assert_eq!(seg_group_of(3211), Some((0, 3210, 2)));
    assert_eq!(seg_group_of(3212), None);
    assert_eq!(seg_group_of(3222), Some((1, 3220, 3)));
    assert_eq!(seg_group_of(3223), None);
    let mut u = ui();
    u.set_segment(0, 1);
    assert!(u.pending.orientation == Orientation::Horizontal);
    assert_eq!(u.segment(0), 1);
    u.set_segment(1, 2);
    assert!(u.pending.position == Position::Custom);
    assert_eq!(u.segment(1), 2);
    u.set_segment(1, 1);
    assert!(u.pending.position == Position::Centre);
    u.set_segment(1, 9);
    assert!(u.pending.position == Position::AboveTray);
    u.set_segment(0, 0);
    assert_eq!(u.segment(0), 0);
}

#[test]
fn fields_show_their_settings() {
    let s = Settings::default();
    assert_eq!(Field::Opacity.text(&s), "92");
    assert_eq!(Field::HideMs.text(&s), "1500");
    assert_eq!(Field::MinDb.text(&s), "-60");
    assert_eq!(Field::MaxDb.text(&s), "12");
    assert_eq!(Field::StepDb.text(&s), "1");
    assert_eq!(Field::Opacity.id(), 3008);
    assert_eq!(Field::StepDb.id(), 3022);
    let units: Vec<u16> = "  12.5 ".encode_utf16().collect();
    assert_eq!(get_text(&units), chars("12.5"));
}

#[test]
fn controls_are_read_into_the_pending_settings() {
    let mut u = ui();
    assert_eq!(u.list_channels(2), 5);
    let mut c = controls();
    c.selected = 2;
    c.opacity = chars("300");
    c.hide_ms = chars("700");
    c.min_db = chars("-48.5");
    c.max_db = chars("6");
    c.step_db = chars("0.5");
    c.hotkey_up = 0;
    assert!(u.read_controls(&c, true).is_ok());
    assert!(u.pending.kind == ChannelKind::Strip);
    assert_eq!(u.pending.index, 2);
    assert_eq!(u.pending.opacity_pct, 100);
    assert_eq!(u.pending.hide_ms, 700);
    assert_eq!(float(u.pending.min_db), -48.5);
    assert_eq!(float(u.pending.max_db), 6.0);
    assert_eq!(float(u.pending.step_db), 0.5);
    assert_eq!(u.pending.hotkey_up, Hotkey::none());
    assert_eq!(u.pending.hotkey_mute, Settings::default().hotkey_mute);
    // A selection beyond the list leaves the channel alone.
    c.selected = 10;
    assert!(u.read_controls(&c, true).is_ok());
    assert_eq!(u.pending.index, 2);
}

#[test]
fn each_field_is_refused_when_it_does_not_read() {
    let cases: [(Field, &str, &str); 5] = [
        (Field::Opacity, "x", "Opacity must be a whole number from 20 to 100."),
        (
            Field::HideMs,
            "1.5",
            "Hide after must be a whole number of milliseconds (200 to 10000).",
        ),
        (Field::MinDb, "inf", "The fader range minimum must be a number of dB, e.g. -60."),
        (Field::MaxDb, "NaN", "The fader range maximum must be a number of dB, e.g. 12."),
        (Field::StepDb, "", "Step per notch must be a number of dB, e.g. 1 or 0.5."),
    ];
    for (field, text, message) in cases {
        let mut c = controls();
        match field {
            Field::Opacity => c.opacity = chars(text),
            Field::HideMs => c.hide_ms = chars(text),
            Field::MinDb => c.min_db = chars(text),
            Field::MaxDb => c.max_db = chars(text),
            Field::StepDb => c.step_db = chars(text),
        }
        c.hotkey_up = 0;
        let mut u = ui();
        let e = u.read_controls(&c, true).unwrap_err();
        assert_eq!(e.field, field);
        assert_eq!(e.field.message(), message);
        // The shortcuts come after the fields.
        assert_eq!(u.pending.hotkey_up, Settings::default().hotkey_up);
        // A lenient reading skips the field.
        let mut u = ui();
        assert!(u.read_controls(&c, false).is_ok());
        assert_eq!(field.text(&u.pending), field.text(&Settings::default()));
        assert_eq!(u.pending.hotkey_up, Hotkey::none());
        assert!(u.commit_fields(&c).is_err());
    }
}

#[test]
fn fields_before_a_bad_one_are_taken_over() {
    let mut c = controls();
    c.opacity = chars("33");
    c.min_db = chars("?");
    c.max_db = chars("3");
    let mut u = ui();
    assert_eq!(u.read_controls(&c, true).unwrap_err().field, Field::MinDb);
    assert_eq!(u.pending.opacity_pct, 33);
    assert_eq!(float(u.pending.max_db), 12.0);
}

#[test]
fn an_unreadable_opacity_is_still_capped() {
    let mut c = controls();
    c.opacity = chars("x");
    let mut u = ui();
    u.pending.opacity_pct = 200;
    assert_eq!(u.read_controls(&c, true).unwrap_err().field, Field::Opacity);
    assert_eq!(u.pending.opacity_pct, 200);
    assert!(u.read_controls(&c, false).is_ok());
    assert_eq!(u.pending.opacity_pct, 100);
}

#[test]
fn committing_reports_what_was_adjusted() {
    let mut c = controls();
    c.opacity = chars("5");
    c.min_db = chars("20");
    let mut u = ui();
    let changed = u.commit_fields(&c).unwrap();
    assert_eq!(changed, vec![Field::Opacity, Field::MinDb]);
    assert_eq!(u.pending.opacity_pct, 20);
    assert_eq!(float(u.pending.min_db), 11.0);
    assert!(ui().commit_fields(&controls()).unwrap().is_empty());
}

#[test]
fn taken_shortcuts_are_listed() {
    assert_eq!(warn_taken(&vec![]), None);
    let text = warn_taken(&vec!["Ctrl+A".to_string(), "F5".to_string()]).unwrap();
    assert_eq!(
        text,
        "These shortcuts are already in use by another app, so they won't work here:\n\n\
         Ctrl+A\nF5\n\nPick different keys, or close the app that's using them."
    );
}

#[test]
fn a_custom_place_is_seeded_from_the_floating_one() {
    let area = Rect { left: 0, top: 0, right: 1920, bottom: 1040 };
    let monitor = MonitorInfo { work: area, full: area, dpi: 96 };
    let mut s = Settings::default();
    assert!(!needs_place(&s));
    assert_eq!(apply_live(&s, &monitor).custom_x, 0);
    s.position = Position::Custom;
    assert!(needs_place(&s));
    let seeded = apply_live(&s, &monitor);
    let mut probe = s;
    probe.position = Position::Centre;
    assert_eq!(
        (seeded.custom_x, seeded.custom_y),
        origin_for(&probe, 96, &monitor, None)
    );
    assert!(seeded.position == Position::Custom);
    assert!(!needs_place(&seeded));
}

#[test]
fn outside_changes_reach_pending_and_snapshot() {
    let mut u = ui();
    u.list_channels(2);
    assert_eq!(u.channel_chosen(ChannelKind::Strip, 3), Some(3));
    assert_eq!(u.channel_chosen(ChannelKind::Bus, 40), None);
    assert_eq!((u.pending.index, u.snapshot.index), (40, 40));
    u.bar_dragged(-5, 6);
    assert!(u.pending.position == Position::Custom && u.snapshot.position == Position::Custom);
    assert_eq!((u.snapshot.custom_x, u.snapshot.custom_y), (-5, 6));
    u.repopulate(&Settings::default());
    assert_eq!((u.pending.custom_x, u.pending.custom_y), (-5, 6));
    assert!(u.pending.position == Position::AboveTray);
    u.color_picked(0x00_56_34_12);
    assert_eq!(u.pending.accent, (0x12, 0x34, 0x56));
    assert!(u.rollback().is_none());
    u.test_applied();
    assert_eq!(u.rollback().unwrap().custom_x, -5);
}

#[test]
fn closing_undoes_a_test_but_not_a_save() {
    let mut u = ui();
    let opened = u.snapshot.serialize();
    assert!(u.rollback().is_none());
    u.pending.hide_ms = 777;
    u.test_applied();
    u.pending.hide_ms = 888;
    assert_eq!(u.rollback().unwrap().serialize(), opened);
    u.save_applied();
    assert!(u.rollback().is_none());
    assert_eq!(u.pending.hide_ms, 888);
}

#[test]
fn saving_changes_autostart_only_where_it_differs() {
    let mut u = ui();
    let was = u.autostart;
    assert_eq!(u.autostart_change(was), None);
    u.autostart = !was;
    assert_eq!(u.autostart_change(was), Some(!was));
}

#[test]
fn keys_in_a_shortcut_field() {
    let route = |msg, key, focus, modifier| route_key(msg, key, focus, modifier);
    assert_eq!(route(0x100, 0x08, Some(3030), false), KeyRoute::Handled);
    assert_eq!(route(0x100, 0x2E, Some(3032), false), KeyRoute::Handled);
    assert_eq!(route(0x100, 0x08, Some(3030), true), KeyRoute::Dialog);
    assert_eq!(route(0x104, 0x08, Some(3030), false), KeyRoute::Dialog);
    assert_eq!(route(0x100, 0x0D, Some(3031), false), KeyRoute::Raw);
    assert_eq!(route(0x104, 0x0D, Some(3031), true), KeyRoute::Raw);
    assert_eq!(route(0x100, 0x09, Some(3031), false), KeyRoute::Dialog);
    assert_eq!(route(0x100, 0x0D, Some(3008), false), KeyRoute::Dialog);
    assert_eq!(route(0x100, 0x0D, None, false), KeyRoute::Dialog);
    assert_eq!(route(0x101, 0x0D, Some(3031), false), KeyRoute::Dialog);
}

#[test]
fn commands_of_the_settings_window() {
    let mut u = ui();
    assert_eq!(u.on_command(3006, 0), Command::ChooseColor);
    assert_eq!(u.on_command(3013, 0), Command::Test);
    assert_eq!(u.on_command(3014, 0), Command::Save);
    assert_eq!(u.on_command(1, 0), Command::Save);
    assert_eq!(u.on_command(3015, 0), Command::Cancel);
    assert_eq!(u.on_command(2, 0), Command::Cancel);
    assert_eq!(u.on_command(3018, 0), Command::Reset);
    assert_eq!(u.on_command(3016, 0), Command::Flip(Toggle::AccentSystem));
    assert_eq!(u.on_command(3211, 0), Command::Choose { group: 0, choice: 1 });
    assert_eq!(u.on_command(3222, 0), Command::Choose { group: 1, choice: 2 });
    assert_eq!(u.on_command(3225, 0x300), Command::Nothing);
    assert_eq!(u.on_command(3008, 0x300), Command::Preview);
    assert_eq!(u.on_command(3001, 1), Command::Preview);
    assert_eq!(u.on_command(3008, 0), Command::Nothing);
    u.flip(Toggle::AccentSystem);
    assert_eq!(u.on_command(3006, 0), Command::Nothing);
}

#[test]
fn section_captions_are_dimmed() {
    assert!(is_section(3100));
    assert!(is_section(3199));
    assert!(!is_section(3200));
    assert!(!is_section(0));
}

#[test]
fn channels_missing_from_the_edition_stay_selectable() {
    let mut u = ui();
    u.pending.kind = ChannelKind::Bus;
    u.pending.index = 7;
    assert_eq!(u.list_channels(1), 5);
    assert_eq!(u.channels.len(), 6);
    assert_eq!(item_of(&u.channels, ChannelKind::Bus, 7), Some(5));
    assert_eq!(item_of(&u.channels, ChannelKind::Strip, 7), None);
    assert_eq!(
        item_caption(5, ChannelKind::Bus, 7, 1, None),
        "B7  (not in this edition)"
    );
    assert_eq!(item_caption(4, ChannelKind::Bus, 1, 1, None), "B1");
    assert_eq!(
        channel_caption(ChannelKind::Bus, 0, 1, Some("Desk".to_string())),
        "A1  \u{2014}  Desk"
    );
    assert_eq!(channel_caption(ChannelKind::Bus, 0, 1, Some("A1".to_string())), "A1");
}

#[test]
fn the_layout_has_two_columns_and_a_footer() {
    let (controls, height) = build_controls();
    assert_eq!(controls.len(), 48);
    assert_eq!(height, 610);
    let save = controls.last().unwrap();
    assert_eq!((save.x, save.y, save.w, save.h, save.id), (776, 556, 96, 34, 3014));
    for c in &controls {
        assert!(c.x >= 24 && c.x + c.w <= CLIENT_W - 24, "{c:?}");
        assert!(c.class == ControlClass::List || c.y + c.h <= height, "{c:?}");
    }
    let mut ids: Vec<i32> = controls.iter().map(|c| c.id).filter(|id| *id != 0).collect();
    let n = ids.len();
    ids.sort();
    ids.dedup();
    assert_eq!(ids.len(), n);
    assert!(matches!(controls[15].text, ControlText::Value(Field::Opacity)));
    assert!(matches!(controls[0].text, ControlText::Words("CHANNEL")));
}

#[test]
fn lengths_scale_with_the_window() {
    let mut u = Ui::new(Settings::default(), true, 144);
    assert!(u.autostart);
    assert_eq!(u.px(16), 24);
    assert_eq!(u.px(-16), -24);
    u.place_preview();
    assert_eq!(
        u.preview_rect,
        Rect { left: 36, top: 588, right: 651, bottom: 774 }
    );
    assert_eq!(Ui::new(Settings::default(), true, 10).dpi, 96);
    assert_eq!(Ui::new(Settings::default(), true, 0xFFFF_FFA0).dpi, -96);
}
