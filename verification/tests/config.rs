use voicemeeter_osd::config::{
    all_channels, bus_count, physical_buses, physical_strips, strip_count, system_accent,
    ChannelKind, Hotkey, Orientation, Position, Settings, FADER_MAX_DB, FADER_MIN_DB, MOD_ALT,
    MOD_CONTROL, MOD_SHIFT, MOD_WIN,
};
use voicemeeter_osd::single::Single;

fn single(x: f32) -> Single {
    Single::from_bits(x.to_bits())
}

fn float(x: Single) -> f32 {
    f32::from_bits(x.bits)
}

#[test]
fn settings_survive_a_round_trip() {
    let mut original = Settings::default();
    original.kind = ChannelKind::Strip;
    original.index = 4;
    original.orientation = Orientation::Horizontal;
    original.accent = (12, 200, 90);
    original.accent_follow_system = true;
    original.opacity_pct = 55;
    original.hide_ms = 2200;
    original.min_db = single(-48.0);
    original.max_db = single(6.0);
    original.hide_in_fullscreen = false;
    original.debug_log = true;
    original.watch_all = true;
    original.hotkeys_enabled = true;
    original.hotkey_up = Hotkey {
        mods: MOD_SHIFT | MOD_WIN,
        vk: 0x21,
    };
    original.hotkey_mute = Hotkey::none();
    original.step_db = single(2.5);
    original.tray_scroll = false;
    original.position = Position::Custom;
    original.custom_x = -1400;
    original.custom_y = 640;

    let parsed = Settings::parse(&original.serialize());

    assert!(parsed.kind == ChannelKind::Strip);
    assert_eq!(parsed.index, 4);
    assert!(parsed.orientation == Orientation::Horizontal);
    assert!(parsed.position == Position::Custom);
    assert_eq!(parsed.accent, (12, 200, 90));
    assert!(parsed.accent_follow_system);
    assert_eq!(parsed.opacity_pct, 55);
    assert_eq!(parsed.hide_ms, 2200);
    assert_eq!(float(parsed.min_db), -48.0);
    assert_eq!(float(parsed.max_db), 6.0);
    assert!(!parsed.hide_in_fullscreen);
    assert!(parsed.debug_log);
    assert!(parsed.watch_all);
    assert!(parsed.hotkeys_enabled);
    assert_eq!(parsed.hotkey_up, original.hotkey_up);
    assert_eq!(parsed.hotkey_down, original.hotkey_down);
    assert_eq!(parsed.hotkey_mute, Hotkey::none());
    assert_eq!(float(parsed.step_db), 2.5);
    assert!(!parsed.tray_scroll);
    assert_eq!(parsed.custom_x, -1400);
    assert_eq!(parsed.custom_y, 640);
}

#[test]
fn numeric_fields_are_clamped_to_valid_ranges() {
    let parsed = Settings::parse("opacity=300\nhide_ms=5\nstep_db=99\nmin_db=-200\nmax_db=80\n");
    assert_eq!(parsed.opacity_pct, 100);
    assert_eq!(parsed.hide_ms, 200);
    assert_eq!(float(parsed.step_db), 12.0);
    assert_eq!(parsed.min_db.bits, FADER_MIN_DB);
    assert_eq!(parsed.max_db.bits, FADER_MAX_DB);
}

#[test]
fn non_finite_values_fall_back() {
    let parsed = Settings::parse("min_db=NaN\nstep_db=inf\n");
    assert_eq!(parsed.min_db.bits, FADER_MIN_DB);
    assert_eq!(float(parsed.step_db), 1.0);
}

#[test]
fn malformed_hotkeys_keep_the_default() {
    let parsed = Settings::parse("hotkey_up=banana\nhotkey_down=3\n");
    let defaults = Settings::default();
    assert_eq!(parsed.hotkey_up, defaults.hotkey_up);
    assert_eq!(parsed.hotkey_down, defaults.hotkey_down);
}

#[test]
fn hotkeys_describe_themselves() {
    assert_eq!(Settings::default().hotkey_up.describe(), "Ctrl+Alt+Up");
    assert_eq!(Settings::default().hotkey_mute.describe(), "Ctrl+Alt+M");
    assert_eq!(Hotkey::none().describe(), "None");
    let f5 = Hotkey {
        mods: MOD_SHIFT,
        vk: 0x74,
    };
    assert_eq!(f5.describe(), "Shift+F5");
}

#[test]
fn hotkey_control_words_round_trip() {
    let up = Settings::default().hotkey_up;
    // Ctrl(2) | Alt(4) | Ext(8) in the high byte, VK_UP low.
    assert_eq!(up.to_control(), 0x0E26);
    assert_eq!(Hotkey::from_control(up.to_control()), up);
    let mute = Settings::default().hotkey_mute;
    assert_eq!(mute.to_control(), 0x064D);
    assert_eq!(Hotkey::from_control(0), Hotkey::none());
}

#[test]
fn channel_list_covers_the_edition() {
    let banana = all_channels(2);
    assert_eq!(banana.len(), 10);
    assert!(banana[0] == (ChannelKind::Strip, 0));
    assert!(banana[5] == (ChannelKind::Bus, 0));
}

#[test]
fn inverted_db_range_is_normalized() {
    let parsed = Settings::parse("min_db=6\nmax_db=-12\n");
    assert!(float(parsed.max_db) > float(parsed.min_db));
}

#[test]
fn out_of_range_index_is_clamped() {
    assert_eq!(Settings::parse("index=-3\n").index, 0);
    assert_eq!(Settings::parse("index=99\n").index, 63);
}

#[test]
fn unknown_and_malformed_lines_are_ignored() {
    let parsed = Settings::parse("# a comment\n\nnonsense\nfuture_key=1\nindex=3\n");
    assert_eq!(parsed.index, 3);
}

#[test]
fn retired_position_names_still_load() {
    assert!(Settings::parse("position=bottom_center\n").position == Position::Centre);
    assert!(Settings::parse("position=top_center\n").position == Position::Centre);
    assert!(Settings::parse("position=above_tray\n").position == Position::AboveTray);
}

#[test]
fn missing_file_contents_give_defaults() {
    let parsed = Settings::parse("");
    let defaults = Settings::default();
    assert!(parsed.kind == defaults.kind);
    assert_eq!(parsed.index, defaults.index);
    assert_eq!(parsed.hide_ms, defaults.hide_ms);
}

#[test]
fn bus_names_follow_the_edition() {
    // Banana: three physical buses, then the B buses.
    assert_eq!(Settings::channel_name(ChannelKind::Bus, 0, 2), "A1");
    assert_eq!(Settings::channel_name(ChannelKind::Bus, 2, 2), "A3");
    assert_eq!(Settings::channel_name(ChannelKind::Bus, 3, 2), "B1");
    // Potato has five physical buses, so index 3 is still an A bus.
    assert_eq!(Settings::channel_name(ChannelKind::Bus, 3, 3), "A4");
    assert_eq!(Settings::channel_name(ChannelKind::Bus, 5, 3), "B1");
}

#[test]
fn strip_names_are_one_based() {
    assert_eq!(Settings::channel_name(ChannelKind::Strip, 0, 2), "Strip 1");
}

#[test]
fn bus_meters_sit_on_eight_channel_boundaries() {
    assert_eq!(Settings::level_slot(ChannelKind::Bus, 0, 2), (3, 0));
    assert_eq!(Settings::level_slot(ChannelKind::Bus, 2, 2), (3, 16));
}

#[test]
fn strip_meters_account_for_virtual_strip_width() {
    // Banana: strips 0-2 are physical and 2 channels wide.
    assert_eq!(Settings::level_slot(ChannelKind::Strip, 0, 2), (1, 0));
    assert_eq!(Settings::level_slot(ChannelKind::Strip, 2, 2), (1, 4));
    // Strip 3 is the first virtual one, starting after 3 x 2 channels.
    assert_eq!(Settings::level_slot(ChannelKind::Strip, 3, 2), (1, 6));
    // And virtual strips are 8 wide, so the next starts 8 later.
    assert_eq!(Settings::level_slot(ChannelKind::Strip, 4, 2), (1, 14));
}

#[test]
fn parameter_names_match_the_remote_api() {
    assert_eq!(Settings::gain_param(ChannelKind::Bus, 1), "Bus[1].Gain");
    assert_eq!(Settings::mute_param(ChannelKind::Bus, 1), "Bus[1].Mute");
    assert_eq!(Settings::label_param(ChannelKind::Bus, 1), "Bus[1].Label");
    assert_eq!(Settings::gain_param(ChannelKind::Strip, 2), "Strip[2].Gain");
}

#[test]
fn defaults_are_written_line_by_line() {
    let text = Settings::default().serialize();
    assert_eq!(
        text,
        "type=bus\nindex=0\norientation=vertical\nposition=above_tray\naccent=70,160,255\n\
         accent_follow_system=false\nopacity=92\nhide_ms=1500\nmin_db=-60\nmax_db=12\n\
         hide_in_fullscreen=true\ndebug_log=false\nwatch_all=false\nhotkeys_enabled=false\n\
         hotkey_up=3:38\nhotkey_down=3:40\nhotkey_mute=3:77\nstep_db=1\ntray_scroll=true\n\
         custom_x=0\ncustom_y=0\n"
    );
}

#[test]
fn every_key_is_read() {
    let s = Settings::parse(
        " type = STRIP \r\nindex=+7\r\norientation=Horizontal\nposition=center\n\
         accent= 1 , x, 2,3\naccent_follow_system=true\nopacity=30\nhide_ms=99999999999\n\
         min_db=-.5e1\nmax_db=+3.25\nhide_in_fullscreen=no\ndebug_log=true\nwatch_all=true\n\
         hotkeys_enabled=true\nhotkey_up= 31 : 999 \nhotkey_down=1:2\nhotkey_mute=0:0\n\
         step_db=0.25\ntray_scroll=false\ncustom_x=-7\ncustom_y=8\n",
    );
    assert!(s.kind == ChannelKind::Strip);
    assert_eq!(s.index, 7);
    assert!(s.orientation == Orientation::Horizontal);
    assert!(s.position == Position::Centre);
    assert_eq!(s.accent, (1, 2, 3));
    assert!(s.accent_follow_system);
    assert_eq!(s.opacity_pct, 30);
    assert_eq!(s.hide_ms, 10_000);
    assert_eq!(float(s.min_db), -5.0);
    assert_eq!(float(s.max_db), 3.25);
    assert!(!s.hide_in_fullscreen);
    assert!(s.debug_log);
    assert!(s.watch_all);
    assert!(s.hotkeys_enabled);
    assert_eq!(s.hotkey_up, Hotkey { mods: 15, vk: 255 });
    assert_eq!(s.hotkey_down, Hotkey { mods: 1, vk: 2 });
    assert_eq!(s.hotkey_mute, Hotkey::none());
    assert_eq!(float(s.step_db), 0.25);
    assert!(!s.tray_scroll);
    assert_eq!(s.custom_x, -7);
    assert_eq!(s.custom_y, 8);
}

#[test]
fn values_that_do_not_read_are_skipped() {
    let s = Settings::parse(
        "index=x\naccent=1,2\naccent=1,2,3,4\nopacity=-1\nhide_ms=\nmin_db=.\nmax_db=1e\n\
         step_db=one\ncustom_x=1.5\ncustom_y=99999999999\nindex 5\n",
    );
    let d = Settings::default();
    assert_eq!(s.index, d.index);
    assert_eq!(s.accent, d.accent);
    assert_eq!(s.opacity_pct, d.opacity_pct);
    assert_eq!(s.hide_ms, d.hide_ms);
    assert_eq!(s.min_db, d.min_db);
    assert_eq!(s.max_db, d.max_db);
    assert_eq!(s.step_db, d.step_db);
    assert_eq!(s.custom_x, d.custom_x);
    assert_eq!(s.custom_y, d.custom_y);
}

#[test]
fn normalizing_matches_single_precision_arithmetic() {
    // The same steps in hardware arithmetic.
    let reference = |mut min: f32, mut max: f32, mut step: f32| {
        if !step.is_finite() {
            step = 1.0;
        }
        step = step.clamp(0.1, 12.0);
        if !min.is_finite() {
            min = -60.0;
        }
        if !max.is_finite() {
            max = 12.0;
        }
        min = min.clamp(-60.0, 11.0);
        max = max.clamp(-59.0, 12.0);
        if max <= min {
            max = (min + 1.0).min(12.0);
            min = min.min(max - 1.0);
        }
        (min, max, step)
    };
    let values = [
        -100.0f32, -60.0, -59.5, -10.3, -1.0, -0.1, -1e-9, -0.0, 0.0, 1e-30, 0.05, 0.3, 1.0,
        5.999_999, 6.0, 10.999_999, 11.0, 11.5, 12.0, 40.0, 1e30, f32::NAN, f32::INFINITY,
        f32::NEG_INFINITY,
    ];
    for min in values {
        for max in values {
            for step in [0.01f32, 0.1, 2.5, 13.0, f32::NAN] {
                let mut s = Settings::default();
                s.min_db = single(min);
                s.max_db = single(max);
                s.step_db = single(step);
                s.normalize();
                let (lo, hi, st) = reference(min, max, step);
                assert_eq!(float(s.min_db).to_bits(), lo.to_bits(), "{min} {max}");
                assert_eq!(float(s.max_db).to_bits(), hi.to_bits(), "{min} {max}");
                assert_eq!(float(s.step_db).to_bits(), st.to_bits(), "{step}");
                assert!(float(s.min_db) < float(s.max_db));
                let once = s;
                s.normalize();
                assert_eq!(s.min_db, once.min_db);
                assert_eq!(s.max_db, once.max_db);
            }
        }
    }
}

#[test]
fn fader_limits_are_the_documented_ones() {
    assert_eq!(f32::from_bits(FADER_MIN_DB), -60.0);
    assert_eq!(f32::from_bits(FADER_MAX_DB), 12.0);
}

#[test]
fn a_shortcut_needs_a_key() {
    assert!(!Hotkey::none().is_set());
    assert!(Hotkey { mods: 0, vk: 1 }.is_set());
    let parse = |s: &str| Hotkey::parse(&s.chars().collect::<Vec<char>>());
    assert_eq!(parse("3:38"), Some(Hotkey { mods: 3, vk: 38 }));
    assert_eq!(parse("3"), None);
    assert_eq!(parse("3:-1"), None);
    assert_eq!(Hotkey { mods: 3, vk: 38 }.serialize(), "3:38");
}

#[test]
fn keys_have_names() {
    let name = |vk: u32| Hotkey { mods: 0, vk }.describe();
    assert_eq!(name(0x28), "Down");
    assert_eq!(name(0x25), "Left");
    assert_eq!(name(0x27), "Right");
    assert_eq!(name(0x21), "PgUp");
    assert_eq!(name(0x22), "PgDn");
    assert_eq!(name(0x87), "F24");
    assert_eq!(name(0x39), "9");
    assert_eq!(name(0x5A), "Z");
    assert_eq!(name(0xAD), "#173");
    let all = Hotkey {
        mods: MOD_CONTROL | MOD_ALT | MOD_SHIFT | MOD_WIN,
        vk: 0x41,
    };
    assert_eq!(all.describe(), "Ctrl+Alt+Shift+Win+A");
}

#[test]
fn shortcut_words_round_trip_without_the_windows_key() {
    for mods in 0..8u32 {
        for vk in 0..=255u32 {
            let key = Hotkey { mods, vk };
            assert_eq!(Hotkey::from_control(key.to_control()), key);
        }
    }
}

#[test]
fn editions_differ_in_their_channels() {
    assert_eq!((strip_count(1), bus_count(1)), (3, 2));
    assert_eq!((strip_count(2), bus_count(2)), (5, 5));
    assert_eq!((strip_count(3), bus_count(3)), (8, 8));
    assert_eq!((physical_strips(1), physical_buses(1)), (2, 1));
    assert_eq!((physical_strips(2), physical_buses(2)), (3, 3));
    assert_eq!((physical_strips(3), physical_buses(3)), (5, 5));
    assert_eq!(all_channels(7).len(), 5);
}

#[test]
fn the_accent_follows_the_system_on_demand() {
    let mut s = Settings::default();
    assert_eq!(s.effective_accent(Some((1, 2, 3))), (70, 160, 255));
    s.accent_follow_system = true;
    assert_eq!(s.effective_accent(Some((1, 2, 3))), (1, 2, 3));
    assert_eq!(s.effective_accent(None), (70, 160, 255));
    assert_eq!(system_accent(Some(0xC4_12_34_56)), Some((0x12, 0x34, 0x56)));
    assert_eq!(system_accent(None), None);
}

#[test]
fn what_was_read_is_written_back_unchanged() {
    let messy = "type = BUS\r\n index=99\nopacity=7\nhide_ms=99999999999\nmin_db=nan\nmax_db=-70\n\
                 step_db=1e-9\nhotkey_up=255:999\n# comment\naccent=1, 2 ,x,3\nposition=top_center\n\
                 custom_x=-5\nnonsense\n";
    let read = Settings::parse(messy);
    let again = Settings::parse(&read.serialize());
    assert_eq!(again.serialize(), read.serialize());
    assert_eq!(read.index, 63);
    assert_eq!(read.opacity_pct, 20);
    assert_eq!(read.hide_ms, 10_000);
    assert_eq!((read.hotkey_up.mods, read.hotkey_up.vk), (15, 255));
    assert_eq!(read.accent, (1, 2, 3));
    assert_eq!(read.custom_x, -5);
}

#[test]
fn virtual_buses_have_names_up_to_the_last_index() {
    assert_eq!(Settings::channel_name(ChannelKind::Bus, i32::MAX, 1), "B2147483647");
    assert_eq!(Settings::channel_name(ChannelKind::Strip, i32::MAX - 1, 1), "Strip 2147483647");
}
