use voicemeeter_osd::bignat::BigNat;
use voicemeeter_osd::install::{
    differs, first_step, next_step, refresh_installed_copy, startup_entry, InstallStep,
};
use voicemeeter_osd::log::{enabled, entry, needs_rotation, set_enabled, LogSwitch, MAX_BYTES};
use voicemeeter_osd::text::{
    bool_str, chars_of, find_of, padded_unsigned_text, parse_signed, parse_unsigned, same,
    same_ignoring_case_of, signed_text, split_of, split_once_of, string_of, trim_of, unsigned_text,
};
use voicemeeter_osd::tray::{
    channel_menu, entry_text, hook_rect, icon_center, icon_rect, is_muted, menu_text, show_menu,
    tip_units, MenuItem, MenuText,
};
use voicemeeter_osd::utf16::{from_wide, length_to_zero, wide};

use voicemeeter_osd::config::{ChannelKind, Settings};
use voicemeeter_osd::osd::Rect;
use voicemeeter_osd::single::Single;

fn chars(s: &str) -> Vec<char> {
    s.chars().collect()
}

fn units(s: &str) -> Vec<u16> {
    s.encode_utf16().chain(std::iter::once(0)).collect()
}

#[test]
fn text_helpers_match_the_standard_library() {
    for s in ["", " ", "a", " a b ", "\t\u{3000}x\u{85}", "\u{200B}y", "ab\r"] {
        assert_eq!(string_of(trim_of(&chars(s))), s.trim());
    }
    for s in ["", "a", "a=b", "=", "a=b=c"] {
        let parts = chars(s);
        let ours = split_once_of(&parts, '=').map(|(a, b)| (string_of(a), string_of(b)));
        let std = s.split_once('=').map(|(a, b)| (a.to_string(), b.to_string()));
        assert_eq!(ours, std);
        let pieces: Vec<String> = split_of(&parts, '=').iter().map(|p| string_of(p)).collect();
        assert_eq!(pieces, s.split('=').collect::<Vec<&str>>());
        assert_eq!(find_of(&parts, '='), s.find('=').unwrap_or(s.len()));
    }
    assert!(same(&chars("true"), "true"));
    assert!(!same(&chars("True"), "true"));
    assert!(same_ignoring_case_of(&chars("BuS"), "bus"));
    assert!(!same_ignoring_case_of(&chars("busy"), "bus"));
    assert_eq!(chars_of("aé"), vec!['a', 'é']);
    assert_eq!(bool_str(true), "true");
    assert_eq!(bool_str(false), "false");
}

#[test]
fn whole_numbers_read_and_print() {
    for s in [
        "0", "-0", "+0", "7", "-7", "+7", "2147483647", "2147483648", "-2147483648", "-2147483649",
        "", "-", "+", "1a", "99999999999999999999", "--1", "00012",
    ] {
        assert_eq!(parse_signed(&chars(s)), s.parse::<i32>().ok(), "{s}");
        assert_eq!(parse_unsigned(&chars(s), 255), s.parse::<u8>().ok().map(u64::from), "{s}");
        assert_eq!(parse_unsigned(&chars(s), u64::MAX), s.parse::<u64>().ok(), "{s}");
    }
    assert_eq!(signed_text(-120), "-120");
    assert_eq!(signed_text(i64::MIN), i64::MIN.to_string());
    assert_eq!(unsigned_text(u128::MAX), u128::MAX.to_string());
    assert_eq!(padded_unsigned_text(7, 3), "007");
    assert_eq!(padded_unsigned_text(1234, 3), "1234");
}

#[test]
fn utf16_round_trips() {
    for s in ["", "plain", "Größe — 1", "\u{1F50A} loud \u{10FFFF}"] {
        let w = wide(s);
        assert_eq!(w, units(s));
        let n = length_to_zero(&w);
        assert_eq!(n, w.len() - 1);
        assert_eq!(string_of(&from_wide(&w[..n])), s);
    }
}

#[test]
fn lone_surrogates_are_replaced() {
    for u in [
        vec![0xD800u16],
        vec![0xDC00, 0x41],
        vec![0xD800, 0x41],
        vec![0xD800, 0xD800, 0xDC00],
        vec![0xDBFF, 0xDFFF, 0xDFFF],
    ] {
        assert_eq!(string_of(&from_wide(&u)), String::from_utf16_lossy(&u));
    }
    assert_eq!(length_to_zero(&[5, 6]), 2);
    assert_eq!(length_to_zero(&[5, 0, 6]), 1);
}

#[test]
fn big_numbers_divide() {
    let mut n = BigNat::zero();
    n.scale(1, 1);
    for _ in 0..30 {
        n.scale(10, 0);
    }
    let mut d = BigNat::zero();
    d.scale(1, 1);
    for _ in 0..22 {
        d.scale(10, 0);
    }
    d.scale(1, 7);
    let (q, rest) = n.divide(&d);
    assert_eq!(q, 99_999_999);
    assert!(!rest.at_least(&d));
    let mut same = n.copy();
    assert!(same.reduce(&n));
    assert!(!same.reduce(&n));
    assert!(n.at_least(&d));
}

#[test]
fn log_lines_carry_the_time() {
    assert_eq!(entry(7, 5, 9, 42, "hello"), "07:05:09.042  hello");
    assert!(needs_rotation(Some(MAX_BYTES + 1)));
    assert!(!needs_rotation(Some(MAX_BYTES)));
    assert!(!needs_rotation(None));
    assert_eq!(MAX_BYTES, 1024 * 1024);
}

#[test]
fn the_log_can_be_switched() {
    let mut switch = LogSwitch::off();
    assert!(!enabled(&switch));
    set_enabled(&mut switch, true);
    assert!(enabled(&switch));
    set_enabled(&mut switch, false);
    assert!(!enabled(&switch));
}

#[test]
fn installing_moves_a_locked_copy_aside() {
    let mut steps = vec![first_step(false)];
    // Everything works but copying over the running program.
    while let Some(&step) = steps.last() {
        if step == InstallStep::Done || step == InstallStep::Failed {
            break;
        }
        steps.push(next_step(step, step != InstallStep::CopyOver, true));
    }
    assert_eq!(
        steps,
        vec![
            InstallStep::CreateDir,
            InstallStep::RemoveBackup,
            InstallStep::CopyOver,
            InstallStep::MoveAside,
            InstallStep::Copy,
            InstallStep::Done,
        ]
    );
    assert_eq!(first_step(true), InstallStep::Done);
    assert_eq!(next_step(InstallStep::CreateDir, true, false), InstallStep::Copy);
    assert_eq!(next_step(InstallStep::CreateDir, false, true), InstallStep::Failed);
    assert_eq!(next_step(InstallStep::CopyOver, true, true), InstallStep::Done);
    assert_eq!(next_step(InstallStep::MoveAside, false, true), InstallStep::Failed);
    assert_eq!(next_step(InstallStep::Copy, false, true), InstallStep::Failed);
}

#[test]
fn a_newer_different_build_refreshes_the_installed_one() {
    let newer = (Some(2), Some(1));
    assert!(refresh_installed_copy(true, false, true, newer, true));
    assert!(!refresh_installed_copy(false, false, true, newer, true));
    assert!(!refresh_installed_copy(true, true, true, newer, true));
    assert!(!refresh_installed_copy(true, false, false, newer, true));
    assert!(!refresh_installed_copy(true, false, true, newer, false));
    assert!(!refresh_installed_copy(true, false, true, (Some(1), Some(1)), true));
    assert!(!refresh_installed_copy(true, false, true, (None, Some(1)), true));
    assert!(differs(&Some(vec![1, 2]), &Some(vec![1, 3])));
    assert!(differs(&Some(vec![1]), &Some(vec![1, 3])));
    assert!(!differs(&Some(vec![1, 3]), &Some(vec![1, 3])));
    assert!(!differs(&None, &Some(vec![1])));
    assert_eq!(startup_entry("C:\\a b.exe"), units("\"C:\\a b.exe\""));
}

#[test]
fn tooltips_fit_the_shell() {
    assert_eq!(tip_units("hi"), vec![b'h' as u16, b'i' as u16, 0, 0]);
    let long = "x".repeat(300);
    let tip = tip_units(&long);
    assert_eq!(tip.len(), 128);
    assert_eq!(tip[126], b'x' as u16);
    assert_eq!(tip[127], 0);
}

#[test]
fn ampersands_are_no_mnemonics() {
    assert_eq!(menu_text("Mic & Line"), units("Mic && Line"));
    assert_eq!(menu_text("&&"), units("&&&&"));
    assert_eq!(entry_text(MenuText::MuteChannel, "A & B"), units("Mute A && B"));
    assert_eq!(entry_text(MenuText::OpenVoicemeeter, ""), units("Open Voicemeeter"));
    assert_eq!(entry_text(MenuText::Settings, ""), units("Settings"));
    assert_eq!(entry_text(MenuText::StartWithWindows, ""), units("Start with Windows"));
    assert_eq!(entry_text(MenuText::Exit, ""), units("Exit"));
}

#[test]
fn the_icon_has_a_centre_when_it_is_known() {
    let rect = Rect { left: 10, top: 20, right: 31, bottom: 40 };
    assert_eq!(icon_rect(0, rect), Some(rect));
    assert_eq!(icon_rect(1, rect), None);
    assert_eq!(icon_rect(0, Rect { right: 10, ..rect }), None);
    assert_eq!(icon_rect(0, Rect { bottom: 20, ..rect }), None);
    assert_eq!(icon_center(Some(rect)), Some((20, 30)));
    assert_eq!(icon_center(None), None);
    let left = Rect { left: -31, top: -3, right: -10, bottom: 0 };
    assert_eq!(icon_center(Some(left)), Some((-20, -1)));
    assert_eq!(hook_rect(Some(rect)), rect);
    assert_eq!(hook_rect(None), Rect { left: 0, top: 0, right: 0, bottom: 0 });
}

#[test]
fn the_menu_shows_mute_and_autostart() {
    let one = Single::from_i32(1);
    let menu = show_menu(Some(one), false);
    assert_eq!(menu.len(), 8);
    assert_eq!(
        menu[0],
        MenuItem::Entry { id: 2004, text: MenuText::MuteChannel, checked: true }
    );
    assert_eq!(menu[1], MenuItem::Channels);
    assert_eq!(
        menu[5],
        MenuItem::Entry { id: 2002, text: MenuText::StartWithWindows, checked: false }
    );
    assert!(!is_muted(None));
    assert!(!is_muted(Some(Single::from_i32(0))));
    assert!(is_muted(Some(Single::from_bits(0.5f32.to_bits()))));
}

#[test]
fn the_channel_menu_checks_the_configured_one() {
    let mut s = Settings::default();
    s.kind = ChannelKind::Bus;
    s.index = 1;
    let menu = channel_menu(&s, 1);
    assert_eq!(menu.len(), 5);
    assert_eq!(menu[0].id, 2100);
    assert!(menu[0].kind == ChannelKind::Strip && menu[0].index == 0);
    let checked: Vec<i32> = menu.iter().filter(|e| e.checked).map(|e| e.id).collect();
    assert_eq!(checked, vec![2104]);
}
