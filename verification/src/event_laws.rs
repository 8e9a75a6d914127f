//! What the tray icon, its menu, the shortcuts and the wheel promise: each
//! does what it says.

use crate::config::{channels, Settings};
use crate::messages::{
    hooked_delta, law_menu_entries_pick_their_channel, law_wheel_deltas_survive_posting,
    main_event_spec, osd_event_spec, picked_channel, registrations, settings_event_spec, wanted,
    HotkeyAction, MainEvent, OsdEvent, SettingsEvent, HOTKEY_DOWN, HOTKEY_MUTE, HOTKEY_UP,
    MOD_NOREPEAT, WM_COMMAND, WM_HOTKEY, WM_MOUSEWHEEL, WM_TRAY_WHEEL,
};
use crate::osd::Rect;
use crate::tray::{channel_entries, escaped, menu_items, MenuItem, MenuText};
use vstd::arithmetic::div_mod::lemma_fundamental_div_mod_converse;
use vstd::prelude::*;

verus! {

/// What a menu item that says something is to do.
pub open spec fn is_meant(text: MenuText, event: MainEvent) -> bool {
    match text {
        MenuText::MuteChannel => event == MainEvent::Mute,
        MenuText::OpenVoicemeeter => event == MainEvent::ShowVoicemeeter,
        MenuText::Settings => event == MainEvent::OpenSettings,
        MenuText::StartWithWindows => event == MainEvent::ToggleAutostart,
        MenuText::Exit => event == MainEvent::Exit,
    }
}

/// Choosing an item of the menu does what the item says, through the message
/// that the menu sends for it. Mute is checked exactly while the channel is
/// muted, and starting with the system exactly while that is on; nothing else
/// is ever checked.
pub proof fn law_menu_items_do_what_they_say(
    muted: bool,
    autostart: bool,
    i: int,
    word: u64,
    lparam: u64,
    created: u32,
)
    requires
        0 <= i < menu_items(muted, autostart).len(),
        created != WM_COMMAND,
        menu_items(muted, autostart)[i] matches MenuItem::Entry { id, .. } ==> word % 0x1_0000
            == id,
    ensures
        menu_items(muted, autostart)[i] matches MenuItem::Entry { id, text, checked } ==> {
            &&& is_meant(text, main_event_spec(WM_COMMAND, word, lparam, created))
            &&& checked == (match text {
                MenuText::MuteChannel => muted,
                MenuText::StartWithWindows => autostart,
                _ => false,
            })
        },
{
}

/// Choosing a channel in the menu picks the channel that the entry shows, and
/// the configured channel is the one that is checked.
pub proof fn law_channel_entries_pick_what_they_show(
    settings: Settings,
    edition: int,
    i: int,
    word: u64,
    lparam: u64,
    created: u32,
)
    requires
        0 <= i < channel_entries(settings, edition).len(),
        created != WM_COMMAND,
        word % 0x1_0000 == channel_entries(settings, edition)[i].id,
    ensures
        ({
            let entry = channel_entries(settings, edition)[i];
            &&& main_event_spec(WM_COMMAND, word, lparam, created) == MainEvent::PickChannel(
                i as i32,
            )
            &&& picked_channel(i, edition) == Some((entry.kind, entry.index))
            &&& entry.checked == (entry.kind == settings.kind && entry.index == settings.index)
            &&& channel_entries(settings, edition).len() == channels(edition).len()
        }),
{
    law_menu_entries_pick_their_channel(i, edition);
}

/// A pressed shortcut does what its registration is for: the one registered
/// for volume up turns it up, the one for volume down turns it down, and the
/// one for mute mutes.
pub proof fn law_shortcuts_do_what_they_are_registered_for(
    settings: Settings,
    i: int,
    word: u64,
    lparam: u64,
    created: u32,
)
    requires
        0 <= i < registrations(settings).len(),
        created != WM_HOTKEY,
        word == registrations(settings)[i].id,
    ensures
        ({
            let key = registrations(settings)[i];
            let event = main_event_spec(WM_HOTKEY, word, lparam, created);
            ||| event == MainEvent::Hotkey(HotkeyAction::Up) && key.vk == settings.hotkey_up.vk
            ||| event == MainEvent::Hotkey(HotkeyAction::Down) && key.vk == settings.hotkey_down.vk
            ||| event == MainEvent::Hotkey(HotkeyAction::Mute) && key.vk == settings.hotkey_mute.vk
        }),
        settings.hotkeys_enabled,
{
    let all = registrations(settings);
    let (up, down, mute) = (
        wanted(HOTKEY_UP, settings.hotkey_up, 0),
        wanted(HOTKEY_DOWN, settings.hotkey_down, 0),
        wanted(HOTKEY_MUTE, settings.hotkey_mute, MOD_NOREPEAT),
    );
    assert(all == up + down + mute);
    assert(all[i] == if i < up.len() {
        up[i]
    } else if i < up.len() + down.len() {
        down[i - up.len()]
    } else {
        mute[i - up.len() - down.len()]
    });
}

/// A turn of the wheel over the tray icon reaches the main window as it was:
/// the signed number in the upper half of the mouse data, also where it is
/// negative. A turn elsewhere is left alone, and so is everything but the
/// wheel.
pub proof fn law_turns_over_the_icon_reach_the_program(
    point: (i32, i32),
    delta: int,
    low: int,
    tray: Rect,
    data: u32,
    msg: u32,
    lparam: u64,
    created: u32,
    word: u64,
)
    requires
        -0x8000 <= delta < 0x8000,
        0 <= low < 0x1_0000,
        data as int == (if delta < 0 {
            delta + 0x1_0000
        } else {
            delta
        }) * 0x1_0000 + low,
        created != WM_TRAY_WHEEL,
        word as int == delta % 0x1_0000_0000_0000_0000,
    ensures
        tray.left <= point.0 < tray.right && tray.top <= point.1 < tray.bottom ==> hooked_delta(
            0,
            WM_MOUSEWHEEL,
            point,
            data,
            tray,
            true,
        ) == Some(delta as i32),
        !(tray.left <= point.0 < tray.right && tray.top <= point.1 < tray.bottom)
            ==> hooked_delta(0, msg, point, data, tray, true) is None,
        msg != WM_MOUSEWHEEL ==> hooked_delta(0, msg, point, data, tray, true) is None,
        hooked_delta(-1i32, msg, point, data, tray, true) is None,
        hooked_delta(0, msg, point, data, tray, false) is None,
        main_event_spec(WM_TRAY_WHEEL, word, lparam, created) == MainEvent::Wheel(delta as i32),
{
    let high = if delta < 0 {
        delta + 0x1_0000
    } else {
        delta
    };
    lemma_fundamental_div_mod_converse(data as int, 0x1_0000, high, low);
    law_wheel_deltas_survive_posting(delta, word, lparam, created);
}

/// Escaping doubles every ampersand and changes nothing else, so undoing it
/// gives the text back.
pub proof fn law_escaped_text_reads_back(s: Seq<char>)
    ensures
        unescaped(escaped(s)) == s,
        !s.contains('&') ==> escaped(s) == s,
    decreases s.len(),
{
    if s.len() > 0 {
        law_escaped_text_reads_back(s.drop_last());
        let t = escaped(s.drop_last());
        assert(s == s.drop_last().push(s.last()));
        if !s.contains('&') {
            assert(!s.drop_last().contains('&')) by {
                if s.drop_last().contains('&') {
                    let i = choose|i: int| 0 <= i < s.len() - 1 && s.drop_last()[i] == '&';
                    assert(s[i] == '&');
                }
            }
            assert(s[s.len() - 1] != '&');
        }
        if s.last() == '&' {
            let e = t.push('&').push('&');
            assert(e.drop_last().drop_last() == t);
        } else {
            assert(t.push(s.last()).drop_last() == t);
        }
    }
}

/// A text with its doubled ampersands made single again.
pub open spec fn unescaped(s: Seq<char>) -> Seq<char>
    decreases s.len(),
{
    if s.len() == 0 {
        Seq::empty()
    } else if s.last() == '&' && s.len() >= 2 && s[s.len() - 2] == '&' {
        unescaped(s.drop_last().drop_last()).push('&')
    } else {
        unescaped(s.drop_last()).push(s.last())
    }
}

/// The wheel over the bar counts as it turned: the signed number in the upper
/// half of the message's word, whatever the lower half holds. A press, a
/// motion and a release are told apart, and so is the middle button.
pub proof fn law_turns_over_the_bar_count_as_they_are(word: u64, delta: int, low: int)
    requires
        -0x8000 <= delta < 0x8000,
        0 <= low < 0x1_0000,
        word as int == (if delta < 0 {
            delta + 0x1_0000
        } else {
            delta
        }) * 0x1_0000 + low,
    ensures
        osd_event_spec(0x020A, word) == OsdEvent::Wheel(delta as i32),
        osd_event_spec(0x0201, word) == OsdEvent::Press,
        osd_event_spec(0x0200, word) == OsdEvent::Motion,
        osd_event_spec(0x0202, word) == OsdEvent::Release,
        osd_event_spec(0x0208, word) == OsdEvent::Mute,
        osd_event_spec(0x0215, word) == OsdEvent::CaptureLost,
{
    let high = if delta < 0 {
        delta + 0x1_0000
    } else {
        delta
    };
    lemma_fundamental_div_mod_converse(word as int, 0x1_0000, high, low);
}

/// A settings window that is moved to another display takes over its
/// resolution, but no lower one than 96.
pub proof fn law_the_window_takes_over_the_resolution(word: u64, dpi: int, low: int)
    requires
        0 <= dpi < 0x1_0000,
        0 <= low < 0x1_0000,
        word as int == dpi * 0x1_0000 + low,
    ensures
        dpi >= 96 ==> settings_event_spec(0x02E0, word) == SettingsEvent::Rescaled(dpi as i32),
        dpi < 96 ==> settings_event_spec(0x02E0, word) == SettingsEvent::Rescaled(96),
{
    lemma_fundamental_div_mod_converse(word as int, 0x1_0000, dpi, low);
}

/// A click on the tray icon with the right button shows the menu, one with the
/// left button, single or double, opens the settings, and so does a second
/// launch. The two timers poll and draw. All that whatever else the message
/// holds.
pub proof fn law_clicks_on_the_icon_open_menu_and_settings(
    wparam: u64,
    lparam: u64,
    created: u32,
)
    requires
        created < 0x8000 || created >= 0xC000,
        created != 0x0113,
    ensures
        lparam % 0x1_0000 == 0x0205 ==> main_event_spec(0x8001, wparam, lparam, created)
            == MainEvent::ShowMenu,
        lparam % 0x1_0000 == 0x0202 || lparam % 0x1_0000 == 0x0203 ==> main_event_spec(
            0x8001,
            wparam,
            lparam,
            created,
        ) == MainEvent::OpenSettings,
        lparam % 0x1_0000 == 0x0200 ==> main_event_spec(0x8001, wparam, lparam, created)
            == MainEvent::Nothing,
        main_event_spec(0x8003, wparam, lparam, created) == MainEvent::OpenSettings,
        main_event_spec(0x0113, 1, lparam, created) == MainEvent::Poll,
        main_event_spec(0x0113, 2, lparam, created) == MainEvent::Animate,
        created != 0 ==> main_event_spec(created, wparam, lparam, created)
            == MainEvent::TaskbarCreated,
{
}

} // verus!
