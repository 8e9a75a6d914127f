//! The tray icon: its tooltip, its place, and its menu.

use crate::config::{all_channels, channels, ChannelKind, Settings};
use crate::messages::{
    contains_point, ID_MENU_AUTOSTART, ID_MENU_CHANNEL_COUNT, ID_MENU_CHANNEL_FIRST, ID_MENU_EXIT,
    ID_MENU_MUTE, ID_MENU_SETTINGS, ID_MENU_VOICEMEETER,
};
use crate::osd::{truncated, Rect};
use crate::single::{of_bits, Single, HALF};
use crate::utf16::{encode, wide};
use vstd::prelude::*;

verus! {

/// The room for a tooltip, with the zero at its end.
pub const TIP_UNITS: usize = 128;

/// The tooltip as the shell takes it.
pub open spec fn tip_of(text: Seq<char>) -> Seq<u16> {
    let all = encode(text).push(0);
    (if all.len() > 127 {
        all.take(127)
    } else {
        all
    }).push(0)
}

/// A tooltip fits the shell's room, ends with a zero, and says the beginning
/// of its text, or all of it where it is up to 126 units long.
pub proof fn law_a_tooltip_says_the_beginning_of_its_text(text: Seq<char>)
    ensures
        ({
            let (tip, all) = (tip_of(text), encode(text));
            &&& 1 <= tip.len() <= 128
            &&& tip.last() == 0
            &&& forall|i: int|
                0 <= i < tip.len() - 1 && i < all.len() ==> #[trigger] tip[i] == all[i]
            &&& all.len() <= 126 ==> tip.len() > all.len() && tip[all.len() as int] == 0
            &&& all.len() >= 127 ==> tip.len() == 128
        }),
{
}

/// The tooltip as the shell takes it: cut off where it is too long, and ended
/// by a zero.
pub fn tip_units(text: &str) -> (r: Vec<u16>)
    ensures
        r@ == tip_of(text@),
        ({
            let all = encode(text@).push(0);
            r@ == (if all.len() > 127 {
                all.take(127)
            } else {
                all
            }).push(0)
        }),
        r@.len() <= TIP_UNITS,
{
    let mut units = wide(text);
    if units.len() > 127 {
        units.truncate(127);
    }
    units.push(0);
    units
}

/// Where the icon is, from the shell's answer: unknown where the call failed
/// or the rectangle is empty.
pub fn icon_rect(rc: i32, rect: Rect) -> (r: Option<Rect>)
    ensures
        r == if rc == 0 && rect.left < rect.right && rect.top < rect.bottom {
            Some(rect)
        } else {
            None
        },
{
    if rc != 0 || rect.right <= rect.left || rect.bottom <= rect.top {
        None
    } else {
        Some(rect)
    }
}

fn middle(a: i32, b: i32) -> (r: i32)
    ensures
        r == truncated(a + b, 2),
{
    let s: i64 = a as i64 + b as i64;
    if s < 0 {
        -((-s) / 2) as i32
    } else {
        (s / 2) as i32
    }
}

/// The middle of a rectangle.
pub open spec fn middle_of(rc: Rect) -> (int, int) {
    (truncated(rc.left + rc.right, 2), truncated(rc.top + rc.bottom, 2))
}

/// The middle of the icon is as far from one side as from the other, within a
/// pixel, also where coordinates are negative.
pub proof fn law_the_middle_is_in_the_middle(rc: Rect)
    ensures
        -1 <= (middle_of(rc).0 - rc.left) - (rc.right - middle_of(rc).0) <= 1,
        -1 <= (middle_of(rc).1 - rc.top) - (rc.bottom - middle_of(rc).1) <= 1,
        rc.left <= rc.right ==> rc.left <= middle_of(rc).0 <= rc.right,
        rc.top <= rc.bottom ==> rc.top <= middle_of(rc).1 <= rc.bottom,
{
}

/// Screen-space center of the tray icon. When the icon sits in the overflow
/// flyout this is the chevron button, which is still where the user sees it
/// come from.
pub fn icon_center(rect: Option<Rect>) -> (r: Option<(i32, i32)>)
    ensures
        match (rect, r) {
            (Some(rc), Some(p)) => p.0 == middle_of(rc).0 && p.1 == middle_of(rc).1,
            (None, None) => true,
            _ => false,
        },
        match (rect, r) {
            (Some(rc), Some(p)) => p.0 == truncated(rc.left + rc.right, 2) && p.1 == truncated(
                rc.top + rc.bottom,
                2,
            ),
            (None, None) => true,
            _ => false,
        },
{
    match rect {
        Some(rc) => Some((middle(rc.left, rc.right), middle(rc.top, rc.bottom))),
        None => None,
    }
}

/// The rectangle that the mouse hook tests: an unknown position is an empty
/// one, so the hook never swallows scrolls over a spot the icon has left.
pub fn hook_rect(rect: Option<Rect>) -> (r: Rect)
    ensures
        r == match rect {
            Some(rc) => rc,
            None => Rect { left: 0, top: 0, right: 0, bottom: 0 },
        },
{
    match rect {
        Some(rc) => rc,
        None => Rect { left: 0, top: 0, right: 0, bottom: 0 },
    }
}

/// No point lies in the rectangle of an unknown icon.
pub proof fn law_an_unknown_icon_is_nowhere(p: (i32, i32))
    ensures
        !contains_point(Rect { left: 0, top: 0, right: 0, bottom: 0 }, p),
{
}

// ---------------------------------------------------------------------------
// The menu
// ---------------------------------------------------------------------------

/// A text with its `&` doubled.
pub open spec fn escaped(s: Seq<char>) -> Seq<char>
    decreases s.len(),
{
    if s.len() == 0 {
        Seq::empty()
    } else if s.last() == '&' {
        escaped(s.drop_last()).push('&').push('&')
    } else {
        escaped(s.drop_last()).push(s.last())
    }
}

/// Menu text with `&` escaped, so a Voicemeeter label like "Mic & Line"
/// doesn't turn into a keyboard mnemonic.
pub fn menu_text(text: &str) -> (r: Vec<u16>)
    ensures
        r@ == encode(escaped(text@)).push(0),
{
    let mut out: String = String::new();
    for c in it: text.chars()
        invariant
            it.seq() == text@,
            out@ == escaped(it.seq().take(it.index())),
    {
        proof {
            let i = it.index();
            assert(text@.take(i + 1).drop_last() == text@.take(i));
            assert(text@.take(i + 1).last() == c);
        }
        if c == '&' {
            out.push('&');
        }
        out.push(c);
    }
    assert(text@.take(text@.len() as int) == text@);
    wide(out.as_str())
}

/// What a menu item says.
#[derive(Clone, Copy, PartialEq, Eq, Debug, Structural)]
pub enum MenuText {
    /// "Mute" and the configured channel's caption.
    MuteChannel,
    OpenVoicemeeter,
    Settings,
    StartWithWindows,
    Exit,
}

/// An item of the tray menu.
#[derive(Clone, Copy, PartialEq, Eq, Debug, Structural)]
pub enum MenuItem {
    Entry { id: i32, text: MenuText, checked: bool },
    /// The submenu of channels.
    Channels,
    Separator,
}

/// Whether a mute reading means muted.
pub open spec fn is_muted_spec(mute: Option<Single>) -> bool {
    match mute {
        Some(m) => of_bits(HALF).at_most_spec(m),
        None => false,
    }
}

/// Whether a mute reading means muted.
pub fn is_muted(mute: Option<Single>) -> (r: bool)
    ensures
        r == is_muted_spec(mute),
{
    match mute {
        Some(m) => Single::from_bits(HALF).at_most(m),
        None => false,
    }
}

/// The items of the tray menu. The mute state is that of the configured
/// channel, which is what the item acts on, even if the bar is currently
/// following another one. "Settings" is the default item.
pub open spec fn menu_items(muted: bool, autostart: bool) -> Seq<MenuItem> {
    seq![
        MenuItem::Entry { id: ID_MENU_MUTE, text: MenuText::MuteChannel, checked: muted },
        MenuItem::Channels,
        MenuItem::Entry {
            id: ID_MENU_VOICEMEETER,
            text: MenuText::OpenVoicemeeter,
            checked: false,
        },
        MenuItem::Separator,
        MenuItem::Entry { id: ID_MENU_SETTINGS, text: MenuText::Settings, checked: false },
        MenuItem::Entry {
            id: ID_MENU_AUTOSTART,
            text: MenuText::StartWithWindows,
            checked: autostart,
        },
        MenuItem::Separator,
        MenuItem::Entry { id: ID_MENU_EXIT, text: MenuText::Exit, checked: false },
    ]
}

pub fn show_menu(mute: Option<Single>, autostart: bool) -> (r: Vec<MenuItem>)
    ensures
        r@ == menu_items(is_muted_spec(mute), autostart),
{
    let mut out: Vec<MenuItem> = Vec::new();
    let muted: bool = is_muted(mute);
    out.push(MenuItem::Entry { id: ID_MENU_MUTE, text: MenuText::MuteChannel, checked: muted });
    out.push(MenuItem::Channels);
    out.push(
        MenuItem::Entry {
            id: ID_MENU_VOICEMEETER,
            text: MenuText::OpenVoicemeeter,
            checked: false,
        },
    );
    out.push(MenuItem::Separator);
    out.push(MenuItem::Entry { id: ID_MENU_SETTINGS, text: MenuText::Settings, checked: false });
    out.push(
        MenuItem::Entry {
            id: ID_MENU_AUTOSTART,
            text: MenuText::StartWithWindows,
            checked: autostart,
        },
    );
    out.push(MenuItem::Separator);
    out.push(MenuItem::Entry { id: ID_MENU_EXIT, text: MenuText::Exit, checked: false });
    out
}

/// The text of a menu item; `caption` is that of the configured channel.
pub fn entry_text(text: MenuText, caption: &str) -> (r: Vec<u16>)
    ensures
        r@ == match text {
            MenuText::MuteChannel => encode(escaped("Mute "@ + caption@)).push(0),
            MenuText::OpenVoicemeeter => encode("Open Voicemeeter"@).push(0),
            MenuText::Settings => encode("Settings"@).push(0),
            MenuText::StartWithWindows => encode("Start with Windows"@).push(0),
            MenuText::Exit => encode("Exit"@).push(0),
        },
{
    match text {
        MenuText::MuteChannel => {
            let mut full: String = String::from_str("Mute ");
            full.append(caption);
            menu_text(full.as_str())
        },
        MenuText::OpenVoicemeeter => wide("Open Voicemeeter"),
        MenuText::Settings => wide("Settings"),
        MenuText::StartWithWindows => wide("Start with Windows"),
        MenuText::Exit => wide("Exit"),
    }
}

/// An entry of the channel submenu.
#[derive(Clone, Copy, PartialEq, Eq, Debug, Structural)]
pub struct ChannelEntry {
    pub id: i32,
    pub kind: ChannelKind,
    pub index: i32,
    /// It is the configured channel.
    pub checked: bool,
}

/// The channel submenu: every channel of the edition, the configured one
/// checked.
pub open spec fn channel_entries(settings: Settings, edition: int) -> Seq<ChannelEntry> {
    Seq::new(
        channels(edition).len(),
        |i: int|
            ChannelEntry {
                id: (ID_MENU_CHANNEL_FIRST + i) as i32,
                kind: channels(edition)[i].0,
                index: channels(edition)[i].1,
                checked: channels(edition)[i] == (settings.kind, settings.index),
            },
    )
}

pub fn channel_menu(settings: &Settings, edition: i32) -> (r: Vec<ChannelEntry>)
    ensures
        r@ == channel_entries(*settings, edition as int),
        r@.len() <= ID_MENU_CHANNEL_COUNT,
{
    let all = all_channels(edition);
    let mut out: Vec<ChannelEntry> = Vec::new();
    let mut i: usize = 0;
    while i < all.len() && i < ID_MENU_CHANNEL_COUNT
        invariant
            i <= all@.len(),
            all@ == channels(edition as int),
            all@.len() <= 16,
            out@ == channel_entries(*settings, edition as int).take(i as int),
        decreases all@.len() - i,
    {
        let (kind, index) = all[i];
        out.push(
            ChannelEntry {
                id: ID_MENU_CHANNEL_FIRST + i as i32,
                kind,
                index,
                checked: kind == settings.kind && index == settings.index,
            },
        );
        i += 1;
    }
    out
}

} // verus!
