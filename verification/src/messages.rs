//! What the messages of the program's windows mean, and what the system is
//! asked to listen for.

use crate::config::{all_channels, channels, ChannelKind, Hotkey, Settings};
use crate::osd::Rect;
use vstd::prelude::*;

verus! {

// ---------------------------------------------------------------------------
// Numbers that the system defines
// ---------------------------------------------------------------------------

pub const WM_CREATE: u32 = 0x0001;

pub const WM_DESTROY: u32 = 0x0002;

pub const WM_PAINT: u32 = 0x000F;

pub const WM_CLOSE: u32 = 0x0010;

pub const WM_ERASEBKGND: u32 = 0x0014;

pub const WM_SETTINGCHANGE: u32 = 0x001A;

pub const WM_DRAWITEM: u32 = 0x002B;

pub const WM_NOTIFY: u32 = 0x004E;

pub const WM_DISPLAYCHANGE: u32 = 0x007E;

pub const WM_NCDESTROY: u32 = 0x0082;

pub const WM_KEYDOWN: u32 = 0x0100;

pub const WM_SYSKEYDOWN: u32 = 0x0104;

pub const WM_COMMAND: u32 = 0x0111;

pub const WM_TIMER: u32 = 0x0113;

pub const WM_CTLCOLOREDIT: u32 = 0x0133;

pub const WM_CTLCOLORLISTBOX: u32 = 0x0134;

pub const WM_CTLCOLORBTN: u32 = 0x0135;

pub const WM_CTLCOLORSTATIC: u32 = 0x0138;

pub const WM_MOUSEMOVE: u32 = 0x0200;

pub const WM_LBUTTONDOWN: u32 = 0x0201;

pub const WM_LBUTTONUP: u32 = 0x0202;

pub const WM_LBUTTONDBLCLK: u32 = 0x0203;

pub const WM_RBUTTONUP: u32 = 0x0205;

pub const WM_MBUTTONUP: u32 = 0x0208;

pub const WM_MOUSEWHEEL: u32 = 0x020A;

pub const WM_CAPTURECHANGED: u32 = 0x0215;

pub const WM_DPICHANGED: u32 = 0x02E0;

pub const WM_HOTKEY: u32 = 0x0312;

/// Sent when the user changes their Windows accent colour.
pub const WM_DWMCOLORIZATIONCOLORCHANGED: u32 = 0x0320;

/// The program's own messages: from the tray icon;
pub const WM_TRAYICON: u32 = 0x8001;

/// posted by the mouse hook when the wheel turns over the tray icon;
pub const WM_TRAY_WHEEL: u32 = 0x8002;

/// posted by a second launch, asking this instance to open its settings.
pub const WM_OPEN_SETTINGS: u32 = 0x8003;

/// Keeps a held shortcut from firing again and again.
pub const MOD_NOREPEAT: u32 = 0x4000;

pub const TRAY_ID: u32 = 1;

pub const ID_MENU_SETTINGS: i32 = 2001;

pub const ID_MENU_AUTOSTART: i32 = 2002;

pub const ID_MENU_EXIT: i32 = 2003;

pub const ID_MENU_MUTE: i32 = 2004;

pub const ID_MENU_VOICEMEETER: i32 = 2005;

/// Channel submenu items, one id per entry in `all_channels` order.
pub const ID_MENU_CHANNEL_FIRST: i32 = 2100;

pub const ID_MENU_CHANNEL_COUNT: usize = 64;

pub const TIMER_POLL: u64 = 1;

pub const TIMER_ANIM: u64 = 2;

pub const HOTKEY_UP: i32 = 1;

pub const HOTKEY_DOWN: i32 = 2;

pub const HOTKEY_MUTE: i32 = 3;

// ---------------------------------------------------------------------------
// Parts of words
// ---------------------------------------------------------------------------

/// The low 16 bits.
pub open spec fn low(word: int) -> int {
    word % 0x1_0000
}

/// The 16 bits above them.
pub open spec fn high(word: int) -> int {
    word / 0x1_0000 % 0x1_0000
}

/// A number of 16 bits as a signed one.
pub open spec fn signed_16(n: int) -> int {
    if n >= 0x8000 {
        n - 0x1_0000
    } else {
        n
    }
}

/// The low 32 bits as a signed number.
pub open spec fn signed_32(word: int) -> int {
    let n = word % 0x1_0000_0000;
    if n >= 0x8000_0000 {
        n - 0x1_0000_0000
    } else {
        n
    }
}

fn low_of(word: u64) -> (r: i32)
    ensures
        r == low(word as int),
        0 <= r < 0x1_0000,
{
    (word % 0x1_0000) as i32
}

fn high_of(word: u64) -> (r: i32)
    ensures
        r == high(word as int),
        0 <= r < 0x1_0000,
{
    (word / 0x1_0000 % 0x1_0000) as i32
}

fn signed_16_of(n: i32) -> (r: i32)
    requires
        0 <= n < 0x1_0000,
    ensures
        r == signed_16(n as int),
{
    if n >= 0x8000 {
        n - 0x1_0000
    } else {
        n
    }
}

fn signed_32_of(word: u64) -> (r: i32)
    ensures
        r == signed_32(word as int),
{
    let n: i64 = (word % 0x1_0000_0000) as i64;
    if n >= 0x8000_0000 {
        (n - 0x1_0000_0000) as i32
    } else {
        n as i32
    }
}

// ---------------------------------------------------------------------------
// The main window
// ---------------------------------------------------------------------------

/// What a pressed shortcut asks for.
#[derive(Clone, Copy, PartialEq, Eq, Debug, Structural)]
pub enum HotkeyAction {
    Up,
    Down,
    Mute,
    /// A shortcut that means nothing here.
    Unknown,
}

/// What a message to the main window asks for.
#[derive(Clone, Copy, PartialEq, Eq, Debug, Structural)]
pub enum MainEvent {
    /// Explorer restarted: every tray icon is gone until re-added.
    TaskbarCreated,
    ShowMenu,
    OpenSettings,
    ToggleAutostart,
    Exit,
    Mute,
    ShowVoicemeeter,
    /// An entry of the channel submenu, counted from 0.
    PickChannel(i32),
    Poll,
    Animate,
    Wheel(i32),
    Hotkey(HotkeyAction),
    AccentChanged,
    /// Monitors, scaling or the taskbar moved.
    DisplayChanged,
    Destroyed,
    /// Handled by doing nothing.
    Nothing,
    /// Left to the system.
    Default,
}

/// What a menu command asks for.
pub open spec fn command_event(id: int) -> MainEvent {
    if id == ID_MENU_SETTINGS {
        MainEvent::OpenSettings
    } else if id == ID_MENU_AUTOSTART {
        MainEvent::ToggleAutostart
    } else if id == ID_MENU_EXIT {
        MainEvent::Exit
    } else if id == ID_MENU_MUTE {
        MainEvent::Mute
    } else if id == ID_MENU_VOICEMEETER {
        MainEvent::ShowVoicemeeter
    } else if id >= ID_MENU_CHANNEL_FIRST {
        MainEvent::PickChannel((id - ID_MENU_CHANNEL_FIRST) as i32)
    } else {
        MainEvent::Nothing
    }
}

/// What a message to the main window means. `taskbar_created` is the message
/// that Explorer broadcasts when the taskbar is (re)created, 0 where it is not
/// known.
pub open spec fn main_event_spec(
    msg: u32,
    wparam: u64,
    lparam: u64,
    taskbar_created: u32,
) -> MainEvent {
    if taskbar_created != 0 && msg == taskbar_created {
        MainEvent::TaskbarCreated
    } else if msg == WM_TRAYICON {
        let button = low(lparam as int);
        if button == WM_RBUTTONUP {
            MainEvent::ShowMenu
        } else if button == WM_LBUTTONUP || button == WM_LBUTTONDBLCLK {
            MainEvent::OpenSettings
        } else {
            MainEvent::Nothing
        }
    } else if msg == WM_OPEN_SETTINGS {
        MainEvent::OpenSettings
    } else if msg == WM_COMMAND {
        command_event(low(wparam as int))
    } else if msg == WM_TIMER {
        if wparam == TIMER_POLL {
            MainEvent::Poll
        } else if wparam == TIMER_ANIM {
            MainEvent::Animate
        } else {
            MainEvent::Nothing
        }
    } else if msg == WM_TRAY_WHEEL {
        MainEvent::Wheel(signed_32(wparam as int) as i32)
    } else if msg == WM_HOTKEY {
        let id = signed_32(wparam as int);
        MainEvent::Hotkey(
            if id == HOTKEY_UP {
                HotkeyAction::Up
            } else if id == HOTKEY_DOWN {
                HotkeyAction::Down
            } else if id == HOTKEY_MUTE {
                HotkeyAction::Mute
            } else {
                HotkeyAction::Unknown
            },
        )
    } else if msg == WM_DWMCOLORIZATIONCOLORCHANGED {
        MainEvent::AccentChanged
    } else if msg == WM_DISPLAYCHANGE || msg == WM_SETTINGCHANGE || msg == WM_DPICHANGED {
        MainEvent::DisplayChanged
    } else if msg == WM_DESTROY {
        MainEvent::Destroyed
    } else {
        MainEvent::Default
    }
}

fn command(id: i32) -> (r: MainEvent)
    requires
        0 <= id < 0x1_0000,
    ensures
        r == command_event(id as int),
{
    if id == ID_MENU_SETTINGS {
        MainEvent::OpenSettings
    } else if id == ID_MENU_AUTOSTART {
        MainEvent::ToggleAutostart
    } else if id == ID_MENU_EXIT {
        MainEvent::Exit
    } else if id == ID_MENU_MUTE {
        MainEvent::Mute
    } else if id == ID_MENU_VOICEMEETER {
        MainEvent::ShowVoicemeeter
    } else if id >= ID_MENU_CHANNEL_FIRST {
        MainEvent::PickChannel(id - ID_MENU_CHANNEL_FIRST)
    } else {
        MainEvent::Nothing
    }
}

/// What a message to the main window means.
pub fn main_event(msg: u32, wparam: u64, lparam: u64, taskbar_created: u32) -> (r: MainEvent)
    ensures
        r == main_event_spec(msg, wparam, lparam, taskbar_created),
{
    if taskbar_created != 0 && msg == taskbar_created {
        return MainEvent::TaskbarCreated;
    }
    if msg == WM_TRAYICON {
        let button: u32 = low_of(lparam) as u32;
        return if button == WM_RBUTTONUP {
            MainEvent::ShowMenu
        } else if button == WM_LBUTTONUP || button == WM_LBUTTONDBLCLK {
            MainEvent::OpenSettings
        } else {
            MainEvent::Nothing
        };
    }
    if msg == WM_OPEN_SETTINGS {
        return MainEvent::OpenSettings;
    }
    if msg == WM_COMMAND {
        return command(low_of(wparam));
    }
    if msg == WM_TIMER {
        return if wparam == TIMER_POLL {
            MainEvent::Poll
        } else if wparam == TIMER_ANIM {
            MainEvent::Animate
        } else {
            MainEvent::Nothing
        };
    }
    if msg == WM_TRAY_WHEEL {
        return MainEvent::Wheel(signed_32_of(wparam));
    }
    if msg == WM_HOTKEY {
        let id: i32 = signed_32_of(wparam);
        return MainEvent::Hotkey(
            if id == HOTKEY_UP {
                HotkeyAction::Up
            } else if id == HOTKEY_DOWN {
                HotkeyAction::Down
            } else if id == HOTKEY_MUTE {
                HotkeyAction::Mute
            } else {
                HotkeyAction::Unknown
            },
        );
    }
    if msg == WM_DWMCOLORIZATIONCOLORCHANGED {
        return MainEvent::AccentChanged;
    }
    if msg == WM_DISPLAYCHANGE || msg == WM_SETTINGCHANGE || msg == WM_DPICHANGED {
        return MainEvent::DisplayChanged;
    }
    if msg == WM_DESTROY {
        return MainEvent::Destroyed;
    }
    MainEvent::Default
}

/// The channel that an entry of the channel submenu stands for.
pub open spec fn picked_channel(item: int, edition: int) -> Option<(ChannelKind, i32)> {
    if 0 <= item < channels(edition).len() {
        Some(channels(edition)[item])
    } else {
        None
    }
}

/// The channel of an entry in the channel submenu, if the edition has it.
pub fn menu_channel(item: i32, edition: i32) -> (r: Option<(ChannelKind, i32)>)
    requires
        item >= 0,
    ensures
        r == picked_channel(item as int, edition as int),
{
    let all = all_channels(edition);
    let i: usize = item as usize;
    if i < all.len() {
        Some(all[i])
    } else {
        None
    }
}

/// Each entry of the channel submenu picks the channel that it shows.
pub proof fn law_menu_entries_pick_their_channel(item: int, edition: int)
    requires
        0 <= item < channels(edition).len(),
    ensures
        command_event(ID_MENU_CHANNEL_FIRST + item) == MainEvent::PickChannel(item as i32),
        channels(edition).len() <= ID_MENU_CHANNEL_COUNT,
{
}

/// A wheel delta posted as a message word comes back as it was.
pub proof fn law_wheel_deltas_survive_posting(delta: int, word: u64, lparam: u64, created: u32)
    requires
        i32::MIN <= delta <= i32::MAX,
        word as int == delta % 0x1_0000_0000_0000_0000,
        created != WM_TRAY_WHEEL,
    ensures
        main_event_spec(WM_TRAY_WHEEL, word, lparam, created) == MainEvent::Wheel(delta as i32),
{
}

// ---------------------------------------------------------------------------
// The bar's window
// ---------------------------------------------------------------------------

/// What a message to the bar's window means.
#[derive(Clone, Copy, PartialEq, Eq, Debug, Structural)]
pub enum OsdEvent {
    Press,
    Motion,
    Release,
    Wheel(i32),
    Mute,
    CaptureLost,
    /// Left to the system.
    Default,
}

pub open spec fn osd_event_spec(msg: u32, wparam: u64) -> OsdEvent {
    if msg == WM_LBUTTONDOWN {
        OsdEvent::Press
    } else if msg == WM_MOUSEMOVE {
        OsdEvent::Motion
    } else if msg == WM_LBUTTONUP {
        OsdEvent::Release
    } else if msg == WM_MOUSEWHEEL {
        OsdEvent::Wheel(signed_16(high(wparam as int)) as i32)
    } else if msg == WM_MBUTTONUP {
        OsdEvent::Mute
    } else if msg == WM_CAPTURECHANGED {
        OsdEvent::CaptureLost
    } else {
        OsdEvent::Default
    }
}

/// What a message to the bar's window means. Scrolling over the bar adjusts,
/// middle-click mutes: the wheel goes to the window under the pointer even
/// though the bar never takes focus.
pub fn osd_event(msg: u32, wparam: u64) -> (r: OsdEvent)
    ensures
        r == osd_event_spec(msg, wparam),
{
    if msg == WM_LBUTTONDOWN {
        OsdEvent::Press
    } else if msg == WM_MOUSEMOVE {
        OsdEvent::Motion
    } else if msg == WM_LBUTTONUP {
        OsdEvent::Release
    } else if msg == WM_MOUSEWHEEL {
        OsdEvent::Wheel(signed_16_of(high_of(wparam)))
    } else if msg == WM_MBUTTONUP {
        OsdEvent::Mute
    } else if msg == WM_CAPTURECHANGED {
        OsdEvent::CaptureLost
    } else {
        OsdEvent::Default
    }
}

// ---------------------------------------------------------------------------
// The settings window
// ---------------------------------------------------------------------------

/// What a message to the settings window means.
#[derive(Clone, Copy, PartialEq, Eq, Debug, Structural)]
pub enum SettingsEvent {
    Create,
    /// The window is gone for good.
    Gone,
    EraseBackground,
    Paint,
    /// Moved to a display with different scaling, of the given resolution.
    Rescaled(i32),
    /// A label or a button asks for its colours.
    LabelColors,
    /// A field or a list asks for its colours.
    FieldColors,
    DrawItem,
    Notify,
    Command { id: i32, notification: u32 },
    Close,
    Destroy,
    /// Left to the system.
    Default,
}

pub open spec fn settings_event_spec(msg: u32, wparam: u64) -> SettingsEvent {
    if msg == WM_CREATE {
        SettingsEvent::Create
    } else if msg == WM_NCDESTROY {
        SettingsEvent::Gone
    } else if msg == WM_ERASEBKGND {
        SettingsEvent::EraseBackground
    } else if msg == WM_PAINT {
        SettingsEvent::Paint
    } else if msg == WM_DPICHANGED {
        SettingsEvent::Rescaled(
            if high(wparam as int) < 96 {
                96
            } else {
                high(wparam as int) as i32
            },
        )
    } else if msg == WM_CTLCOLORSTATIC || msg == WM_CTLCOLORBTN {
        SettingsEvent::LabelColors
    } else if msg == WM_CTLCOLOREDIT || msg == WM_CTLCOLORLISTBOX {
        SettingsEvent::FieldColors
    } else if msg == WM_DRAWITEM {
        SettingsEvent::DrawItem
    } else if msg == WM_NOTIFY {
        SettingsEvent::Notify
    } else if msg == WM_COMMAND {
        SettingsEvent::Command {
            id: low(wparam as int) as i32,
            notification: high(wparam as int) as u32,
        }
    } else if msg == WM_CLOSE {
        SettingsEvent::Close
    } else if msg == WM_DESTROY {
        SettingsEvent::Destroy
    } else {
        SettingsEvent::Default
    }
}

/// What a message to the settings window means.
pub fn settings_event(msg: u32, wparam: u64) -> (r: SettingsEvent)
    ensures
        r == settings_event_spec(msg, wparam),
{
    if msg == WM_CREATE {
        SettingsEvent::Create
    } else if msg == WM_NCDESTROY {
        SettingsEvent::Gone
    } else if msg == WM_ERASEBKGND {
        SettingsEvent::EraseBackground
    } else if msg == WM_PAINT {
        SettingsEvent::Paint
    } else if msg == WM_DPICHANGED {
        let dpi: i32 = high_of(wparam);
        SettingsEvent::Rescaled(
            if dpi < 96 {
                96
            } else {
                dpi
            },
        )
    } else if msg == WM_CTLCOLORSTATIC || msg == WM_CTLCOLORBTN {
        SettingsEvent::LabelColors
    } else if msg == WM_CTLCOLOREDIT || msg == WM_CTLCOLORLISTBOX {
        SettingsEvent::FieldColors
    } else if msg == WM_DRAWITEM {
        SettingsEvent::DrawItem
    } else if msg == WM_NOTIFY {
        SettingsEvent::Notify
    } else if msg == WM_COMMAND {
        SettingsEvent::Command { id: low_of(wparam), notification: high_of(wparam) as u32 }
    } else if msg == WM_CLOSE {
        SettingsEvent::Close
    } else if msg == WM_DESTROY {
        SettingsEvent::Destroy
    } else {
        SettingsEvent::Default
    }
}

// ---------------------------------------------------------------------------
// Listening
// ---------------------------------------------------------------------------

pub open spec fn contains_point(r: Rect, p: (i32, i32)) -> bool {
    r.left <= p.0 < r.right && r.top <= p.1 < r.bottom
}

/// Whether a point lies in a rectangle.
pub fn is_inside(r: Rect, p: (i32, i32)) -> (inside: bool)
    ensures
        inside == contains_point(r, p),
{
    p.0 >= r.left && p.0 < r.right && p.1 >= r.top && p.1 < r.bottom
}

/// What the mouse hook posts of an event.
pub open spec fn hooked_delta(
    code: i32,
    msg: u32,
    point: (i32, i32),
    mouse_data: u32,
    tray: Rect,
    listening: bool,
) -> Option<i32> {
    if code >= 0 && msg == WM_MOUSEWHEEL && contains_point(tray, point) && listening {
        Some(signed_16(mouse_data as int / 0x1_0000) as i32)
    } else {
        None
    }
}

/// What the mouse hook does with an event: the wheel delta to post to the
/// main window where the wheel turned over the tray icon, `None` where the
/// event is none of its business. `tray` is where the icon was last seen.
pub fn mouse_hook(
    code: i32,
    msg: u32,
    point: (i32, i32),
    mouse_data: u32,
    tray: Rect,
    listening: bool,
) -> (r: Option<i32>)
    ensures
        r == hooked_delta(code, msg, point, mouse_data, tray, listening),
{
    if code >= 0 && msg == WM_MOUSEWHEEL && is_inside(tray, point) && listening {
        Some(signed_16_of((mouse_data / 0x1_0000) as i32))
    } else {
        None
    }
}

/// A shortcut to register: its number, modifiers and key.
#[derive(Clone, Copy, PartialEq, Eq, Debug, Structural)]
pub struct Registration {
    pub id: i32,
    pub mods: u32,
    pub vk: u32,
}

/// A shortcut that is asked for only where it is set.
pub open spec fn wanted(id: i32, key: Hotkey, extra: u32) -> Seq<Registration> {
    if key.vk != 0 {
        seq![Registration { id, mods: key.mods | extra, vk: key.vk }]
    } else {
        Seq::empty()
    }
}

/// The shortcuts that the settings ask for. Volume should ramp while held;
/// mute shouldn't flicker.
pub open spec fn registrations(settings: Settings) -> Seq<Registration> {
    if settings.hotkeys_enabled {
        wanted(HOTKEY_UP, settings.hotkey_up, 0) + wanted(HOTKEY_DOWN, settings.hotkey_down, 0)
            + wanted(HOTKEY_MUTE, settings.hotkey_mute, MOD_NOREPEAT)
    } else {
        Seq::empty()
    }
}

fn add_wanted(out: &mut Vec<Registration>, id: i32, key: Hotkey, extra: u32)
    ensures
        final(out)@ == old(out)@ + wanted(id, key, extra),
{
    if key.is_set() {
        out.push(Registration { id, mods: key.mods | extra, vk: key.vk });
    }
    assert(out@ == old(out)@ + wanted(id, key, extra));
}

/// The shortcuts to register, in order.
pub fn sync_input(settings: &Settings) -> (r: Vec<Registration>)
    ensures
        r@ == registrations(*settings),
{
    let mut out: Vec<Registration> = Vec::new();
    if settings.hotkeys_enabled {
        add_wanted(&mut out, HOTKEY_UP, settings.hotkey_up, 0);
        add_wanted(&mut out, HOTKEY_DOWN, settings.hotkey_down, 0);
        add_wanted(&mut out, HOTKEY_MUTE, settings.hotkey_mute, MOD_NOREPEAT);
    }
    assert(out@ == registrations(*settings));
    out
}

/// Every number that a shortcut can be registered under. All of them are
/// unregistered before any is registered anew.
pub fn hotkey_ids() -> (r: Vec<i32>)
    ensures
        r@ == all_hotkey_ids(),
{
    let mut out: Vec<i32> = Vec::new();
    out.push(HOTKEY_UP);
    out.push(HOTKEY_DOWN);
    out.push(HOTKEY_MUTE);
    assert(out@ == all_hotkey_ids());
    out
}

pub open spec fn all_hotkey_ids() -> Seq<i32> {
    seq![HOTKEY_UP, HOTKEY_DOWN, HOTKEY_MUTE]
}

/// What is reported of a shortcut: its description, where it is set and could
/// not be registered.
pub open spec fn reported(id: i32, key: Hotkey, failed: Seq<i32>) -> Seq<Seq<char>> {
    if key.vk != 0 && failed.contains(id) {
        seq![key.description()]
    } else {
        Seq::empty()
    }
}

/// The shortcuts that could not be registered, in words and in the order up,
/// down, mute.
pub open spec fn failures(settings: Settings, failed: Seq<i32>) -> Seq<Seq<char>> {
    if settings.hotkeys_enabled {
        reported(HOTKEY_UP, settings.hotkey_up, failed) + reported(
            HOTKEY_DOWN,
            settings.hotkey_down,
            failed,
        ) + reported(HOTKEY_MUTE, settings.hotkey_mute, failed)
    } else {
        Seq::empty()
    }
}

pub open spec fn texts(list: Seq<String>) -> Seq<Seq<char>> {
    Seq::new(list.len(), |i: int| list[i]@)
}

fn has_id(list: &Vec<i32>, id: i32) -> (r: bool)
    ensures
        r == list@.contains(id),
{
    let mut i: usize = 0;
    while i < list.len()
        invariant
            i <= list@.len(),
            forall|j: int| 0 <= j < i ==> #[trigger] list@[j] != id,
        decreases list@.len() - i,
    {
        if list[i] == id {
            return true;
        }
        i += 1;
    }
    false
}

fn add_reported(out: &mut Vec<String>, id: i32, key: Hotkey, failed: &Vec<i32>)
    ensures
        texts(final(out)@) == texts(old(out)@) + reported(id, key, failed@),
{
    if key.is_set() && has_id(failed, id) {
        out.push(key.describe());
    }
    assert(texts(out@) == texts(old(out)@) + reported(id, key, failed@));
}

/// The descriptions of the shortcuts that could not be registered, usually
/// because another app already owns them. `failed` holds the numbers of the
/// registrations that failed, in any order.
pub fn failed_keys(settings: &Settings, failed: &Vec<i32>) -> (r: Vec<String>)
    ensures
        texts(r@) == failures(*settings, failed@),
{
    let mut out: Vec<String> = Vec::new();
    if settings.hotkeys_enabled {
        add_reported(&mut out, HOTKEY_UP, settings.hotkey_up, failed);
        add_reported(&mut out, HOTKEY_DOWN, settings.hotkey_down, failed);
        add_reported(&mut out, HOTKEY_MUTE, settings.hotkey_mute, failed);
    }
    assert(texts(out@) == failures(*settings, failed@));
    out
}

/// What to do about the mouse hook.
#[derive(Clone, Copy, PartialEq, Eq, Debug, Structural)]
pub enum HookChange {
    Install,
    Remove,
    Keep,
}

/// Whether the mouse hook has to be installed or removed to match the
/// settings.
pub open spec fn hook_change_spec(settings: Settings, installed: bool) -> HookChange {
    if settings.tray_scroll && !installed {
        HookChange::Install
    } else if !settings.tray_scroll && installed {
        HookChange::Remove
    } else {
        HookChange::Keep
    }
}

pub fn hook_change(settings: &Settings, installed: bool) -> (r: HookChange)
    ensures
        r == hook_change_spec(*settings, installed),
{
    if settings.tray_scroll && !installed {
        HookChange::Install
    } else if !settings.tray_scroll && installed {
        HookChange::Remove
    } else {
        HookChange::Keep
    }
}

/// The shortcut that a registration stands for.
pub open spec fn key_with_id(settings: Settings, id: i32) -> Hotkey {
    if id == HOTKEY_UP {
        settings.hotkey_up
    } else if id == HOTKEY_DOWN {
        settings.hotkey_down
    } else {
        settings.hotkey_mute
    }
}

// ---------------------------------------------------------------------------
// Input in step with the settings
// ---------------------------------------------------------------------------

/// What is registered with the system: shortcuts, and whether the mouse hook
/// is installed.
pub struct Input {
    pub keys: Set<Registration>,
    pub hooked: bool,
}

impl Input {
    /// The input after all shortcuts were unregistered, those that the
    /// settings ask for registered again but for the ones that failed, and
    /// the mouse hook changed.
    pub open spec fn synced(self, settings: Settings, failed: Seq<i32>) -> Input {
        Input {
            keys: self.keys.filter(|k: Registration| !all_hotkey_ids().contains(k.id)).union(
                registrations(settings).to_set().filter(
                    |k: Registration| !failed.contains(k.id),
                ),
            ),
            hooked: match hook_change_spec(settings, self.hooked) {
                HookChange::Install => true,
                HookChange::Remove => false,
                HookChange::Keep => self.hooked,
            },
        }
    }
}

/// Bringing the input in step with the settings. A shortcut is registered
/// afterwards exactly if shortcuts are enabled, it is set, and registering it
/// did not fail; where shortcuts are disabled none stays registered. Only mute
/// is kept from repeating. The shortcuts reported are exactly those asked for
/// that failed, in the order in which they are asked for, and none where
/// shortcuts are disabled. The mouse hook is installed exactly if scrolling over the icon is
/// on.
pub proof fn law_input_follows_the_settings(before: Input, settings: Settings, failed: Seq<i32>)
    requires
        forall|k: Registration| #[trigger]
            before.keys.contains(k) ==> all_hotkey_ids().contains(k.id),
        settings.hotkey_up.is_valid(),
        settings.hotkey_down.is_valid(),
        settings.hotkey_mute.is_valid(),
    ensures
        ({
            let after = before.synced(settings, failed);
            &&& forall|k: Registration| #[trigger]
                after.keys.contains(k) <==> {
                    let key = key_with_id(settings, k.id);
                    &&& settings.hotkeys_enabled
                    &&& all_hotkey_ids().contains(k.id) && !failed.contains(k.id)
                    &&& key.vk != 0 && k.vk == key.vk
                    &&& k.mods == key.mods + if k.id == HOTKEY_MUTE {
                        MOD_NOREPEAT as int
                    } else {
                        0
                    }
                }
            &&& !settings.hotkeys_enabled ==> after.keys.is_empty() && failures(
                settings,
                failed,
            ).len() == 0
            &&& after.hooked == settings.tray_scroll
        }),
        failures(settings, failed) == registrations(settings).filter(
            |k: Registration| failed.contains(k.id),
        ).map_values(|k: Registration| key_with_id(settings, k.id).description()),
{
    lemma_failures(settings, failed);
    let after = before.synced(settings, failed);
    let ids = all_hotkey_ids();
    assert(ids[0] == HOTKEY_UP && ids[1] == HOTKEY_DOWN && ids[2] == HOTKEY_MUTE);
    assert(forall|m: u32| m | 0 == m) by (bit_vector);
    assert(forall|m: u32| m <= 15 ==> #[trigger] (m | 0x4000) == m + 0x4000) by (bit_vector);
    let (up, down, mute) = (
        wanted(HOTKEY_UP, settings.hotkey_up, 0),
        wanted(HOTKEY_DOWN, settings.hotkey_down, 0),
        wanted(HOTKEY_MUTE, settings.hotkey_mute, MOD_NOREPEAT),
    );
    let all = registrations(settings);
    assert forall|k: Registration| #[trigger] all.contains(k) <==> settings.hotkeys_enabled && (
    up.contains(k) || down.contains(k) || mute.contains(k)) by {
        if settings.hotkeys_enabled {
            lemma_either(up, down, k);
            lemma_either(up + down, mute, k);
        }
    }
    assert forall|k: Registration| #[trigger] after.keys.contains(k) <==> {
        let key = key_with_id(settings, k.id);
        &&& settings.hotkeys_enabled
        &&& ids.contains(k.id) && !failed.contains(k.id)
        &&& key.vk != 0 && k.vk == key.vk
        &&& k.mods == key.mods + if k.id == HOTKEY_MUTE {
            MOD_NOREPEAT as int
        } else {
            0
        }
    } by {
        assert(after.keys.contains(k) <==> all.contains(k) && !failed.contains(k.id));
        lemma_wanted(HOTKEY_UP, settings.hotkey_up, 0, k);
        lemma_wanted(HOTKEY_DOWN, settings.hotkey_down, 0, k);
        lemma_wanted(HOTKEY_MUTE, settings.hotkey_mute, MOD_NOREPEAT, k);
    }
    if !settings.hotkeys_enabled {
        assert(after.keys =~= Set::empty());
    }
}

proof fn lemma_failures(settings: Settings, failed: Seq<i32>)
    ensures
        failures(settings, failed) == registrations(settings).filter(
            |k: Registration| failed.contains(k.id),
        ).map_values(|k: Registration| key_with_id(settings, k.id).description()),
{
    let is_failed = |k: Registration| failed.contains(k.id);
    let text = |k: Registration| key_with_id(settings, k.id).description();
    let (up, down, mute) = (
        wanted(HOTKEY_UP, settings.hotkey_up, 0),
        wanted(HOTKEY_DOWN, settings.hotkey_down, 0),
        wanted(HOTKEY_MUTE, settings.hotkey_mute, MOD_NOREPEAT),
    );
    reveal_with_fuel(Seq::filter, 2);
    assert(up.filter(is_failed).map_values(text) =~= reported(
        HOTKEY_UP,
        settings.hotkey_up,
        failed,
    ));
    assert(down.filter(is_failed).map_values(text) =~= reported(
        HOTKEY_DOWN,
        settings.hotkey_down,
        failed,
    ));
    assert(mute.filter(is_failed).map_values(text) =~= reported(
        HOTKEY_MUTE,
        settings.hotkey_mute,
        failed,
    ));
    Seq::filter_distributes_over_add(up, down, is_failed);
    Seq::filter_distributes_over_add(up + down, mute, is_failed);
    assert(failures(settings, failed) =~= registrations(settings).filter(is_failed).map_values(
        text,
    ));
}

proof fn lemma_either(a: Seq<Registration>, b: Seq<Registration>, k: Registration)
    ensures
        (a + b).contains(k) <==> a.contains(k) || b.contains(k),
{
    if a.contains(k) {
        let i = choose|i: int| 0 <= i < a.len() && a[i] == k;
        assert((a + b)[i] == k);
    }
    if b.contains(k) {
        let i = choose|i: int| 0 <= i < b.len() && b[i] == k;
        assert((a + b)[a.len() + i] == k);
    }
}

proof fn lemma_wanted(id: i32, key: Hotkey, extra: u32, k: Registration)
    ensures
        wanted(id, key, extra).contains(k) <==> key.vk != 0 && k == (Registration {
            id,
            mods: key.mods | extra,
            vk: key.vk,
        }),
{
    if key.vk != 0 {
        assert(wanted(id, key, extra)[0] == (Registration {
            id,
            mods: key.mods | extra,
            vk: key.vk,
        }));
    }
}

} // verus!
