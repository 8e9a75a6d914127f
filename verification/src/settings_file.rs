//! The settings file: one `key=value` entry a line.

use crate::config::{ChannelKind, Hotkey, Orientation, Position, Settings};
use crate::decimal::{parse_single, read_single};
use crate::shortest::{single_string, single_text};
use crate::text::{
    bool_str, bool_text, chars_of, int_text, nat_text, parse_signed, parse_unsigned, same,
    same_ignoring_case, same_ignoring_case_of, signed_of, signed_text, split, split_of, split_once,
    split_once_of, trim, trim_of, unsigned_of, unsigned_text, views,
};
use vstd::prelude::*;

verus! {

// ---------------------------------------------------------------------------
// Entries
// ---------------------------------------------------------------------------

/// The key and value of a line. Blank lines, comments and lines without an
/// equals sign have none.
pub open spec fn line_entry(line: Seq<char>) -> Option<(Seq<char>, Seq<char>)> {
    let t = trim(line);
    if t.len() == 0 || t[0] == '#' {
        None
    } else {
        match split_once(t, '=') {
            Some((k, v)) => Some((trim(k), trim(v))),
            None => None,
        }
    }
}

/// The entries of consecutive lines.
pub open spec fn entries(lines: Seq<Seq<char>>) -> Seq<(Seq<char>, Seq<char>)>
    decreases lines.len(),
{
    if lines.len() == 0 {
        Seq::empty()
    } else {
        match line_entry(lines[0]) {
            Some(entry) => seq![entry] + entries(lines.drop_first()),
            None => entries(lines.drop_first()),
        }
    }
}

/// The keys of a settings file.
pub enum Key {
    Type,
    Index,
    Orientation,
    Position,
    Accent,
    AccentFollowSystem,
    Opacity,
    HideMs,
    MinDb,
    MaxDb,
    HideInFullscreen,
    DebugLog,
    WatchAll,
    HotkeysEnabled,
    HotkeyUp,
    HotkeyDown,
    HotkeyMute,
    StepDb,
    TrayScroll,
    CustomX,
    CustomY,
}

impl Key {
    /// How the key is written.
    pub open spec fn text(self) -> Seq<char> {
        match self {
            Key::Type => "type"@,
            Key::Index => "index"@,
            Key::Orientation => "orientation"@,
            Key::Position => "position"@,
            Key::Accent => "accent"@,
            Key::AccentFollowSystem => "accent_follow_system"@,
            Key::Opacity => "opacity"@,
            Key::HideMs => "hide_ms"@,
            Key::MinDb => "min_db"@,
            Key::MaxDb => "max_db"@,
            Key::HideInFullscreen => "hide_in_fullscreen"@,
            Key::DebugLog => "debug_log"@,
            Key::WatchAll => "watch_all"@,
            Key::HotkeysEnabled => "hotkeys_enabled"@,
            Key::HotkeyUp => "hotkey_up"@,
            Key::HotkeyDown => "hotkey_down"@,
            Key::HotkeyMute => "hotkey_mute"@,
            Key::StepDb => "step_db"@,
            Key::TrayScroll => "tray_scroll"@,
            Key::CustomX => "custom_x"@,
            Key::CustomY => "custom_y"@,
        }
    }
}

/// Whether the text is `true`.
pub open spec fn flag_of(v: Seq<char>) -> bool {
    v == "true"@
}

/// A shortcut written as `mods:vk`.
pub open spec fn hotkey_of(v: Seq<char>) -> Option<Hotkey> {
    match split_once(v, ':') {
        Some((mods, vk)) => match (
            unsigned_of(trim(mods), 0xFFFF_FFFF),
            unsigned_of(trim(vk), 0xFFFF_FFFF),
        ) {
            (Some(m), Some(k)) => Some(
                Hotkey {
                    mods: (m as u32) & 15,
                    vk: if k < 0xFF {
                        k as u32
                    } else {
                        0xFF
                    },
                },
            ),
            _ => None,
        },
        None => None,
    }
}

/// Those of the pieces that read as a byte.
pub open spec fn bytes_of(pieces: Seq<Seq<char>>) -> Seq<u8>
    decreases pieces.len(),
{
    if pieces.len() == 0 {
        Seq::empty()
    } else {
        match unsigned_of(trim(pieces[0]), 255) {
            Some(n) => seq![n as u8] + bytes_of(pieces.drop_first()),
            None => bytes_of(pieces.drop_first()),
        }
    }
}

/// A colour written as three bytes between commas.
pub open spec fn accent_of(v: Seq<char>) -> Option<(u8, u8, u8)> {
    let parts = bytes_of(split(v, ','));
    if parts.len() == 3 {
        Some((parts[0], parts[1], parts[2]))
    } else {
        None
    }
}

pub open spec fn position_of(v: Seq<char>) -> Position {
    if v == "centre"@ || v == "center"@ || v == "bottom_center"@ || v == "top_center"@ {
        Position::Centre
    } else if v == "custom"@ {
        Position::Custom
    } else {
        Position::AboveTray
    }
}

/// The key that a text is, if it is one.
pub open spec fn key_of(k: Seq<char>) -> Option<Key> {
    if k == Key::Type.text() {
        Some(Key::Type)
    } else if k == Key::Index.text() {
        Some(Key::Index)
    } else if k == Key::Orientation.text() {
        Some(Key::Orientation)
    } else if k == Key::Position.text() {
        Some(Key::Position)
    } else if k == Key::Accent.text() {
        Some(Key::Accent)
    } else if k == Key::AccentFollowSystem.text() {
        Some(Key::AccentFollowSystem)
    } else if k == Key::Opacity.text() {
        Some(Key::Opacity)
    } else if k == Key::HideMs.text() {
        Some(Key::HideMs)
    } else if k == Key::MinDb.text() {
        Some(Key::MinDb)
    } else if k == Key::MaxDb.text() {
        Some(Key::MaxDb)
    } else if k == Key::HideInFullscreen.text() {
        Some(Key::HideInFullscreen)
    } else if k == Key::DebugLog.text() {
        Some(Key::DebugLog)
    } else if k == Key::WatchAll.text() {
        Some(Key::WatchAll)
    } else if k == Key::HotkeysEnabled.text() {
        Some(Key::HotkeysEnabled)
    } else if k == Key::HotkeyUp.text() {
        Some(Key::HotkeyUp)
    } else if k == Key::HotkeyDown.text() {
        Some(Key::HotkeyDown)
    } else if k == Key::HotkeyMute.text() {
        Some(Key::HotkeyMute)
    } else if k == Key::StepDb.text() {
        Some(Key::StepDb)
    } else if k == Key::TrayScroll.text() {
        Some(Key::TrayScroll)
    } else if k == Key::CustomX.text() {
        Some(Key::CustomX)
    } else if k == Key::CustomY.text() {
        Some(Key::CustomY)
    } else {
        None
    }
}

/// The settings after an entry with a known key. A value that does not read
/// as what the key takes leaves them unchanged.
pub open spec fn with_value(s: Settings, key: Key, v: Seq<char>) -> Settings {
    match key {
        Key::Type => Settings {
            kind: if same_ignoring_case(v, "bus"@) {
                ChannelKind::Bus
            } else {
                ChannelKind::Strip
            },
            ..s
        },
        Key::Index => match signed_of(v) {
            Some(n) => Settings { index: n as i32, ..s },
            None => s,
        },
        Key::Orientation => Settings {
            orientation: if same_ignoring_case(v, "horizontal"@) {
                Orientation::Horizontal
            } else {
                Orientation::Vertical
            },
            ..s
        },
        Key::Position => Settings { position: position_of(v), ..s },
        Key::Accent => match accent_of(v) {
            Some(accent) => Settings { accent, ..s },
            None => s,
        },
        Key::AccentFollowSystem => Settings { accent_follow_system: flag_of(v), ..s },
        Key::Opacity => match unsigned_of(v, 0xFFFF_FFFF) {
            Some(n) => Settings {
                opacity_pct: if n < 100 {
                    n as u8
                } else {
                    100
                },
                ..s
            },
            None => s,
        },
        Key::HideMs => match unsigned_of(v, 0xFFFF_FFFF_FFFF_FFFF) {
            Some(n) => Settings {
                hide_ms: if n < 0xFFFF_FFFF {
                    n as u32
                } else {
                    0xFFFF_FFFF
                },
                ..s
            },
            None => s,
        },
        Key::MinDb => match read_single(v) {
            Some(min_db) => Settings { min_db, ..s },
            None => s,
        },
        Key::MaxDb => match read_single(v) {
            Some(max_db) => Settings { max_db, ..s },
            None => s,
        },
        Key::HideInFullscreen => Settings { hide_in_fullscreen: flag_of(v), ..s },
        Key::DebugLog => Settings { debug_log: flag_of(v), ..s },
        Key::WatchAll => Settings { watch_all: flag_of(v), ..s },
        Key::HotkeysEnabled => Settings { hotkeys_enabled: flag_of(v), ..s },
        Key::HotkeyUp => match hotkey_of(v) {
            Some(hotkey_up) => Settings { hotkey_up, ..s },
            None => s,
        },
        Key::HotkeyDown => match hotkey_of(v) {
            Some(hotkey_down) => Settings { hotkey_down, ..s },
            None => s,
        },
        Key::HotkeyMute => match hotkey_of(v) {
            Some(hotkey_mute) => Settings { hotkey_mute, ..s },
            None => s,
        },
        Key::StepDb => match read_single(v) {
            Some(step_db) => Settings { step_db, ..s },
            None => s,
        },
        Key::TrayScroll => Settings { tray_scroll: flag_of(v), ..s },
        Key::CustomX => match signed_of(v) {
            Some(n) => Settings { custom_x: n as i32, ..s },
            None => s,
        },
        Key::CustomY => match signed_of(v) {
            Some(n) => Settings { custom_y: n as i32, ..s },
            None => s,
        },
    }
}

/// The settings after an entry.
pub open spec fn with_entry(s: Settings, entry: (Seq<char>, Seq<char>)) -> Settings {
    match key_of(entry.0) {
        Some(key) => with_value(s, key, entry.1),
        None => s,
    }
}

/// The settings after all entries, in order.
pub open spec fn with_entries(s: Settings, es: Seq<(Seq<char>, Seq<char>)>) -> Settings
    decreases es.len(),
{
    if es.len() == 0 {
        s
    } else {
        with_entries(with_entry(s, es[0]), es.drop_first())
    }
}

/// What the text of a settings file stands for: the defaults, changed by each
/// entry in turn, with every number in its valid range.
pub open spec fn parsed(text: Seq<char>) -> Settings {
    with_entries(Settings::defaults(), entries(split(text, '\n'))).normalized()
}

// ---------------------------------------------------------------------------
// Parsing
// ---------------------------------------------------------------------------

impl Hotkey {
    /// Stored as `mods:vk`, e.g. `3:38` for Ctrl+Alt+Up.
    pub fn parse(v: &[char]) -> (r: Option<Hotkey>)
        ensures
            r == hotkey_of(v@),
    {
        let (mods, vk) = match split_once_of(v, ':') {
            Some(parts) => parts,
            None => {
                return None;
            },
        };
        let m: u64 = match parse_unsigned(trim_of(mods), 0xFFFF_FFFF) {
            Some(m) => m,
            None => {
                return None;
            },
        };
        let k: u64 = match parse_unsigned(trim_of(vk), 0xFFFF_FFFF) {
            Some(k) => k,
            None => {
                return None;
            },
        };
        Some(
            Hotkey {
                mods: (m as u32) & 15,
                vk: if k < 0xFF {
                    k as u32
                } else {
                    0xFF
                },
            },
        )
    }
}

fn parse_accent(v: &[char]) -> (r: Option<(u8, u8, u8)>)
    ensures
        r == accent_of(v@),
{
    let pieces = split_of(v, ',');
    let ghost all = views(pieces@);
    let mut parts: Vec<u8> = Vec::new();
    let mut i: usize = 0;
    assert(all.skip(0) == all);
    assert(parts@ + bytes_of(all) == bytes_of(all));
    while i < pieces.len()
        invariant
            i <= pieces@.len(),
            all == views(pieces@),
            parts@ + bytes_of(all.skip(i as int)) == bytes_of(all),
        decreases pieces@.len() - i,
    {
        assert(all.skip(i as int)[0] == pieces@[i as int]@);
        assert(all.skip(i as int).drop_first() == all.skip(i + 1));
        let ghost before = parts@;
        match parse_unsigned(trim_of(pieces[i].as_slice()), 255) {
            Some(n) => {
                parts.push(n as u8);
                assert(parts@ + bytes_of(all.skip(i + 1)) == before + (seq![n as u8] + bytes_of(
                    all.skip(i + 1),
                )));
            },
            None => {},
        }
        i += 1;
    }
    assert(parts@ + bytes_of(all.skip(i as int)) == parts@);
    if parts.len() == 3 {
        Some((parts[0], parts[1], parts[2]))
    } else {
        None
    }
}

fn parse_key(k: &[char]) -> (r: Option<Key>)
    ensures
        r == key_of(k@),
{
    if same(k, "type") {
        Some(Key::Type)
    } else if same(k, "index") {
        Some(Key::Index)
    } else if same(k, "orientation") {
        Some(Key::Orientation)
    } else if same(k, "position") {
        Some(Key::Position)
    } else if same(k, "accent") {
        Some(Key::Accent)
    } else if same(k, "accent_follow_system") {
        Some(Key::AccentFollowSystem)
    } else if same(k, "opacity") {
        Some(Key::Opacity)
    } else if same(k, "hide_ms") {
        Some(Key::HideMs)
    } else if same(k, "min_db") {
        Some(Key::MinDb)
    } else if same(k, "max_db") {
        Some(Key::MaxDb)
    } else if same(k, "hide_in_fullscreen") {
        Some(Key::HideInFullscreen)
    } else if same(k, "debug_log") {
        Some(Key::DebugLog)
    } else if same(k, "watch_all") {
        Some(Key::WatchAll)
    } else if same(k, "hotkeys_enabled") {
        Some(Key::HotkeysEnabled)
    } else if same(k, "hotkey_up") {
        Some(Key::HotkeyUp)
    } else if same(k, "hotkey_down") {
        Some(Key::HotkeyDown)
    } else if same(k, "hotkey_mute") {
        Some(Key::HotkeyMute)
    } else if same(k, "step_db") {
        Some(Key::StepDb)
    } else if same(k, "tray_scroll") {
        Some(Key::TrayScroll)
    } else if same(k, "custom_x") {
        Some(Key::CustomX)
    } else if same(k, "custom_y") {
        Some(Key::CustomY)
    } else {
        None
    }
}

fn parse_position(v: &[char]) -> (r: Position)
    ensures
        r == position_of(v@),
{
    if same(v, "centre") || same(v, "center") || same(v, "bottom_center") || same(v, "top_center") {
        Position::Centre
    } else if same(v, "custom") {
        Position::Custom
    } else {
        Position::AboveTray
    }
}

impl Settings {
    /// The settings with one entry taken over.
    fn with(self, key: Key, v: &[char]) -> (r: Settings)
        ensures
            r == with_value(self, key, v@),
    {
        match key {
            Key::Type => {
                let kind = if same_ignoring_case_of(v, "bus") {
                    ChannelKind::Bus
                } else {
                    ChannelKind::Strip
                };
                return Settings { kind, ..self };
            },
            Key::Orientation => {
                let orientation = if same_ignoring_case_of(v, "horizontal") {
                    Orientation::Horizontal
                } else {
                    Orientation::Vertical
                };
                return Settings { orientation, ..self };
            },
            Key::Position => {
                return Settings { position: parse_position(v), ..self };
            },
            Key::Accent => {
                return match parse_accent(v) {
                    Some(accent) => Settings { accent, ..self },
                    None => self,
                };
            },
            Key::Opacity => {
                return match parse_unsigned(v, 0xFFFF_FFFF) {
                    Some(n) => Settings {
                        opacity_pct: if n < 100 {
                            n as u8
                        } else {
                            100
                        },
                        ..self
                    },
                    None => self,
                };
            },
            Key::HideMs => {
                return match parse_unsigned(v, 0xFFFF_FFFF_FFFF_FFFF) {
                    Some(n) => Settings {
                        hide_ms: if n < 0xFFFF_FFFF {
                            n as u32
                        } else {
                            0xFFFF_FFFF
                        },
                        ..self
                    },
                    None => self,
                };
            },
            Key::AccentFollowSystem => {
                return Settings { accent_follow_system: same(v, "true"), ..self };
            },
            Key::HideInFullscreen => {
                return Settings { hide_in_fullscreen: same(v, "true"), ..self };
            },
            Key::DebugLog => {
                return Settings { debug_log: same(v, "true"), ..self };
            },
            Key::WatchAll => {
                return Settings { watch_all: same(v, "true"), ..self };
            },
            Key::HotkeysEnabled => {
                return Settings { hotkeys_enabled: same(v, "true"), ..self };
            },
            Key::TrayScroll => {
                return Settings { tray_scroll: same(v, "true"), ..self };
            },
            Key::Index => {
                return match parse_signed(v) {
                    Some(index) => Settings { index, ..self },
                    None => self,
                };
            },
            Key::MinDb => {
                return match parse_single(v) {
                    Some(min_db) => Settings { min_db, ..self },
                    None => self,
                };
            },
            Key::MaxDb => {
                return match parse_single(v) {
                    Some(max_db) => Settings { max_db, ..self },
                    None => self,
                };
            },
            Key::HotkeyUp => {
                return match Hotkey::parse(v) {
                    Some(hotkey_up) => Settings { hotkey_up, ..self },
                    None => self,
                };
            },
            Key::HotkeyDown => {
                return match Hotkey::parse(v) {
                    Some(hotkey_down) => Settings { hotkey_down, ..self },
                    None => self,
                };
            },
            Key::HotkeyMute => {
                return match Hotkey::parse(v) {
                    Some(hotkey_mute) => Settings { hotkey_mute, ..self },
                    None => self,
                };
            },
            Key::StepDb => {
                return match parse_single(v) {
                    Some(step_db) => Settings { step_db, ..self },
                    None => self,
                };
            },
            Key::CustomX => {
                return match parse_signed(v) {
                    Some(custom_x) => Settings { custom_x, ..self },
                    None => self,
                };
            },
            Key::CustomY => {
                return match parse_signed(v) {
                    Some(custom_y) => Settings { custom_y, ..self },
                    None => self,
                };
            },
        }
    }

    /// Reads the text of a settings file. Unknown keys and malformed lines
    /// are ignored, and numbers out of range are pulled back into it.
    pub fn parse(text: &str) -> (r: Settings)
        ensures
            r == parsed(text@),
            r.is_normal(),
    {
        let mut s = Settings::default();
        let chars = chars_of(text);
        let lines = split_of(chars.as_slice(), '\n');
        let ghost all = views(lines@);
        let ghost start = s;
        let mut i: usize = 0;
        assert(all.skip(0) == all);
        while i < lines.len()
            invariant
                i <= lines@.len(),
                all == views(lines@),
                with_entries(s, entries(all.skip(i as int))) == with_entries(start, entries(all)),
            decreases lines@.len() - i,
        {
            let ghost rest = all.skip(i as int);
            assert(rest[0] == lines@[i as int]@);
            assert(rest.drop_first() == all.skip(i + 1));
            let line = trim_of(lines[i].as_slice());
            if line.len() > 0 && line[0] != '#' {
                if let Some((k, v)) = split_once_of(line, '=') {
                    let k = trim_of(k);
                    let v = trim_of(v);
                    proof {
                        let es = entries(rest);
                        assert(es[0] == (k@, v@));
                        assert(es.drop_first() == entries(rest.drop_first()));
                    }
                    if let Some(key) = parse_key(k) {
                        s = s.with(key, v);
                    }
                }
            }
            i += 1;
        }
        assert(entries(all.skip(i as int)) == Seq::<(Seq<char>, Seq<char>)>::empty());
        s.normalize();
        s
    }
}

// ---------------------------------------------------------------------------
// Serializing
// ---------------------------------------------------------------------------

pub open spec fn kind_text(kind: ChannelKind) -> Seq<char> {
    match kind {
        ChannelKind::Strip => "strip"@,
        ChannelKind::Bus => "bus"@,
    }
}

pub open spec fn orientation_text(orientation: Orientation) -> Seq<char> {
    match orientation {
        Orientation::Vertical => "vertical"@,
        Orientation::Horizontal => "horizontal"@,
    }
}

pub open spec fn position_text(position: Position) -> Seq<char> {
    match position {
        Position::AboveTray => "above_tray"@,
        Position::Centre => "centre"@,
        Position::Custom => "custom"@,
    }
}

pub open spec fn accent_text(accent: (u8, u8, u8)) -> Seq<char> {
    nat_text(accent.0 as nat) + seq![','] + (nat_text(accent.1 as nat) + seq![','] + nat_text(
        accent.2 as nat,
    ))
}

pub open spec fn hotkey_text(key: Hotkey) -> Seq<char> {
    nat_text(key.mods as nat) + seq![':'] + nat_text(key.vk as nat)
}

/// The entry at `i` of a settings file.
pub open spec fn field(s: Settings, i: int) -> (Key, Seq<char>) {
    if i == 0 {
        (Key::Type, kind_text(s.kind))
    } else if i == 1 {
        (Key::Index, int_text(s.index as int))
    } else if i == 2 {
        (Key::Orientation, orientation_text(s.orientation))
    } else if i == 3 {
        (Key::Position, position_text(s.position))
    } else if i == 4 {
        (Key::Accent, accent_text(s.accent))
    } else if i == 5 {
        (Key::AccentFollowSystem, bool_text(s.accent_follow_system))
    } else if i == 6 {
        (Key::Opacity, nat_text(s.opacity_pct as nat))
    } else if i == 7 {
        (Key::HideMs, nat_text(s.hide_ms as nat))
    } else if i == 8 {
        (Key::MinDb, single_text(s.min_db))
    } else if i == 9 {
        (Key::MaxDb, single_text(s.max_db))
    } else if i == 10 {
        (Key::HideInFullscreen, bool_text(s.hide_in_fullscreen))
    } else if i == 11 {
        (Key::DebugLog, bool_text(s.debug_log))
    } else if i == 12 {
        (Key::WatchAll, bool_text(s.watch_all))
    } else if i == 13 {
        (Key::HotkeysEnabled, bool_text(s.hotkeys_enabled))
    } else if i == 14 {
        (Key::HotkeyUp, hotkey_text(s.hotkey_up))
    } else if i == 15 {
        (Key::HotkeyDown, hotkey_text(s.hotkey_down))
    } else if i == 16 {
        (Key::HotkeyMute, hotkey_text(s.hotkey_mute))
    } else if i == 17 {
        (Key::StepDb, single_text(s.step_db))
    } else if i == 18 {
        (Key::TrayScroll, bool_text(s.tray_scroll))
    } else if i == 19 {
        (Key::CustomX, int_text(s.custom_x as int))
    } else {
        (Key::CustomY, int_text(s.custom_y as int))
    }
}

/// The entries of a settings file, in order.
pub open spec fn fields(s: Settings) -> Seq<(Key, Seq<char>)> {
    Seq::new(21, |i: int| field(s, i))
}

/// One line for each entry.
pub open spec fn file_text(fs: Seq<(Key, Seq<char>)>) -> Seq<char>
    decreases fs.len(),
{
    if fs.len() == 0 {
        Seq::empty()
    } else {
        fs[0].0.text() + seq!['='] + fs[0].1 + seq!['\n'] + file_text(fs.drop_first())
    }
}

/// The text of a settings file.
pub open spec fn serialized(s: Settings) -> Seq<char> {
    file_text(fields(s))
}

proof fn lemma_file_text_push(fs: Seq<(Key, Seq<char>)>, k: Key, v: Seq<char>)
    ensures
        file_text(fs.push((k, v))) == file_text(fs) + (k.text() + seq!['='] + v + seq!['\n']),
    decreases fs.len(),
{
    let all = fs.push((k, v));
    if fs.len() == 0 {
        assert(all.drop_first() == fs);
        assert(file_text(all) == file_text(fs) + (k.text() + seq!['='] + v + seq!['\n']));
    } else {
        assert(all.drop_first() == fs.drop_first().push((k, v)));
        lemma_file_text_push(fs.drop_first(), k, v);
        assert(file_text(all) == file_text(fs) + (k.text() + seq!['='] + v + seq!['\n']));
    }
}

fn kind_str(kind: ChannelKind) -> (r: &'static str)
    ensures
        r@ == kind_text(kind),
{
    match kind {
        ChannelKind::Strip => "strip",
        ChannelKind::Bus => "bus",
    }
}

fn orientation_str(orientation: Orientation) -> (r: &'static str)
    ensures
        r@ == orientation_text(orientation),
{
    match orientation {
        Orientation::Vertical => "vertical",
        Orientation::Horizontal => "horizontal",
    }
}

fn position_str(position: Position) -> (r: &'static str)
    ensures
        r@ == position_text(position),
{
    match position {
        Position::AboveTray => "above_tray",
        Position::Centre => "centre",
        Position::Custom => "custom",
    }
}

fn accent_string(accent: (u8, u8, u8)) -> (r: String)
    ensures
        r@ == accent_text(accent),
{
    let mut out: String = unsigned_text(accent.0 as u128);
    out.push(',');
    out.append(unsigned_text(accent.1 as u128).as_str());
    out.push(',');
    out.append(unsigned_text(accent.2 as u128).as_str());
    assert(out@ == accent_text(accent));
    out
}

impl Hotkey {
    pub fn serialize(&self) -> (r: String)
        ensures
            r@ == hotkey_text(*self),
    {
        let mut out: String = unsigned_text(self.mods as u128);
        out.push(':');
        out.append(unsigned_text(self.vk as u128).as_str());
        assert(out@ == hotkey_text(*self));
        out
    }
}

fn add_line(
    out: &mut String,
    key: &str,
    value: &str,
    Ghost(fs): Ghost<Seq<(Key, Seq<char>)>>,
    Ghost(k): Ghost<Key>,
)
    requires
        old(out)@ == file_text(fs),
        key@ == k.text(),
    ensures
        final(out)@ == file_text(fs.push((k, value@))),
{
    proof {
        lemma_file_text_push(fs, k, value@);
    }
    out.append(key);
    out.push('=');
    out.append(value);
    out.push('\n');
    assert(out@ == file_text(fs) + (k.text() + seq!['='] + value@ + seq!['\n']));
}

impl Settings {
    /// The text of a settings file that holds these settings.
    pub fn serialize(&self) -> (r: String)
        ensures
            r@ == serialized(*self),
    {
        let mut out: String = String::new();
        let ghost mut fs: Seq<(Key, Seq<char>)> = Seq::empty();
        add_line(
            &mut out,
            "type",
            kind_str(self.kind),
            Ghost(fs),
            Ghost(Key::Type),
        );
        proof {
            fs = fs.push((Key::Type, kind_text(self.kind)));
        }
        add_line(
            &mut out,
            "index",
            signed_text(self.index as i64).as_str(),
            Ghost(fs),
            Ghost(Key::Index),
        );
        proof {
            fs = fs.push((Key::Index, int_text(self.index as int)));
        }
        add_line(
            &mut out,
            "orientation",
            orientation_str(self.orientation),
            Ghost(fs),
            Ghost(Key::Orientation),
        );
        proof {
            fs = fs.push((Key::Orientation, orientation_text(self.orientation)));
        }
        add_line(
            &mut out,
            "position",
            position_str(self.position),
            Ghost(fs),
            Ghost(Key::Position),
        );
        proof {
            fs = fs.push((Key::Position, position_text(self.position)));
        }
        add_line(
            &mut out,
            "accent",
            accent_string(self.accent).as_str(),
            Ghost(fs),
            Ghost(Key::Accent),
        );
        proof {
            fs = fs.push((Key::Accent, accent_text(self.accent)));
        }
        add_line(
            &mut out,
            "accent_follow_system",
            bool_str(self.accent_follow_system),
            Ghost(fs),
            Ghost(Key::AccentFollowSystem),
        );
        proof {
            fs = fs.push((Key::AccentFollowSystem, bool_text(self.accent_follow_system)));
        }
        add_line(
            &mut out,
            "opacity",
            unsigned_text(self.opacity_pct as u128).as_str(),
            Ghost(fs),
            Ghost(Key::Opacity),
        );
        proof {
            fs = fs.push((Key::Opacity, nat_text(self.opacity_pct as nat)));
        }
        add_line(
            &mut out,
            "hide_ms",
            unsigned_text(self.hide_ms as u128).as_str(),
            Ghost(fs),
            Ghost(Key::HideMs),
        );
        proof {
            fs = fs.push((Key::HideMs, nat_text(self.hide_ms as nat)));
        }
        add_line(
            &mut out,
            "min_db",
            single_string(self.min_db).as_str(),
            Ghost(fs),
            Ghost(Key::MinDb),
        );
        proof {
            fs = fs.push((Key::MinDb, single_text(self.min_db)));
        }
        add_line(
            &mut out,
            "max_db",
            single_string(self.max_db).as_str(),
            Ghost(fs),
            Ghost(Key::MaxDb),
        );
        proof {
            fs = fs.push((Key::MaxDb, single_text(self.max_db)));
        }
        add_line(
            &mut out,
            "hide_in_fullscreen",
            bool_str(self.hide_in_fullscreen),
            Ghost(fs),
            Ghost(Key::HideInFullscreen),
        );
        proof {
            fs = fs.push((Key::HideInFullscreen, bool_text(self.hide_in_fullscreen)));
        }
        add_line(
            &mut out,
            "debug_log",
            bool_str(self.debug_log),
            Ghost(fs),
            Ghost(Key::DebugLog),
        );
        proof {
            fs = fs.push((Key::DebugLog, bool_text(self.debug_log)));
        }
        add_line(
            &mut out,
            "watch_all",
            bool_str(self.watch_all),
            Ghost(fs),
            Ghost(Key::WatchAll),
        );
        proof {
            fs = fs.push((Key::WatchAll, bool_text(self.watch_all)));
        }
        add_line(
            &mut out,
            "hotkeys_enabled",
            bool_str(self.hotkeys_enabled),
            Ghost(fs),
            Ghost(Key::HotkeysEnabled),
        );
        proof {
            fs = fs.push((Key::HotkeysEnabled, bool_text(self.hotkeys_enabled)));
        }
        add_line(
            &mut out,
            "hotkey_up",
            self.hotkey_up.serialize().as_str(),
            Ghost(fs),
            Ghost(Key::HotkeyUp),
        );
        proof {
            fs = fs.push((Key::HotkeyUp, hotkey_text(self.hotkey_up)));
        }
        add_line(
            &mut out,
            "hotkey_down",
            self.hotkey_down.serialize().as_str(),
            Ghost(fs),
            Ghost(Key::HotkeyDown),
        );
        proof {
            fs = fs.push((Key::HotkeyDown, hotkey_text(self.hotkey_down)));
        }
        add_line(
            &mut out,
            "hotkey_mute",
            self.hotkey_mute.serialize().as_str(),
            Ghost(fs),
            Ghost(Key::HotkeyMute),
        );
        proof {
            fs = fs.push((Key::HotkeyMute, hotkey_text(self.hotkey_mute)));
        }
        add_line(
            &mut out,
            "step_db",
            single_string(self.step_db).as_str(),
            Ghost(fs),
            Ghost(Key::StepDb),
        );
        proof {
            fs = fs.push((Key::StepDb, single_text(self.step_db)));
        }
        add_line(
            &mut out,
            "tray_scroll",
            bool_str(self.tray_scroll),
            Ghost(fs),
            Ghost(Key::TrayScroll),
        );
        proof {
            fs = fs.push((Key::TrayScroll, bool_text(self.tray_scroll)));
        }
        add_line(
            &mut out,
            "custom_x",
            signed_text(self.custom_x as i64).as_str(),
            Ghost(fs),
            Ghost(Key::CustomX),
        );
        proof {
            fs = fs.push((Key::CustomX, int_text(self.custom_x as int)));
        }
        add_line(
            &mut out,
            "custom_y",
            signed_text(self.custom_y as i64).as_str(),
            Ghost(fs),
            Ghost(Key::CustomY),
        );
        proof {
            fs = fs.push((Key::CustomY, int_text(self.custom_y as int)));
        }
        assert(fs == fields(*self));
        out
    }
}

} // verus!
