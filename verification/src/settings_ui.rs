//! The settings window: what its controls hold, how they are read and checked,
//! and what its buttons do.

use crate::config::{channels, limited, ChannelKind, Hotkey, Orientation, Position, Settings};
use crate::decimal::{parse_single, read_single};
use crate::osd::Rect;
use crate::shortest::{single_string, single_text};
use crate::single::Single;
use crate::text::{copy_of, nat_text, parse_unsigned, trim, trim_of, unsigned_of, unsigned_text};
use crate::utf16::{decode, from_wide};
use vstd::prelude::*;

verus! {

// ---------------------------------------------------------------------------
// Controls
// ---------------------------------------------------------------------------

pub const ID_COMBO_CHANNEL: i32 = 3001;

pub const ID_BTN_COLOR: i32 = 3006;

pub const ID_EDIT_OPACITY: i32 = 3008;

pub const ID_EDIT_HIDE: i32 = 3009;

pub const ID_CHK_AUTOSTART: i32 = 3010;

pub const ID_EDIT_MINDB: i32 = 3011;

pub const ID_EDIT_MAXDB: i32 = 3012;

pub const ID_BTN_TEST: i32 = 3013;

pub const ID_BTN_SAVE: i32 = 3014;

pub const ID_BTN_CANCEL: i32 = 3015;

pub const ID_CHK_ACCENT_SYS: i32 = 3016;

pub const ID_CHK_FULLSCREEN: i32 = 3017;

pub const ID_BTN_RESET: i32 = 3018;

pub const ID_CHK_WATCH: i32 = 3019;

pub const ID_CHK_HOTKEYS: i32 = 3020;

pub const ID_CHK_DEBUG: i32 = 3021;

pub const ID_EDIT_STEP: i32 = 3022;

pub const ID_CHK_SCROLL: i32 = 3023;

pub const ID_HK_UP: i32 = 3030;

pub const ID_HK_DOWN: i32 = 3031;

pub const ID_HK_MUTE: i32 = 3032;

/// Section captions get the dimmed text color.
pub const ID_SECTION_FIRST: i32 = 3100;

pub const ID_SECTION_END: i32 = 3200;

// Segmented controls: each group owns a contiguous id range.
pub const ID_SEG_ORIENT: i32 = 3210;

pub const ID_SEG_POSITION: i32 = 3220;

pub const ID_SEG_END: i32 = 3230;

/// What Enter and Esc turn into.
pub const ID_OK: i32 = 1;

pub const ID_CANCEL: i32 = 2;

/// A field's text changed; a list's selection changed.
pub const EN_CHANGE: u32 = 0x0300;

pub const CBN_SELCHANGE: u32 = 1;

/// Everything the open settings window remembers.
pub struct Ui {
    /// Choices made in the window but not yet applied. Text fields are read
    /// into it on demand; toggles and segments write to it directly.
    pub pending: Settings,
    /// Live settings as they were when the window opened, so Cancel can undo
    /// anything the Test button pushed live.
    pub snapshot: Settings,
    pub tested: bool,
    pub autostart: bool,
    /// Channels in the dropdown, in item order.
    pub channels: Vec<(ChannelKind, i32)>,
    pub dpi: i32,
    pub preview_rect: Rect,
}

impl Ui {
    /// A window that has just opened on the live settings. A resolution
    /// beyond 31 bits wraps around.
    pub fn new(live: Settings, autostart: bool, dpi: u32) -> (r: Ui)
        ensures
            r.pending == live,
            r.snapshot == live,
            !r.tested,
            r.autostart == autostart,
            r.channels@.len() == 0,
            r.dpi == if dpi < 96 {
                96
            } else if dpi <= 0x7FFF_FFFF {
                dpi as int
            } else {
                dpi - 0x1_0000_0000
            },
            r.preview_rect == (Rect { left: 0, top: 0, right: 0, bottom: 0 }),
    {
        Ui {
            pending: live,
            snapshot: live,
            tested: false,
            autostart,
            channels: Vec::new(),
            dpi: if dpi < 96 {
                96
            } else if dpi <= 0x7FFF_FFFF {
                dpi as i32
            } else {
                (dpi as i64 - 0x1_0000_0000) as i32
            },
            preview_rect: Rect { left: 0, top: 0, right: 0, bottom: 0 },
        }
    }
}

// ---------------------------------------------------------------------------
// Toggle switches
// ---------------------------------------------------------------------------

/// The switches, one for each choice between on and off.
#[derive(Clone, Copy, PartialEq, Eq, Debug, Structural)]
pub enum Toggle {
    Autostart,
    AccentSystem,
    Fullscreen,
    Watch,
    Hotkeys,
    Debug,
    Scroll,
}

impl Toggle {
    pub open spec fn id(self) -> int {
        match self {
            Toggle::Autostart => ID_CHK_AUTOSTART as int,
            Toggle::AccentSystem => ID_CHK_ACCENT_SYS as int,
            Toggle::Fullscreen => ID_CHK_FULLSCREEN as int,
            Toggle::Watch => ID_CHK_WATCH as int,
            Toggle::Hotkeys => ID_CHK_HOTKEYS as int,
            Toggle::Debug => ID_CHK_DEBUG as int,
            Toggle::Scroll => ID_CHK_SCROLL as int,
        }
    }
}

/// The switch that a control is, if it is one.
pub fn toggle_of(id: i32) -> (r: Option<Toggle>)
    ensures
        match r {
            Some(t) => t.id() == id,
            None => forall|t: Toggle| #[trigger] t.id() != id,
        },
{
    if id == ID_CHK_AUTOSTART {
        Some(Toggle::Autostart)
    } else if id == ID_CHK_ACCENT_SYS {
        Some(Toggle::AccentSystem)
    } else if id == ID_CHK_FULLSCREEN {
        Some(Toggle::Fullscreen)
    } else if id == ID_CHK_WATCH {
        Some(Toggle::Watch)
    } else if id == ID_CHK_HOTKEYS {
        Some(Toggle::Hotkeys)
    } else if id == ID_CHK_DEBUG {
        Some(Toggle::Debug)
    } else if id == ID_CHK_SCROLL {
        Some(Toggle::Scroll)
    } else {
        None
    }
}

impl Ui {
    pub open spec fn toggled(self, t: Toggle) -> bool {
        match t {
            Toggle::Autostart => self.autostart,
            Toggle::AccentSystem => self.pending.accent_follow_system,
            Toggle::Fullscreen => self.pending.hide_in_fullscreen,
            Toggle::Watch => self.pending.watch_all,
            Toggle::Hotkeys => self.pending.hotkeys_enabled,
            Toggle::Debug => self.pending.debug_log,
            Toggle::Scroll => self.pending.tray_scroll,
        }
    }

    /// Whether a switch is on.
    pub fn toggle(&self, t: Toggle) -> (r: bool)
        ensures
            r == self.toggled(t),
    {
        match t {
            Toggle::Autostart => self.autostart,
            Toggle::AccentSystem => self.pending.accent_follow_system,
            Toggle::Fullscreen => self.pending.hide_in_fullscreen,
            Toggle::Watch => self.pending.watch_all,
            Toggle::Hotkeys => self.pending.hotkeys_enabled,
            Toggle::Debug => self.pending.debug_log,
            Toggle::Scroll => self.pending.tray_scroll,
        }
    }

    /// Turns a switch over.
    pub fn flip(&mut self, t: Toggle)
        ensures
            final(self).toggled(t) == !old(self).toggled(t),
            forall|o: Toggle| o != t ==> #[trigger] final(self).toggled(o) == old(self).toggled(o),
            *final(self) == (Ui {
                autostart: final(self).autostart,
                pending: (Settings {
                    accent_follow_system: final(self).pending.accent_follow_system,
                    hide_in_fullscreen: final(self).pending.hide_in_fullscreen,
                    watch_all: final(self).pending.watch_all,
                    hotkeys_enabled: final(self).pending.hotkeys_enabled,
                    debug_log: final(self).pending.debug_log,
                    tray_scroll: final(self).pending.tray_scroll,
                    ..old(self).pending
                }),
                ..*old(self)
            }),
    {
        match t {
            Toggle::Autostart => {
                self.autostart = !self.autostart;
            },
            Toggle::AccentSystem => {
                self.pending.accent_follow_system = !self.pending.accent_follow_system;
            },
            Toggle::Fullscreen => {
                self.pending.hide_in_fullscreen = !self.pending.hide_in_fullscreen;
            },
            Toggle::Watch => {
                self.pending.watch_all = !self.pending.watch_all;
            },
            Toggle::Hotkeys => {
                self.pending.hotkeys_enabled = !self.pending.hotkeys_enabled;
            },
            Toggle::Debug => {
                self.pending.debug_log = !self.pending.debug_log;
            },
            Toggle::Scroll => {
                self.pending.tray_scroll = !self.pending.tray_scroll;
            },
        }
    }
}

// ---------------------------------------------------------------------------
// Segmented choices
// ---------------------------------------------------------------------------

/// The group of a segment, the group's first id and its size.
pub fn seg_group_of(id: i32) -> (r: Option<(usize, i32, usize)>)
    ensures
        r == if ID_SEG_ORIENT <= id < ID_SEG_ORIENT + 2 {
            Some((0usize, ID_SEG_ORIENT, 2usize))
        } else if ID_SEG_POSITION <= id < ID_SEG_POSITION + 3 {
            Some((1usize, ID_SEG_POSITION, 3usize))
        } else {
            None
        },
{
    if ID_SEG_ORIENT <= id && id < ID_SEG_ORIENT + 2 {
        Some((0, ID_SEG_ORIENT, 2))
    } else if ID_SEG_POSITION <= id && id < ID_SEG_POSITION + 3 {
        Some((1, ID_SEG_POSITION, 3))
    } else {
        None
    }
}

impl Ui {
    /// The segment of a group that is chosen.
    pub open spec fn segment_spec(self, group: usize) -> usize {
        if group == 0 {
            match self.pending.orientation {
                Orientation::Vertical => 0,
                Orientation::Horizontal => 1,
            }
        } else {
            match self.pending.position {
                Position::AboveTray => 0,
                Position::Centre => 1,
                Position::Custom => 2,
            }
        }
    }

    pub fn segment(&self, group: usize) -> (r: usize)
        ensures
            r == self.segment_spec(group),
    {
        if group == 0 {
            match self.pending.orientation {
                Orientation::Vertical => 0,
                Orientation::Horizontal => 1,
            }
        } else {
            match self.pending.position {
                Position::AboveTray => 0,
                Position::Centre => 1,
                Position::Custom => 2,
            }
        }
    }

    /// Chooses a segment of a group; one beyond the group counts as the
    /// first.
    pub fn set_segment(&mut self, group: usize, choice: usize)
        ensures
            group == 0 ==> *final(self) == (Ui {
                pending: (Settings {
                    orientation: if choice == 1 {
                        Orientation::Horizontal
                    } else {
                        Orientation::Vertical
                    },
                    ..old(self).pending
                }),
                ..*old(self)
            }),
            group != 0 ==> *final(self) == (Ui {
                pending: (Settings {
                    position: if choice == 1 {
                        Position::Centre
                    } else if choice == 2 {
                        Position::Custom
                    } else {
                        Position::AboveTray
                    },
                    ..old(self).pending
                }),
                ..*old(self)
            }),
            choice < (if group == 0 {
                2int
            } else {
                3
            }) ==> final(self).segment_spec(group) == choice,
    {
        if group == 0 {
            self.pending.orientation = if choice == 1 {
                Orientation::Horizontal
            } else {
                Orientation::Vertical
            };
        } else {
            self.pending.position = if choice == 1 {
                Position::Centre
            } else if choice == 2 {
                Position::Custom
            } else {
                Position::AboveTray
            };
        }
    }
}

// ---------------------------------------------------------------------------
// Text fields
// ---------------------------------------------------------------------------

/// The text fields.
#[derive(Clone, Copy, PartialEq, Eq, Debug, Structural)]
pub enum Field {
    Opacity,
    HideMs,
    MinDb,
    MaxDb,
    StepDb,
}

impl Field {
    pub open spec fn id_spec(self) -> int {
        match self {
            Field::Opacity => ID_EDIT_OPACITY as int,
            Field::HideMs => ID_EDIT_HIDE as int,
            Field::MinDb => ID_EDIT_MINDB as int,
            Field::MaxDb => ID_EDIT_MAXDB as int,
            Field::StepDb => ID_EDIT_STEP as int,
        }
    }

    pub fn id(self) -> (r: i32)
        ensures
            r == self.id_spec(),
    {
        match self {
            Field::Opacity => ID_EDIT_OPACITY,
            Field::HideMs => ID_EDIT_HIDE,
            Field::MinDb => ID_EDIT_MINDB,
            Field::MaxDb => ID_EDIT_MAXDB,
            Field::StepDb => ID_EDIT_STEP,
        }
    }

    /// What a field shows for given settings.
    pub open spec fn text_spec(self, s: Settings) -> Seq<char> {
        match self {
            Field::Opacity => nat_text(s.opacity_pct as nat),
            Field::HideMs => nat_text(s.hide_ms as nat),
            Field::MinDb => single_text(s.min_db),
            Field::MaxDb => single_text(s.max_db),
            Field::StepDb => single_text(s.step_db),
        }
    }

    pub fn text(self, s: &Settings) -> (r: String)
        ensures
            r@ == self.text_spec(*s),
    {
        match self {
            Field::Opacity => unsigned_text(s.opacity_pct as u128),
            Field::HideMs => unsigned_text(s.hide_ms as u128),
            Field::MinDb => single_string(s.min_db),
            Field::MaxDb => single_string(s.max_db),
            Field::StepDb => single_string(s.step_db),
        }
    }

    /// What the user is told when a field does not hold what it should.
    pub fn message(self) -> (r: &'static str)
        ensures
            r@ == self.message_spec(),
    {
        match self {
            Field::Opacity => "Opacity must be a whole number from 20 to 100.",
            Field::HideMs => "Hide after must be a whole number of milliseconds (200 to 10000).",
            Field::MinDb => "The fader range minimum must be a number of dB, e.g. -60.",
            Field::MaxDb => "The fader range maximum must be a number of dB, e.g. 12.",
            Field::StepDb => "Step per notch must be a number of dB, e.g. 1 or 0.5.",
        }
    }

    pub open spec fn message_spec(self) -> Seq<char> {
        match self {
            Field::Opacity => "Opacity must be a whole number from 20 to 100."@,
            Field::HideMs => "Hide after must be a whole number of milliseconds (200 to 10000)."@,
            Field::MinDb => "The fader range minimum must be a number of dB, e.g. -60."@,
            Field::MaxDb => "The fader range maximum must be a number of dB, e.g. 12."@,
            Field::StepDb => "Step per notch must be a number of dB, e.g. 1 or 0.5."@,
        }
    }
}

/// The text of a field, as the system passes it, without the white space
/// around it.
pub fn get_text(units: &[u16]) -> (r: Vec<char>)
    ensures
        r@ == trim(decode(units@)),
{
    let chars = from_wide(units);
    let trimmed = trim_of(chars.as_slice());
    copy_of(trimmed)
}

/// What the controls hold: the selected item of the channel list (negative
/// where none is), the texts of the fields, and the words of the shortcut
/// fields.
pub struct Controls {
    pub selected: i64,
    pub opacity: Vec<char>,
    pub hide_ms: Vec<char>,
    pub min_db: Vec<char>,
    pub max_db: Vec<char>,
    pub step_db: Vec<char>,
    pub hotkey_up: u32,
    pub hotkey_down: u32,
    pub hotkey_mute: u32,
}

impl Controls {
    pub open spec fn text(self, field: Field) -> Seq<char> {
        match field {
            Field::Opacity => self.opacity@,
            Field::HideMs => self.hide_ms@,
            Field::MinDb => self.min_db@,
            Field::MaxDb => self.max_db@,
            Field::StepDb => self.step_db@,
        }
    }

    /// Whether a field holds what it should: a whole number, or a finite
    /// number of decibels.
    pub open spec fn is_readable(self, field: Field) -> bool {
        match field {
            Field::Opacity | Field::HideMs => unsigned_of(self.text(field), 0xFFFF_FFFF) is Some,
            _ => match read_single(self.text(field)) {
                Some(x) => x.is_finite(),
                None => false,
            },
        }
    }

    /// The settings with a field taken over, where it can be read. The
    /// opacity is at most 100 after that in any case.
    pub open spec fn taken(self, field: Field, s: Settings) -> Settings {
        match field {
            Field::Opacity => Settings {
                opacity_pct: match unsigned_of(self.opacity@, 0xFFFF_FFFF) {
                    Some(n) => limited(n as int, 0, 100) as u8,
                    None => limited(s.opacity_pct as int, 0, 100) as u8,
                },
                ..s
            },
            _ if !self.is_readable(field) => s,
            Field::HideMs => Settings {
                hide_ms: unsigned_of(self.hide_ms@, 0xFFFF_FFFF)->0 as u32,
                ..s
            },
            Field::MinDb => Settings { min_db: read_single(self.min_db@)->0, ..s },
            Field::MaxDb => Settings { max_db: read_single(self.max_db@)->0, ..s },
            Field::StepDb => Settings { step_db: read_single(self.step_db@)->0, ..s },
        }
    }

    /// The settings with the selected channel taken over, where there is one.
    pub open spec fn with_channel(self, s: Settings, list: Seq<(ChannelKind, i32)>) -> Settings {
        if 0 <= self.selected < list.len() {
            Settings {
                kind: list[self.selected as int].0,
                index: list[self.selected as int].1,
                ..s
            }
        } else {
            s
        }
    }

    /// The settings with the shortcuts taken over.
    pub open spec fn with_hotkeys(self, s: Settings) -> Settings {
        Settings {
            hotkey_up: Hotkey::of_control_word(self.hotkey_up),
            hotkey_down: Hotkey::of_control_word(self.hotkey_down),
            hotkey_mute: Hotkey::of_control_word(self.hotkey_mute),
            ..s
        }
    }
}

/// The fields in the order in which they are read.
pub open spec fn field_at(i: int) -> Field {
    if i == 0 {
        Field::Opacity
    } else if i == 1 {
        Field::HideMs
    } else if i == 2 {
        Field::MinDb
    } else if i == 3 {
        Field::MaxDb
    } else {
        Field::StepDb
    }
}

/// The settings with the first `n` fields taken over.
pub open spec fn fields_taken(c: Controls, s: Settings, n: int) -> Settings
    decreases n,
{
    if n <= 0 {
        s
    } else {
        c.taken(field_at(n - 1), fields_taken(c, s, n - 1))
    }
}

/// The first of the fields from `i` on that cannot be read.
pub open spec fn first_unreadable(c: Controls, i: int) -> Option<int>
    decreases 5 - i,
{
    if i >= 5 {
        None
    } else if !c.is_readable(field_at(i)) {
        Some(i)
    } else {
        first_unreadable(c, i + 1)
    }
}

/// What a complete reading makes of the settings. Fields that cannot be read
/// are skipped.
pub open spec fn controls_read(
    c: Controls,
    s: Settings,
    list: Seq<(ChannelKind, i32)>,
) -> Settings {
    c.with_hotkeys(fields_taken(c, c.with_channel(s, list), 5))
}

/// A field that didn't parse.
#[derive(Clone, Copy, PartialEq, Eq, Debug, Structural)]
pub struct FieldError {
    pub field: Field,
}

fn nth_field(i: usize) -> (r: Field)
    ensures
        r == field_at(i as int),
{
    if i == 0 {
        Field::Opacity
    } else if i == 1 {
        Field::HideMs
    } else if i == 2 {
        Field::MinDb
    } else if i == 3 {
        Field::MaxDb
    } else {
        Field::StepDb
    }
}

fn whole(text: &Vec<char>) -> (r: Option<u64>)
    ensures
        match r {
            Some(n) => unsigned_of(text@, 0xFFFF_FFFF) == Some(n as nat),
            None => unsigned_of(text@, 0xFFFF_FFFF) is None,
        },
{
    parse_unsigned(text.as_slice(), 0xFFFF_FFFF)
}

fn decibels(text: &Vec<char>) -> (r: Option<Single>)
    ensures
        match r {
            Some(x) => x.is_finite() && read_single(text@) == Some(x),
            None => match read_single(text@) {
                Some(x) => !x.is_finite(),
                None => true,
            },
        },
{
    match parse_single(text.as_slice()) {
        Some(x) => if x.is_finite_value() {
            Some(x)
        } else {
            None
        },
        None => None,
    }
}

/// Takes a field over, where it can be read. Says whether it can.
fn take_field(c: &Controls, field: Field, s: Settings) -> (r: (bool, Settings))
    ensures
        r.0 == c.is_readable(field),
        r.1 == c.taken(field, s),
{
    match field {
        Field::Opacity => {
            // Parsed wide, then clamped, so "300" becomes 100 rather than
            // wrapping.
            match whole(&c.opacity) {
                Some(n) => {
                    let opacity_pct: u8 = if n < 100 {
                        n as u8
                    } else {
                        100
                    };
                    return (true, Settings { opacity_pct, ..s });
                },
                None => {
                    let opacity_pct: u8 = if s.opacity_pct < 100 {
                        s.opacity_pct
                    } else {
                        100
                    };
                    return (false, Settings { opacity_pct, ..s });
                },
            }
        },
        Field::HideMs => {
            match whole(&c.hide_ms) {
                Some(n) => {
                    return (true, Settings { hide_ms: n as u32, ..s });
                },
                None => {
                    return (false, s);
                },
            }
        },
        Field::MinDb => {
            match decibels(&c.min_db) {
                Some(min_db) => {
                    return (true, Settings { min_db, ..s });
                },
                None => {
                    return (false, s);
                },
            }
        },
        Field::MaxDb => {
            match decibels(&c.max_db) {
                Some(max_db) => {
                    return (true, Settings { max_db, ..s });
                },
                None => {
                    return (false, s);
                },
            }
        },
        Field::StepDb => {
            match decibels(&c.step_db) {
                Some(step_db) => {
                    return (true, Settings { step_db, ..s });
                },
                None => {
                    return (false, s);
                },
            }
        },
    }
}

impl Ui {
    /// Reads the text fields, dropdown and hotkey pickers into the pending
    /// settings. With `strict`, the first unparseable field is reported
    /// instead of being skipped, so Save and Test can refuse bad input rather
    /// than ignore it; what comes before it has been taken over then.
    pub fn read_controls(&mut self, c: &Controls, strict: bool) -> (r: Result<(), FieldError>)
        ensures
            ({
                let start = c.with_channel(old(self).pending, old(self).channels@);
                match first_unreadable(*c, 0) {
                    Some(i) if strict => {
                        &&& r == Err::<(), FieldError>(FieldError { field: field_at(i) })
                        &&& final(self).pending == fields_taken(*c, start, i)
                    },
                    _ => {
                        &&& r is Ok
                        &&& final(self).pending == controls_read(
                            *c,
                            old(self).pending,
                            old(self).channels@,
                        )
                    },
                }
            }),
            *final(self) == (Ui { pending: final(self).pending, ..*old(self) }),
    {
        let mut s: Settings = self.pending;
        if c.selected >= 0 && (c.selected as u64) < self.channels.len() as u64 {
            let (kind, index) = self.channels[c.selected as usize];
            s = Settings { kind, index, ..s };
        }
        let ghost start = c.with_channel(self.pending, self.channels@);
        assert(s == start);
        let mut i: usize = 0;
        while i < 5
            invariant
                i <= 5,
                s == fields_taken(*c, start, i as int),
                start == c.with_channel(old(self).pending, old(self).channels@),
                *self == *old(self),
                strict ==> first_unreadable(*c, 0) == first_unreadable(*c, i as int),
            decreases 5 - i,
        {
            let field = nth_field(i);
            let (ok, next) = take_field(c, field, s);
            if strict && !ok {
                self.pending = s;
                return Err(FieldError { field });
            }
            assert(next == fields_taken(*c, start, i + 1));
            s = next;
            i += 1;
        }
        self.pending = Settings {
            hotkey_up: Hotkey::from_control(c.hotkey_up),
            hotkey_down: Hotkey::from_control(c.hotkey_down),
            hotkey_mute: Hotkey::from_control(c.hotkey_mute),
            ..s
        };
        Ok(())
    }
}

} // verus!
