//! The settings, the channels of each Voicemeeter edition, and the global
//! shortcuts.

use crate::rounding::{
    lemma_exact, lemma_negated, lemma_one_scaled, lemma_plus_keeps_order, lemma_plus_one_is_above,
    lemma_pow2_big,
};
use crate::single::{of_bits, Single, ONE};
use crate::text::{int_text, lemma_nat_text, nat_text, signed_text, unsigned_text};
use vstd::arithmetic::power2::{lemma_pow2_adds, lemma_pow2_pos};
use vstd::prelude::*;

verus! {

#[derive(Clone, Copy, PartialEq, Eq, Debug, Structural)]
pub enum ChannelKind {
    Strip,
    Bus,
}

#[derive(Clone, Copy, PartialEq, Eq, Debug, Structural)]
pub enum Orientation {
    Vertical,
    Horizontal,
}

#[derive(Clone, Copy, PartialEq, Eq, Debug, Structural)]
pub enum Position {
    AboveTray,
    Centre,
    /// Wherever the user dragged it to.
    Custom,
}

/// Voicemeeter's own lower fader limit, the bits of -60.0. The display range
/// must sit inside the limits.
pub const FADER_MIN_DB: u32 = 0xC270_0000;

/// Voicemeeter's own upper fader limit, the bits of 12.0.
pub const FADER_MAX_DB: u32 = 0x4140_0000;

/// One decibel above the lower limit, the bits of -59.0.
pub const LOWEST_MAX_DB: u32 = 0xC26C_0000;

/// One decibel below the upper limit, the bits of 11.0.
pub const HIGHEST_MIN_DB: u32 = 0x4130_0000;

/// The smallest step of the wheel, the bits of 0.1.
pub const SMALLEST_STEP_DB: u32 = 0x3DCC_CCCD;

// ---------------------------------------------------------------------------
// Shortcuts
// ---------------------------------------------------------------------------

// The modifier flags of a registered shortcut.
pub const MOD_ALT: u32 = 0x1;

pub const MOD_CONTROL: u32 = 0x2;

pub const MOD_SHIFT: u32 = 0x4;

pub const MOD_WIN: u32 = 0x8;

/// A global shortcut as the system registers it. `vk == 0` means unassigned.
#[derive(Clone, Copy, PartialEq, Eq, Debug, Structural)]
pub struct Hotkey {
    pub mods: u32,
    pub vk: u32,
}

/// `value` where the flag is set, 0 where it is not.
pub open spec fn flagged(word: u32, flag: u32, value: int) -> int {
    if word & flag != 0 {
        value
    } else {
        0
    }
}

/// The keys that need the extended flag in a shortcut field: the arrows,
/// paging, Home, End, Insert and Delete.
pub open spec fn is_extended(vk: int) -> bool {
    0x21 <= vk <= 0x28 || vk == 0x2D || vk == 0x2E
}

/// `name` and a plus sign where the flag is set.
pub open spec fn modifier_text(mods: u32, flag: u32, name: Seq<char>) -> Seq<char> {
    if mods & flag != 0 {
        name + "+"@
    } else {
        ""@
    }
}

/// The name of a key.
pub open spec fn key_text(vk: int) -> Seq<char> {
    if vk == 0x26 {
        "Up"@
    } else if vk == 0x28 {
        "Down"@
    } else if vk == 0x25 {
        "Left"@
    } else if vk == 0x27 {
        "Right"@
    } else if vk == 0x21 {
        "PgUp"@
    } else if vk == 0x22 {
        "PgDn"@
    } else if 0x70 <= vk <= 0x87 {
        "F"@ + nat_text((vk - 0x6F) as nat)
    } else if 0x30 <= vk <= 0x39 || 0x41 <= vk <= 0x5A {
        seq![vk as u8 as char]
    } else {
        "#"@ + nat_text(vk as nat)
    }
}

impl Hotkey {
    /// A shortcut that the settings can hold: known modifiers, and a key code
    /// of one byte.
    pub open spec fn is_valid(self) -> bool {
        self.mods <= 15 && self.vk <= 0xFF
    }

    /// The word of a shortcut field: the key in the low byte, the flags Shift
    /// (1), Control (2), Alt (4) and Extended (8) in the high one.
    pub open spec fn control_word(self) -> int {
        256 * (flagged(self.mods, MOD_SHIFT, 1) + flagged(self.mods, MOD_CONTROL, 2) + flagged(
            self.mods,
            MOD_ALT,
            4,
        ) + if is_extended(self.vk as int) {
            8int
        } else {
            0
        }) + self.vk as int % 256
    }

    /// The shortcut that a field's word stands for.
    pub open spec fn of_control_word(word: u32) -> Hotkey {
        let flags = (word / 256 % 256) as u32;
        Hotkey {
            mods: (flagged(flags, 1, MOD_SHIFT as int) + flagged(flags, 2, MOD_CONTROL as int)
                + flagged(flags, 4, MOD_ALT as int)) as u32,
            vk: (word % 256) as u32,
        }
    }

    /// The shortcut in words.
    pub open spec fn description(self) -> Seq<char> {
        if self.vk == 0 {
            "None"@
        } else {
            modifier_text(self.mods, MOD_CONTROL, "Ctrl"@) + modifier_text(
                self.mods,
                MOD_ALT,
                "Alt"@,
            ) + modifier_text(self.mods, MOD_SHIFT, "Shift"@) + modifier_text(
                self.mods,
                MOD_WIN,
                "Win"@,
            ) + key_text(self.vk as int)
        }
    }

    /// No shortcut.
    pub fn none() -> (r: Hotkey)
        ensures
            r.mods == 0,
            r.vk == 0,
    {
        Hotkey { mods: 0, vk: 0 }
    }

    pub fn is_set(&self) -> (r: bool)
        ensures
            r == (self.vk != 0),
    {
        self.vk != 0
    }

    /// From a shortcut field's word: low byte is the key, high byte is
    /// Shift(1) / Control(2) / Alt(4) / Extended(8).
    pub fn from_control(word: u32) -> (r: Hotkey)
        ensures
            r == Hotkey::of_control_word(word),
            r.is_valid(),
    {
        let flags: u32 = word / 256 % 256;
        let shift: u32 = if flags & 1 != 0 {
            MOD_SHIFT
        } else {
            0
        };
        let control: u32 = if flags & 2 != 0 {
            MOD_CONTROL
        } else {
            0
        };
        let alt: u32 = if flags & 4 != 0 {
            MOD_ALT
        } else {
            0
        };
        Hotkey { mods: shift + control + alt, vk: word % 256 }
    }

    /// Word for a shortcut field. Navigation keys need the extended flag or
    /// the field names them after the numpad ("Num 8" instead of "Up").
    pub fn to_control(self) -> (r: u32)
        ensures
            r == self.control_word(),
    {
        let shift: u32 = if self.mods & MOD_SHIFT != 0 {
            1
        } else {
            0
        };
        let control: u32 = if self.mods & MOD_CONTROL != 0 {
            2
        } else {
            0
        };
        let alt: u32 = if self.mods & MOD_ALT != 0 {
            4
        } else {
            0
        };
        let extended: u32 = if (0x21 <= self.vk && self.vk <= 0x28) || self.vk == 0x2D || self.vk
            == 0x2E {
            8
        } else {
            0
        };
        256 * (shift + control + alt + extended) + self.vk % 256
    }

    /// Human-readable form for logs and tooltips.
    pub fn describe(&self) -> (r: String)
        ensures
            r@ == self.description(),
    {
        if !self.is_set() {
            return String::from_str("None");
        }
        let mut out: String = String::new();
        if self.mods & MOD_CONTROL != 0 {
            out.append("Ctrl");
            out.append("+");
        }
        if self.mods & MOD_ALT != 0 {
            out.append("Alt");
            out.append("+");
        }
        if self.mods & MOD_SHIFT != 0 {
            out.append("Shift");
            out.append("+");
        }
        if self.mods & MOD_WIN != 0 {
            out.append("Win");
            out.append("+");
        }
        proof {
            reveal_strlit("");
        }
        assert(out@ == modifier_text(self.mods, MOD_CONTROL, "Ctrl"@) + modifier_text(
            self.mods,
            MOD_ALT,
            "Alt"@,
        ) + modifier_text(self.mods, MOD_SHIFT, "Shift"@) + modifier_text(
            self.mods,
            MOD_WIN,
            "Win"@,
        ));
        let ghost before = out@;
        let vk: u32 = self.vk;
        if vk == 0x26 {
            out.append("Up");
        } else if vk == 0x28 {
            out.append("Down");
        } else if vk == 0x25 {
            out.append("Left");
        } else if vk == 0x27 {
            out.append("Right");
        } else if vk == 0x21 {
            out.append("PgUp");
        } else if vk == 0x22 {
            out.append("PgDn");
        } else if 0x70 <= vk && vk <= 0x87 {
            out.append("F");
            out.append(unsigned_text((vk - 0x6F) as u128).as_str());
        } else if (0x30 <= vk && vk <= 0x39) || (0x41 <= vk && vk <= 0x5A) {
            out.push(vk as u8 as char);
        } else {
            out.append("#");
            out.append(unsigned_text(vk as u128).as_str());
        }
        assert(out@ == before + key_text(vk as int));
        out
    }
}

/// A shortcut field gives back the shortcut that was put into it, as long as
/// the shortcut is one that the field can show: it has no Windows key.
pub proof fn law_control_words_round_trip(key: Hotkey)
    requires
        key.mods <= 7,
        key.vk <= 0xFF,
    ensures
        Hotkey::of_control_word(key.control_word() as u32) == key,
{
    let mods = key.mods;
    assert(mods & 4 != 0 <==> mods >= 4) by (bit_vector)
        requires
            mods <= 7,
    ;
    assert(mods & 2 != 0 <==> mods % 4 >= 2) by (bit_vector);
    assert(mods & 1 != 0 <==> mods % 2 == 1) by (bit_vector);
    let word = key.control_word() as u32;
    let flags = (word / 256 % 256) as u32;
    assert(word % 256 == key.vk);
    assert(flags & 1 != 0 <==> flags % 2 == 1) by (bit_vector);
    assert(flags & 2 != 0 <==> flags % 4 >= 2) by (bit_vector);
    assert(flags & 4 != 0 <==> flags % 8 >= 4) by (bit_vector);
}

// ---------------------------------------------------------------------------
// Settings
// ---------------------------------------------------------------------------

#[derive(Clone, Copy, Debug)]
pub struct Settings {
    pub kind: ChannelKind,
    pub index: i32,
    pub orientation: Orientation,
    pub position: Position,
    pub accent: (u8, u8, u8),
    pub accent_follow_system: bool,
    pub opacity_pct: u8,
    pub hide_ms: u32,
    pub min_db: Single,
    pub max_db: Single,
    pub hide_in_fullscreen: bool,
    pub debug_log: bool,
    /// Follow whichever strip or bus moves, rather than one fixed channel.
    pub watch_all: bool,
    pub hotkeys_enabled: bool,
    pub hotkey_up: Hotkey,
    pub hotkey_down: Hotkey,
    pub hotkey_mute: Hotkey,
    /// dB moved per wheel notch or hotkey press.
    pub step_db: Single,
    /// Scroll over the tray icon to change volume (needs a global mouse hook).
    pub tray_scroll: bool,
    pub custom_x: i32,
    pub custom_y: i32,
}

pub open spec fn limited(n: int, lo: int, hi: int) -> int {
    if n < lo {
        lo
    } else if n > hi {
        hi
    } else {
        n
    }
}

/// `x`, or the number with the given bits where `x` is not finite.
pub open spec fn finite_or(x: Single, bits: u32) -> Single {
    if x.is_finite() {
        x
    } else {
        of_bits(bits)
    }
}

/// A display range pulled inside the fader's limits, its upper end above its
/// lower one.
#[verifier::opaque]
pub open spec fn normal_range(min_db: Single, max_db: Single) -> (Single, Single) {
    let lo = finite_or(min_db, FADER_MIN_DB).clamped(
        of_bits(FADER_MIN_DB),
        of_bits(HIGHEST_MIN_DB),
    );
    let hi = finite_or(max_db, FADER_MAX_DB).clamped(
        of_bits(LOWEST_MAX_DB),
        of_bits(FADER_MAX_DB),
    );
    if hi.at_most_spec(lo) {
        let top = lo.plus_spec(of_bits(ONE)).smaller(of_bits(FADER_MAX_DB));
        (lo.smaller(top.minus_spec(of_bits(ONE))), top)
    } else {
        (lo, hi)
    }
}

fn normalize_range(min_db: Single, max_db: Single) -> (r: (Single, Single))
    ensures
        r == normal_range(min_db, max_db),
{
    reveal(normal_range);
    let mut lo: Single = min_db;
    let mut hi: Single = max_db;
    if !lo.is_finite_value() {
        lo = Single::from_bits(FADER_MIN_DB);
    }
    if !hi.is_finite_value() {
        hi = Single::from_bits(FADER_MAX_DB);
    }
    lo = lo.clamp_between(Single::from_bits(FADER_MIN_DB), Single::from_bits(HIGHEST_MIN_DB));
    hi = hi.clamp_between(Single::from_bits(LOWEST_MAX_DB), Single::from_bits(FADER_MAX_DB));
    if hi.at_most(lo) {
        hi = lo.plus(Single::from_bits(ONE)).smaller_of(Single::from_bits(FADER_MAX_DB));
        lo = lo.smaller_of(hi.minus(Single::from_bits(ONE)));
    }
    (lo, hi)
}

proof fn lemma_limits_exact()
    ensures
        of_bits(FADER_MIN_DB).plus_spec(of_bits(ONE)) == of_bits(LOWEST_MAX_DB),
        of_bits(HIGHEST_MIN_DB).plus_spec(of_bits(ONE)) == of_bits(FADER_MAX_DB),
        of_bits(LOWEST_MAX_DB).minus_spec(of_bits(ONE)) == of_bits(FADER_MIN_DB),
{
    reveal(Single::minus_spec);
    reveal(Single::plus_spec);
    let (lo, lo1) = (of_bits(FADER_MIN_DB), of_bits(LOWEST_MAX_DB));
    let (hi1, hi) = (of_bits(HIGHEST_MIN_DB), of_bits(FADER_MAX_DB));
    lemma_one_scaled();
    lemma_pow2_big();
    lemma_pow2_adds(5, 126);
    lemma_pow2_adds(3, 126);
    lemma_pow2_pos(126);
    assert(lo.step() == 131 && lo.significand() == 0xF0_0000);
    assert(lo1.step() == 131 && lo1.significand() == 0xEC_0000);
    assert(hi1.step() == 129 && hi1.significand() == 0xB0_0000);
    assert(hi.step() == 129 && hi.significand() == 0xC0_0000);
    lemma_exact(lo1, 1, true);
    lemma_exact(hi, 1, false);
    lemma_exact(lo, 1, true);
    lemma_negated(of_bits(ONE));
}

/// What normalizing makes of a display range.
proof fn lemma_normal_range(min_db: Single, max_db: Single)
    ensures
        ({
            let (lo, hi) = normal_range(min_db, max_db);
            &&& lo.is_finite() && hi.is_finite()
            &&& of_bits(FADER_MIN_DB).rank() <= lo.rank() <= of_bits(HIGHEST_MIN_DB).rank()
            &&& of_bits(LOWEST_MAX_DB).rank() <= hi.rank() <= of_bits(FADER_MAX_DB).rank()
            &&& lo.rank() < hi.rank()
        }),
{
    reveal(Single::minus_spec);
    reveal(normal_range);
    let one = of_bits(ONE);
    let lo = finite_or(min_db, FADER_MIN_DB).clamped(
        of_bits(FADER_MIN_DB),
        of_bits(HIGHEST_MIN_DB),
    );
    let hi = finite_or(max_db, FADER_MAX_DB).clamped(
        of_bits(LOWEST_MAX_DB),
        of_bits(FADER_MAX_DB),
    );
    if hi.at_most_spec(lo) {
        let x = lo.plus_spec(one);
        lemma_limits_exact();
        lemma_plus_keeps_order(of_bits(FADER_MIN_DB), lo, one);
        lemma_plus_keeps_order(lo, of_bits(HIGHEST_MIN_DB), one);
        lemma_plus_one_is_above(lo);
        let top = x.smaller(of_bits(FADER_MAX_DB));
        assert(top.rank() == x.rank());
        lemma_plus_keeps_order(of_bits(LOWEST_MAX_DB), top, one.negated());
    }
}

impl Settings {
    /// What a fresh installation starts with.
    pub open spec fn defaults() -> Settings {
        Settings {
            kind: ChannelKind::Bus,
            index: 0,
            orientation: Orientation::Vertical,
            position: Position::AboveTray,
            accent: (70, 160, 255),
            accent_follow_system: false,
            opacity_pct: 92,
            hide_ms: 1500,
            min_db: of_bits(FADER_MIN_DB),
            max_db: of_bits(FADER_MAX_DB),
            hide_in_fullscreen: true,
            debug_log: false,
            watch_all: false,
            hotkeys_enabled: false,
            hotkey_up: Hotkey { mods: 3, vk: 0x26 },
            hotkey_down: Hotkey { mods: 3, vk: 0x28 },
            hotkey_mute: Hotkey { mods: 3, vk: 0x4D },
            step_db: of_bits(ONE),
            tray_scroll: true,
            custom_x: 0,
            custom_y: 0,
        }
    }

    /// Every number is in its valid range.
    pub open spec fn is_normal(self) -> bool {
        &&& 0 <= self.index <= 63
        &&& 20 <= self.opacity_pct <= 100
        &&& 200 <= self.hide_ms <= 10_000
        &&& self.step_db.is_finite()
        &&& of_bits(SMALLEST_STEP_DB).at_most_spec(self.step_db)
        &&& self.step_db.at_most_spec(of_bits(FADER_MAX_DB))
        &&& self.min_db.is_finite()
        &&& self.max_db.is_finite()
        &&& of_bits(FADER_MIN_DB).at_most_spec(self.min_db)
        &&& self.min_db.at_most_spec(of_bits(HIGHEST_MIN_DB))
        &&& of_bits(LOWEST_MAX_DB).at_most_spec(self.max_db)
        &&& self.max_db.at_most_spec(of_bits(FADER_MAX_DB))
        &&& self.min_db.below_spec(self.max_db)
    }

    /// The settings with every number pulled back into its valid range.
    pub open spec fn normalized(self) -> Settings {
        Settings {
            index: limited(self.index as int, 0, 63) as i32,
            opacity_pct: limited(self.opacity_pct as int, 20, 100) as u8,
            hide_ms: limited(self.hide_ms as int, 200, 10_000) as u32,
            step_db: finite_or(self.step_db, ONE).clamped(
                of_bits(SMALLEST_STEP_DB),
                of_bits(FADER_MAX_DB),
            ),
            min_db: normal_range(self.min_db, self.max_db).0,
            max_db: normal_range(self.min_db, self.max_db).1,
            ..self
        }
    }

    /// Pulls every numeric field back into its valid range. Shared by the
    /// file parser and the settings window.
    pub fn normalize(&mut self)
        ensures
            *final(self) == old(self).normalized(),
            final(self).is_normal(),
    {
        proof {
            law_normalizing_gives_valid_settings(*self);
        }
        self.index = if self.index < 0 {
            0
        } else if self.index > 63 {
            63
        } else {
            self.index
        };
        self.opacity_pct = if self.opacity_pct < 20 {
            20
        } else if self.opacity_pct > 100 {
            100
        } else {
            self.opacity_pct
        };
        self.hide_ms = if self.hide_ms < 200 {
            200
        } else if self.hide_ms > 10_000 {
            10_000
        } else {
            self.hide_ms
        };
        if !self.step_db.is_finite_value() {
            self.step_db = Single::from_bits(ONE);
        }
        self.step_db = self.step_db.clamp_between(
            Single::from_bits(SMALLEST_STEP_DB),
            Single::from_bits(FADER_MAX_DB),
        );
        let (lo, hi) = normalize_range(self.min_db, self.max_db);
        self.min_db = lo;
        self.max_db = hi;
    }

    /// The accent that is drawn with.
    pub open spec fn accent_used(self, system: Option<(u8, u8, u8)>) -> (u8, u8, u8) {
        match system {
            Some(accent) if self.accent_follow_system => accent,
            _ => self.accent,
        }
    }

    /// Accent actually used for drawing, honouring the follow-system option.
    /// `system` is the system's own accent, where it is known.
    pub fn effective_accent(&self, system: Option<(u8, u8, u8)>) -> (r: (u8, u8, u8))
        ensures
            r == self.accent_used(system),
    {
        if self.accent_follow_system {
            match system {
                Some(accent) => accent,
                None => self.accent,
            }
        } else {
            self.accent
        }
    }
}

impl Default for Settings {
    fn default() -> (r: Settings)
        ensures
            r == Settings::defaults(),
            r.is_normal(),
    {
        Settings {
            kind: ChannelKind::Bus,
            index: 0,
            orientation: Orientation::Vertical,
            position: Position::AboveTray,
            accent: (70, 160, 255),
            accent_follow_system: false,
            opacity_pct: 92,
            hide_ms: 1500,
            min_db: Single::from_bits(FADER_MIN_DB),
            max_db: Single::from_bits(FADER_MAX_DB),
            hide_in_fullscreen: true,
            debug_log: false,
            watch_all: false,
            hotkeys_enabled: false,
            hotkey_up: Hotkey { mods: MOD_CONTROL + MOD_ALT, vk: 0x26 },
            hotkey_down: Hotkey { mods: MOD_CONTROL + MOD_ALT, vk: 0x28 },
            hotkey_mute: Hotkey { mods: MOD_CONTROL + MOD_ALT, vk: 0x4D },
            step_db: Single::from_bits(ONE),
            tray_scroll: true,
            custom_x: 0,
            custom_y: 0,
        }
    }
}

/// The system accent as red, green and blue, from the colour word that the
/// compositor reports: 0xAARRGGBB.
pub fn system_accent(color: Option<u32>) -> (r: Option<(u8, u8, u8)>)
    ensures
        match r {
            Some(rgb) => color is Some && rgb.0 == color->0 / 0x1_0000 % 256 && rgb.1 == color->0
                / 256 % 256 && rgb.2 == color->0 % 256,
            None => color is None,
        },
{
    match color {
        Some(c) => Some(((c / 0x1_0000 % 256) as u8, (c / 256 % 256) as u8, (c % 256) as u8)),
        None => None,
    }
}

/// The system's accent counts exactly where the settings follow it and it is
/// known, and the settings' own does otherwise.
pub proof fn law_the_accent_follows_the_system_on_request(s: Settings, system: (u8, u8, u8))
    ensures
        s.accent_follow_system ==> s.accent_used(Some(system)) == system,
        !s.accent_follow_system ==> s.accent_used(Some(system)) == s.accent,
        s.accent_used(None) == s.accent,
{
}

/// Normalizing always gives valid settings.
pub proof fn law_normalizing_gives_valid_settings(s: Settings)
    ensures
        s.normalized().is_normal(),
{
    lemma_normal_range(s.min_db, s.max_db);
}

/// Valid settings are left as they are, so normalizing twice is normalizing
/// once.
pub proof fn law_normalizing_keeps_valid_settings(s: Settings)
    ensures
        s.is_normal() ==> s.normalized() == s,
        s.normalized().normalized() == s.normalized(),
{
    reveal(normal_range);
    law_normalizing_gives_valid_settings(s);
}

/// Normalizing moves a number that is out of its range to the nearer end of
/// it, and replaces one that is no number by the usual one. It touches nothing
/// but the numbers.
pub proof fn law_normalizing_moves_to_the_nearest_limit(s: Settings)
    ensures
        ({
            let t = s.normalized();
            &&& s.index < 0 ==> t.index == 0
            &&& s.index > 63 ==> t.index == 63
            &&& 0 <= s.index <= 63 ==> t.index == s.index
            &&& s.opacity_pct < 20 ==> t.opacity_pct == 20
            &&& s.opacity_pct > 100 ==> t.opacity_pct == 100
            &&& 20 <= s.opacity_pct <= 100 ==> t.opacity_pct == s.opacity_pct
            &&& s.hide_ms < 200 ==> t.hide_ms == 200
            &&& s.hide_ms > 10_000 ==> t.hide_ms == 10_000
            &&& 200 <= s.hide_ms <= 10_000 ==> t.hide_ms == s.hide_ms
            &&& !s.step_db.is_finite() ==> t.step_db == of_bits(ONE)
            &&& s.step_db.is_finite() && s.step_db.rank() < of_bits(SMALLEST_STEP_DB).rank()
                ==> t.step_db == of_bits(SMALLEST_STEP_DB)
            &&& s.step_db.is_finite() && s.step_db.rank() > of_bits(FADER_MAX_DB).rank()
                ==> t.step_db == of_bits(FADER_MAX_DB)
            &&& s.step_db.is_finite() && of_bits(SMALLEST_STEP_DB).rank() <= s.step_db.rank()
                <= of_bits(FADER_MAX_DB).rank() ==> t.step_db == s.step_db
            &&& t == (Settings {
                index: t.index,
                opacity_pct: t.opacity_pct,
                hide_ms: t.hide_ms,
                step_db: t.step_db,
                min_db: t.min_db,
                max_db: t.max_db,
                ..s
            })
        }),
{
}

/// The ends of the display range move to the nearest limit of the fader, and
/// an end that is no number to the fader's own. Only where that leaves the
/// range empty or upside down is its upper end moved, to a decibel above the
/// lower one.
pub proof fn law_normalizing_keeps_the_range_where_it_can(s: Settings)
    ensures
        ({
            let t = s.normalized();
            let (lo, hi) = (of_bits(FADER_MIN_DB), of_bits(FADER_MAX_DB));
            let (top, bottom) = (of_bits(HIGHEST_MIN_DB), of_bits(LOWEST_MAX_DB));
            let low = if !s.min_db.is_finite() || s.min_db.rank() < lo.rank() {
                lo
            } else if s.min_db.rank() > top.rank() {
                top
            } else {
                s.min_db
            };
            let high = if !s.max_db.is_finite() || s.max_db.rank() > hi.rank() {
                hi
            } else if s.max_db.rank() < bottom.rank() {
                bottom
            } else {
                s.max_db
            };
            &&& low.rank() < high.rank() ==> t.min_db == low && t.max_db == high
            &&& low.rank() >= high.rank() ==> t.max_db == low.plus_spec(of_bits(ONE))
                && t.max_db.rank() > low.rank() && t.min_db.rank() <= low.rank()
        }),
{
    reveal(normal_range);
    reveal(Single::minus_spec);
    let one = of_bits(ONE);
    let low = finite_or(s.min_db, FADER_MIN_DB).clamped(
        of_bits(FADER_MIN_DB),
        of_bits(HIGHEST_MIN_DB),
    );
    lemma_limits_exact();
    lemma_plus_keeps_order(of_bits(FADER_MIN_DB), low, one);
    lemma_plus_keeps_order(low, of_bits(HIGHEST_MIN_DB), one);
    lemma_plus_one_is_above(low);
}

// ---------------------------------------------------------------------------
// Channels
// ---------------------------------------------------------------------------

/// Edition layout: 1 = Voicemeeter, 2 = Banana, 3 = Potato.
pub open spec fn physical_strips_spec(edition: int) -> int {
    if edition == 3 {
        5
    } else if edition == 2 {
        3
    } else {
        2
    }
}

pub open spec fn physical_buses_spec(edition: int) -> int {
    if edition == 3 {
        5
    } else if edition == 2 {
        3
    } else {
        1
    }
}

pub open spec fn strip_count_spec(edition: int) -> int {
    if edition == 3 {
        8
    } else if edition == 2 {
        5
    } else {
        3
    }
}

pub open spec fn bus_count_spec(edition: int) -> int {
    if edition == 3 {
        8
    } else if edition == 2 {
        5
    } else {
        2
    }
}

pub fn physical_strips(edition: i32) -> (r: i32)
    ensures
        r == physical_strips_spec(edition as int),
{
    match edition {
        3 => 5,
        2 => 3,
        _ => 2,
    }
}

pub fn physical_buses(edition: i32) -> (r: i32)
    ensures
        r == physical_buses_spec(edition as int),
{
    match edition {
        3 => 5,
        2 => 3,
        _ => 1,
    }
}

pub fn strip_count(edition: i32) -> (r: i32)
    ensures
        r == strip_count_spec(edition as int),
{
    match edition {
        3 => 8,
        2 => 5,
        _ => 3,
    }
}

pub fn bus_count(edition: i32) -> (r: i32)
    ensures
        r == bus_count_spec(edition as int),
{
    match edition {
        3 => 8,
        2 => 5,
        _ => 2,
    }
}

/// The channels of an edition: its strips, then its buses.
pub open spec fn channels(edition: int) -> Seq<(ChannelKind, i32)> {
    Seq::new(
        (strip_count_spec(edition) + bus_count_spec(edition)) as nat,
        |i: int|
            if i < strip_count_spec(edition) {
                (ChannelKind::Strip, i as i32)
            } else {
                (ChannelKind::Bus, (i - strip_count_spec(edition)) as i32)
            },
    )
}

/// Whether the edition has the channel.
pub open spec fn has_channel(edition: int, kind: ChannelKind, index: int) -> bool {
    0 <= index < match kind {
        ChannelKind::Strip => strip_count_spec(edition),
        ChannelKind::Bus => bus_count_spec(edition),
    }
}

/// Every strip then every bus the edition exposes, in display order.
pub fn all_channels(edition: i32) -> (r: Vec<(ChannelKind, i32)>)
    ensures
        r@ == channels(edition as int),
{
    let strips: i32 = strip_count(edition);
    let buses: i32 = bus_count(edition);
    let mut out: Vec<(ChannelKind, i32)> = Vec::new();
    let mut i: i32 = 0;
    while i < strips
        invariant
            0 <= i <= strips,
            strips == strip_count_spec(edition as int),
            buses == bus_count_spec(edition as int),
            out@ == channels(edition as int).take(i as int),
        decreases strips - i,
    {
        out.push((ChannelKind::Strip, i));
        i += 1;
    }
    let mut j: i32 = 0;
    while j < buses
        invariant
            0 <= j <= buses,
            strips == strip_count_spec(edition as int),
            buses == bus_count_spec(edition as int),
            out@ == channels(edition as int).take(strips + j),
        decreases buses - j,
    {
        out.push((ChannelKind::Bus, j));
        j += 1;
    }
    out
}

/// The channel list holds each channel of the edition once, and no other.
pub proof fn law_channel_list_covers_the_edition(edition: int, kind: ChannelKind, index: i32)
    ensures
        channels(edition).contains((kind, index)) <==> has_channel(edition, kind, index as int),
        channels(edition).no_duplicates(),
{
    if has_channel(edition, kind, index as int) {
        let at = match kind {
            ChannelKind::Strip => index as int,
            ChannelKind::Bus => strip_count_spec(edition) + index,
        };
        assert(channels(edition)[at] == (kind, index));
    }
}

/// The name that the remote interface gives a kind of channel.
pub open spec fn prefix_spec(kind: ChannelKind) -> Seq<char> {
    match kind {
        ChannelKind::Strip => "Strip"@,
        ChannelKind::Bus => "Bus"@,
    }
}

/// The name of a parameter of a channel.
pub open spec fn param_spec(kind: ChannelKind, index: int, name: Seq<char>) -> Seq<char> {
    prefix_spec(kind) + "["@ + int_text(index) + "]."@ + name
}

/// The generic name of a channel: buses are A1..An then B1..Bn.
pub open spec fn name_spec(kind: ChannelKind, index: int, edition: int) -> Seq<char> {
    match kind {
        ChannelKind::Strip => "Strip "@ + int_text(index + 1),
        ChannelKind::Bus => if index < physical_buses_spec(edition) {
            "A"@ + int_text(index + 1)
        } else {
            "B"@ + int_text(index - physical_buses_spec(edition) + 1)
        },
    }
}

/// The stage and first channel of a channel's meter.
pub open spec fn level_slot_spec(kind: ChannelKind, index: int, edition: int) -> (int, int) {
    match kind {
        ChannelKind::Bus => (3, index * 8),
        ChannelKind::Strip => (
            1,
            if index < physical_strips_spec(edition) {
                index * 2
            } else {
                physical_strips_spec(edition) * 2 + (index - physical_strips_spec(edition)) * 8
            },
        ),
    }
}

/// Whether the number in a channel's generic name fits in 32 bits: strips are
/// counted from one.
pub open spec fn has_name(kind: ChannelKind, index: int) -> bool {
    kind == ChannelKind::Strip ==> index < i32::MAX
}

/// How many level channels a channel takes up.
pub open spec fn level_width(kind: ChannelKind, index: int, edition: int) -> int {
    if kind == ChannelKind::Strip && index < physical_strips_spec(edition) {
        2
    } else {
        8
    }
}

impl Settings {
    pub fn prefix_of(kind: ChannelKind) -> (r: &'static str)
        ensures
            r@ == prefix_spec(kind),
    {
        match kind {
            ChannelKind::Strip => "Strip",
            ChannelKind::Bus => "Bus",
        }
    }

    fn param(kind: ChannelKind, index: i32, name: &str) -> (r: String)
        ensures
            r@ == param_spec(kind, index as int, name@),
    {
        let mut out: String = String::from_str(Settings::prefix_of(kind));
        out.append("[");
        out.append(signed_text(index as i64).as_str());
        out.append("].");
        out.append(name);
        out
    }

    pub fn gain_param(kind: ChannelKind, index: i32) -> (r: String)
        ensures
            r@ == param_spec(kind, index as int, "Gain"@),
    {
        Settings::param(kind, index, "Gain")
    }

    pub fn mute_param(kind: ChannelKind, index: i32) -> (r: String)
        ensures
            r@ == param_spec(kind, index as int, "Mute"@),
    {
        Settings::param(kind, index, "Mute")
    }

    pub fn label_param(kind: ChannelKind, index: i32) -> (r: String)
        ensures
            r@ == param_spec(kind, index as int, "Label"@),
    {
        Settings::param(kind, index, "Label")
    }

    /// Which level slot to meter: `(kind, first channel)` for the remote
    /// interface. Buses always occupy 8 channels each; input channels are
    /// packed, with physical strips taking 2 and virtual strips 8.
    pub fn level_slot(kind: ChannelKind, index: i32, edition: i32) -> (r: (i32, i32))
        requires
            i32::MIN <= level_slot_spec(kind, index as int, edition as int).1 <= i32::MAX,
        ensures
            r.0 == level_slot_spec(kind, index as int, edition as int).0,
            r.1 == level_slot_spec(kind, index as int, edition as int).1,
    {
        match kind {
            ChannelKind::Bus => (3, index * 8),
            ChannelKind::Strip => {
                let physical: i32 = physical_strips(edition);
                let base: i32 = if index < physical {
                    index * 2
                } else {
                    let virtual_base: i64 = (index as i64 - physical as i64) * 8;
                    (physical as i64 * 2 + virtual_base) as i32
                };
                (1, base)
            },
        }
    }

    /// Voicemeeter's own naming: buses are A1..An then B1..Bn, where the
    /// count of physical buses depends on the edition.
    pub fn channel_name(kind: ChannelKind, index: i32, edition: i32) -> (r: String)
        requires
            has_name(kind, index as int),
        ensures
            r@ == name_spec(kind, index as int, edition as int),
    {
        match kind {
            ChannelKind::Strip => {
                let mut out: String = String::from_str("Strip ");
                out.append(signed_text(index as i64 + 1).as_str());
                out
            },
            ChannelKind::Bus => {
                let physical: i32 = physical_buses(edition);
                if index < physical {
                    let mut out: String = String::from_str("A");
                    out.append(signed_text(index as i64 + 1).as_str());
                    out
                } else {
                    let mut out: String = String::from_str("B");
                    out.append(signed_text(index as i64 - physical as i64 + 1).as_str());
                    out
                }
            },
        }
    }
}

/// The level channels of two different strips, or of two different buses,
/// never overlap.
pub proof fn law_level_slots_do_not_overlap(kind: ChannelKind, a: int, b: int, edition: int)
    requires
        0 <= a < b,
    ensures
        level_slot_spec(kind, a, edition).0 == level_slot_spec(kind, b, edition).0,
        level_slot_spec(kind, a, edition).1 + level_width(kind, a, edition) <= level_slot_spec(
            kind,
            b,
            edition,
        ).1,
{
}

/// The level channels follow one another without a gap: those of the first
/// strip and of the first bus start at 0, and each one's start where those
/// before it end. Physical strips have 2 of them, all others 8.
pub proof fn law_level_slots_are_packed(kind: ChannelKind, index: int, edition: int)
    requires
        0 <= index,
    ensures
        level_slot_spec(kind, 0, edition).1 == 0,
        level_slot_spec(kind, index + 1, edition).1 == level_slot_spec(kind, index, edition).1 + if
            kind == ChannelKind::Strip && index < physical_strips_spec(edition) {
            2int
        } else {
            8
        },
        level_slot_spec(ChannelKind::Strip, index, edition).0 != level_slot_spec(
            ChannelKind::Bus,
            index,
            edition,
        ).0,
{
}

/// Different channels have different parameters, and so have the gain and the
/// mute of one.
pub proof fn law_parameters_name_their_channel(
    k1: ChannelKind,
    i1: int,
    k2: ChannelKind,
    i2: int,
)
    requires
        0 <= i1,
        0 <= i2,
    ensures
        param_spec(k1, i1, "Gain"@) == param_spec(k2, i2, "Gain"@) ==> k1 == k2 && i1 == i2,
        param_spec(k1, i1, "Mute"@) == param_spec(k2, i2, "Mute"@) ==> k1 == k2 && i1 == i2,
        param_spec(k1, i1, "Gain"@) != param_spec(k1, i1, "Mute"@),
        param_spec(k1, i1, "Label"@) != param_spec(k1, i1, "Gain"@),
        param_spec(k1, i1, "Label"@) != param_spec(k1, i1, "Mute"@),
{
    reveal_strlit("Gain");
    reveal_strlit("Mute");
    reveal_strlit("Label");
    lemma_param(k1, i1, k2, i2, "Gain"@);
    lemma_param(k1, i1, k2, i2, "Mute"@);
    let (g, m, l) = (
        param_spec(k1, i1, "Gain"@),
        param_spec(k1, i1, "Mute"@),
        param_spec(k1, i1, "Label"@),
    );
    assert(g.last() == 'n' && m.last() == 'e' && l.last() == 'l');
}

proof fn lemma_param(k1: ChannelKind, i1: int, k2: ChannelKind, i2: int, name: Seq<char>)
    requires
        0 <= i1,
        0 <= i2,
    ensures
        param_spec(k1, i1, name) == param_spec(k2, i2, name) ==> k1 == k2 && i1 == i2,
{
    if param_spec(k1, i1, name) == param_spec(k2, i2, name) {
        reveal_strlit("Strip");
        reveal_strlit("Bus");
        reveal_strlit("[");
        reveal_strlit("].");
        let (a, b) = (param_spec(k1, i1, name), param_spec(k2, i2, name));
        assert(a[0] == b[0]);
        assert(k1 == k2);
        let head = prefix_spec(k1).len() + 1;
        let (m, n) = (nat_text(i1 as nat), nat_text(i2 as nat));
        assert(a.subrange(head as int, a.len() - 2 - name.len()) == m);
        assert(b.subrange(head as int, b.len() - 2 - name.len()) == n);
        lemma_nat_text(i1 as nat);
        lemma_nat_text(i2 as nat);
    }
}

/// Different channels of an edition have different generic names.
pub proof fn law_channel_names_differ(
    k1: ChannelKind,
    i1: int,
    k2: ChannelKind,
    i2: int,
    edition: int,
)
    requires
        has_channel(edition, k1, i1),
        has_channel(edition, k2, i2),
        name_spec(k1, i1, edition) == name_spec(k2, i2, edition),
    ensures
        k1 == k2,
        i1 == i2,
{
    reveal_strlit("Strip ");
    reveal_strlit("A");
    reveal_strlit("B");
    let (n1, n2) = (name_spec(k1, i1, edition), name_spec(k2, i2, edition));
    assert(n1[0] == n2[0]);
    assert(k1 == k2);
    let head: int = if k1 == ChannelKind::Strip {
        6
    } else {
        1
    };
    let physical = physical_buses_spec(edition);
    let m1 = if k1 == ChannelKind::Bus && i1 >= physical {
        i1 - physical + 1
    } else {
        i1 + 1
    };
    let m2 = if k2 == ChannelKind::Bus && i2 >= physical {
        i2 - physical + 1
    } else {
        i2 + 1
    };
    assert(n1.skip(head) == int_text(m1));
    assert(n2.skip(head) == int_text(m2));
    lemma_nat_text(m1 as nat);
    lemma_nat_text(m2 as nat);
}

} // verus!
