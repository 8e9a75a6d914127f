//! What the settings file promises: settings survive being written and read
//! back, and what is not understood is ignored.

use crate::config::{
    law_normalizing_gives_valid_settings, law_normalizing_keeps_valid_settings, ChannelKind, Hotkey,
    Orientation, Position, Settings,
};
use crate::decimal::read_single;
use crate::settings_file::{
    accent_of, accent_text, bytes_of, entries, fields, file_text, flag_of, hotkey_of, hotkey_text,
    key_of, kind_text, line_entry, orientation_text, parsed, position_of, position_text, serialized,
    with_entries, with_entry, with_value, Key,
};
use crate::shortest::{law_numbers_read_back, lemma_single_text};
use crate::text::{
    bool_text, int_text, is_space, is_trimmed, law_signed_round_trip, law_unsigned_round_trip,
    lemma_digits_are_plain, lemma_nat_text, lemma_split_first, lemma_split_last, lemma_split_once,
    lemma_trim_trimmed, nat_text, same_ignoring_case, signed_of, split, trim, trim_end, trim_start,
    unsigned_of,
};
use vstd::prelude::*;

verus! {

/// A key or value that a line of the file can hold: no white space around it
/// and no line break in it.
pub open spec fn fits_line(v: Seq<char>) -> bool {
    is_trimmed(v) && !v.contains('\n')
}

/// The keys are distinct words.
proof fn lemma_key(k: Key)
    ensures
        key_of(k.text()) == Some(k),
        k.text().len() > 0,
        fits_line(k.text()),
        !k.text().contains('='),
        k.text()[0] != '#',
{
    reveal_strlit("type");
    reveal_strlit("index");
    reveal_strlit("orientation");
    reveal_strlit("position");
    reveal_strlit("accent");
    reveal_strlit("accent_follow_system");
    reveal_strlit("opacity");
    reveal_strlit("hide_ms");
    reveal_strlit("min_db");
    reveal_strlit("max_db");
    reveal_strlit("hide_in_fullscreen");
    reveal_strlit("debug_log");
    reveal_strlit("watch_all");
    reveal_strlit("hotkeys_enabled");
    reveal_strlit("hotkey_up");
    reveal_strlit("hotkey_down");
    reveal_strlit("hotkey_mute");
    reveal_strlit("step_db");
    reveal_strlit("tray_scroll");
    reveal_strlit("custom_x");
    reveal_strlit("custom_y");
    assert("orientation"@[0] != "hotkey_down"@[0]);
    assert("orientation"@[0] != "hotkey_mute"@[0]);
    assert("orientation"@[0] != "tray_scroll"@[0]);
    assert("position"@[0] != "custom_x"@[0]);
    assert("position"@[0] != "custom_y"@[0]);
    assert("accent"@[0] != "min_db"@[0]);
    assert("accent"@[0] != "max_db"@[0]);
    assert("opacity"@[0] != "hide_ms"@[0]);
    assert("opacity"@[0] != "step_db"@[0]);
    assert("hide_ms"@[0] != "step_db"@[0]);
    assert("min_db"@[1] != "max_db"@[1]);
    assert("debug_log"@[0] != "watch_all"@[0]);
    assert("debug_log"@[0] != "hotkey_up"@[0]);
    assert("watch_all"@[0] != "hotkey_up"@[0]);
    assert("hotkey_down"@[7] != "hotkey_mute"@[7]);
    assert("hotkey_down"@[0] != "tray_scroll"@[0]);
    assert("hotkey_mute"@[0] != "tray_scroll"@[0]);
    assert("custom_x"@[7] != "custom_y"@[7]);
    assert(forall|i: int|
        0 <= i < k.text().len() ==> (#[trigger] k.text()[i]) != '\n' && k.text()[i] != '=');
    assert(!is_space(k.text()[0]) && !is_space(k.text().last()));
}

proof fn lemma_line(k: Key, v: Seq<char>)
    requires
        fits_line(v),
    ensures
        line_entry(k.text() + seq!['='] + v) == Some((k.text(), v)),
        !(k.text() + seq!['='] + v).contains('\n'),
{
    lemma_key(k);
    let line = k.text() + seq!['='] + v;
    assert(!is_space('='));
    assert(line[0] == k.text()[0]);
    assert(line.last() == if v.len() > 0 {
        v.last()
    } else {
        '='
    });
    lemma_trim_trimmed(line);
    lemma_split_once(k.text(), v, '=');
    lemma_trim_trimmed(k.text());
    lemma_trim_trimmed(v);
    assert forall|i: int| 0 <= i < line.len() implies line[i] != '\n' by {
        if i < k.text().len() {
            assert(k.text().contains(k.text()[i]));
        } else if i > k.text().len() {
            assert(v.contains(v[i - k.text().len() - 1]));
        }
    }
}

/// The entries with their keys written out.
spec fn written(fs: Seq<(Key, Seq<char>)>) -> Seq<(Seq<char>, Seq<char>)> {
    Seq::new(fs.len(), |i: int| (fs[i].0.text(), fs[i].1))
}

/// Reading a file gives the entries that were written.
proof fn lemma_file_entries(fs: Seq<(Key, Seq<char>)>)
    requires
        forall|i: int| 0 <= i < fs.len() ==> fits_line((#[trigger] fs[i]).1),
    ensures
        entries(split(file_text(fs), '\n')) == written(fs),
    decreases fs.len(),
{
    if fs.len() == 0 {
        let empty = Seq::<char>::empty();
        lemma_split_last(empty, '\n');
        lemma_trim_trimmed(empty);
        let lines = seq![empty];
        assert(line_entry(lines[0]) is None);
        assert(entries(lines.drop_first()) == Seq::<(Seq<char>, Seq<char>)>::empty());
        assert(entries(lines) == written(fs));
    } else {
        let (k, v) = fs[0];
        let rest = fs.drop_first();
        assert forall|i: int| 0 <= i < rest.len() implies fits_line((#[trigger] rest[i]).1) by {
            assert(rest[i] == fs[i + 1]);
        }
        lemma_file_entries(rest);
        let line = k.text() + seq!['='] + v;
        assert(fits_line(v));
        lemma_line(k, v);
        lemma_split_first(line, file_text(rest), '\n');
        assert(file_text(fs) == line + seq!['\n'] + file_text(rest));
        let lines = seq![line] + split(file_text(rest), '\n');
        assert(lines.drop_first() == split(file_text(rest), '\n'));
        assert(lines[0] == line);
        assert(entries(lines) == seq![(k.text(), v)] + written(rest));
        assert(written(fs) == seq![(k.text(), v)] + written(rest));
    }
}

/// The settings after entries with known keys.
spec fn with_fields(s: Settings, fs: Seq<(Key, Seq<char>)>) -> Settings
    decreases fs.len(),
{
    if fs.len() == 0 {
        s
    } else {
        with_fields(with_value(s, fs[0].0, fs[0].1), fs.drop_first())
    }
}

proof fn lemma_with_fields(s: Settings, fs: Seq<(Key, Seq<char>)>)
    ensures
        with_entries(s, written(fs)) == with_fields(s, fs),
    decreases fs.len(),
{
    if fs.len() > 0 {
        lemma_key(fs[0].0);
        assert(written(fs).drop_first() == written(fs.drop_first()));
        lemma_with_fields(with_value(s, fs[0].0, fs[0].1), fs.drop_first());
    }
}

// ---------------------------------------------------------------------------
// Each value reads back
// ---------------------------------------------------------------------------

proof fn lemma_nat_fits(n: nat)
    ensures
        fits_line(nat_text(n)),
{
    lemma_nat_text(n);
    lemma_digits_are_plain(nat_text(n), '\n');
}

proof fn lemma_int_fits(n: int)
    ensures
        fits_line(int_text(n)),
{
    if n < 0 {
        let digits = nat_text((-n) as nat);
        lemma_nat_text((-n) as nat);
        lemma_digits_are_plain(digits, '\n');
        let s = int_text(n);
        assert(s.last() == digits.last());
        assert forall|i: int| 0 <= i < s.len() implies s[i] != '\n' by {
            if i > 0 {
                assert(digits.contains(digits[i - 1]));
            }
        }
    } else {
        lemma_nat_fits(n as nat);
    }
}

proof fn lemma_bool(b: bool)
    ensures
        flag_of(bool_text(b)) == b,
        fits_line(bool_text(b)),
{
    reveal_strlit("true");
    reveal_strlit("false");
    assert("true"@.len() != "false"@.len());
    assert(!"true"@.contains('\n'));
    assert(!"false"@.contains('\n'));
}

proof fn lemma_kind(kind: ChannelKind)
    ensures
        same_ignoring_case(kind_text(kind), "bus"@) == (kind == ChannelKind::Bus),
        fits_line(kind_text(kind)),
{
    reveal_strlit("strip");
    reveal_strlit("bus");
    assert(!"strip"@.contains('\n'));
    assert(!"bus"@.contains('\n'));
}

proof fn lemma_orientation(o: Orientation)
    ensures
        same_ignoring_case(orientation_text(o), "horizontal"@) == (o == Orientation::Horizontal),
        fits_line(orientation_text(o)),
{
    reveal_strlit("vertical");
    reveal_strlit("horizontal");
    assert(!"vertical"@.contains('\n'));
    assert(!"horizontal"@.contains('\n'));
}

proof fn lemma_position(p: Position)
    ensures
        position_of(position_text(p)) == p,
        fits_line(position_text(p)),
{
    reveal_strlit("above_tray");
    reveal_strlit("centre");
    reveal_strlit("center");
    reveal_strlit("bottom_center");
    reveal_strlit("top_center");
    reveal_strlit("custom");
    assert("custom"@[1] != "centre"@[1]);
    assert("custom"@[1] != "center"@[1]);
    assert("above_tray"@[0] != "top_center"@[0]);
    assert(!"above_tray"@.contains('\n'));
    assert(!"centre"@.contains('\n'));
    assert(!"custom"@.contains('\n'));
}

proof fn lemma_hotkey(key: Hotkey)
    requires
        key.is_valid(),
    ensures
        hotkey_of(hotkey_text(key)) == Some(key),
        fits_line(hotkey_text(key)),
{
    let (mods, vk) = (nat_text(key.mods as nat), nat_text(key.vk as nat));
    lemma_nat_text(key.mods as nat);
    lemma_nat_text(key.vk as nat);
    lemma_digits_are_plain(mods, ':');
    lemma_digits_are_plain(mods, '\n');
    lemma_digits_are_plain(vk, '\n');
    lemma_split_once(mods, vk, ':');
    law_unsigned_round_trip(key.mods as nat, 0xFFFF_FFFF);
    law_unsigned_round_trip(key.vk as nat, 0xFFFF_FFFF);
    let m = key.mods;
    assert(m & 15 == m) by (bit_vector)
        requires
            m <= 15,
    ;
    let s = hotkey_text(key);
    assert(s[0] == mods[0] && s.last() == vk.last());
    assert forall|i: int| 0 <= i < s.len() implies s[i] != '\n' by {
        if i < mods.len() {
            assert(mods.contains(mods[i]));
        } else if i > mods.len() {
            assert(vk.contains(vk[i - mods.len() - 1]));
        }
    }
}

proof fn lemma_accent(accent: (u8, u8, u8))
    ensures
        accent_of(accent_text(accent)) == Some(accent),
        fits_line(accent_text(accent)),
{
    let (r, g, b) = (
        nat_text(accent.0 as nat),
        nat_text(accent.1 as nat),
        nat_text(accent.2 as nat),
    );
    lemma_nat_text(accent.0 as nat);
    lemma_nat_text(accent.1 as nat);
    lemma_nat_text(accent.2 as nat);
    lemma_digits_are_plain(r, ',');
    lemma_digits_are_plain(g, ',');
    lemma_digits_are_plain(b, ',');
    lemma_digits_are_plain(r, '\n');
    lemma_digits_are_plain(g, '\n');
    lemma_digits_are_plain(b, '\n');
    let s = accent_text(accent);
    lemma_split_first(r, g + seq![','] + b, ',');
    lemma_split_first(g, b, ',');
    lemma_split_last(b, ',');
    law_unsigned_round_trip(accent.0 as nat, 255);
    law_unsigned_round_trip(accent.1 as nat, 255);
    law_unsigned_round_trip(accent.2 as nat, 255);
    let pieces = seq![r, g, b];
    assert(split(s, ',') == pieces);
    let p1 = pieces.drop_first();
    let p2 = p1.drop_first();
    let p3 = p2.drop_first();
    assert(p1[0] == g && p2[0] == b);
    assert(bytes_of(p3) == Seq::<u8>::empty());
    assert(bytes_of(p2) == seq![accent.2]);
    assert(bytes_of(p1) == seq![accent.1, accent.2]);
    assert(bytes_of(pieces) == seq![accent.0, accent.1, accent.2]);
    assert(s[0] == r[0] && s.last() == b.last());
    assert forall|i: int| 0 <= i < s.len() implies s[i] != '\n' by {
        if i < r.len() {
            assert(r.contains(r[i]));
        } else if r.len() < i < r.len() + 1 + g.len() {
            assert(g.contains(g[i - r.len() - 1]));
        } else if i > r.len() + 1 + g.len() {
            assert(b.contains(b[i - r.len() - g.len() - 2]));
        }
    }
}

/// The values of a file all fit their lines.
proof fn lemma_fields_fit(s: Settings)
    requires
        s.is_normal(),
        s.hotkey_up.is_valid(),
        s.hotkey_down.is_valid(),
        s.hotkey_mute.is_valid(),
    ensures
        forall|i: int| 0 <= i < fields(s).len() ==> fits_line((#[trigger] fields(s)[i]).1),
{
    lemma_kind(s.kind);
    lemma_orientation(s.orientation);
    lemma_position(s.position);
    lemma_accent(s.accent);
    lemma_int_fits(s.index as int);
    lemma_int_fits(s.custom_x as int);
    lemma_int_fits(s.custom_y as int);
    lemma_nat_fits(s.opacity_pct as nat);
    lemma_nat_fits(s.hide_ms as nat);
    lemma_hotkey(s.hotkey_up);
    lemma_hotkey(s.hotkey_down);
    lemma_hotkey(s.hotkey_mute);
    lemma_bool(s.accent_follow_system);
    lemma_bool(s.hide_in_fullscreen);
    lemma_bool(s.debug_log);
    lemma_bool(s.watch_all);
    lemma_bool(s.hotkeys_enabled);
    lemma_bool(s.tray_scroll);
    lemma_single_text(s.min_db);
    lemma_single_text(s.max_db);
    lemma_single_text(s.step_db);
}

/// Taking over one written value sets one field.
proof fn lemma_value(t: Settings, s: Settings, i: int)
    requires
        0 <= i < 21,
        s.is_normal(),
        s.hotkey_up.is_valid(),
        s.hotkey_down.is_valid(),
        s.hotkey_mute.is_valid(),
    ensures
        with_value(t, fields(s)[i].0, fields(s)[i].1) == taken(t, s, i),
{
    if i == 0 {
        lemma_kind(s.kind);
    } else if i == 1 {
        law_signed_round_trip(s.index as int);
    } else if i == 2 {
        lemma_orientation(s.orientation);
    } else if i == 3 {
        lemma_position(s.position);
    } else if i == 4 {
        lemma_accent(s.accent);
    } else if i == 5 {
        lemma_bool(s.accent_follow_system);
    } else if i == 6 {
        law_unsigned_round_trip(s.opacity_pct as nat, 0xFFFF_FFFF);
    } else if i == 7 {
        law_unsigned_round_trip(s.hide_ms as nat, 0xFFFF_FFFF_FFFF_FFFF);
    } else if i == 8 {
        law_numbers_read_back(s.min_db);
    } else if i == 9 {
        law_numbers_read_back(s.max_db);
    } else if i == 10 {
        lemma_bool(s.hide_in_fullscreen);
    } else if i == 11 {
        lemma_bool(s.debug_log);
    } else if i == 12 {
        lemma_bool(s.watch_all);
    } else if i == 13 {
        lemma_bool(s.hotkeys_enabled);
    } else if i == 14 {
        lemma_hotkey(s.hotkey_up);
    } else if i == 15 {
        lemma_hotkey(s.hotkey_down);
    } else if i == 16 {
        lemma_hotkey(s.hotkey_mute);
    } else if i == 17 {
        law_numbers_read_back(s.step_db);
    } else if i == 18 {
        lemma_bool(s.tray_scroll);
    } else if i == 19 {
        law_signed_round_trip(s.custom_x as int);
    } else {
        law_signed_round_trip(s.custom_y as int);
    }
}

/// `t` with the field of the entry at `i` taken from `s`.
spec fn taken(t: Settings, s: Settings, i: int) -> Settings {
    if i == 0 {
        Settings { kind: s.kind, ..t }
    } else if i == 1 {
        Settings { index: s.index, ..t }
    } else if i == 2 {
        Settings { orientation: s.orientation, ..t }
    } else if i == 3 {
        Settings { position: s.position, ..t }
    } else if i == 4 {
        Settings { accent: s.accent, ..t }
    } else if i == 5 {
        Settings { accent_follow_system: s.accent_follow_system, ..t }
    } else if i == 6 {
        Settings { opacity_pct: s.opacity_pct, ..t }
    } else if i == 7 {
        Settings { hide_ms: s.hide_ms, ..t }
    } else if i == 8 {
        Settings { min_db: s.min_db, ..t }
    } else if i == 9 {
        Settings { max_db: s.max_db, ..t }
    } else if i == 10 {
        Settings { hide_in_fullscreen: s.hide_in_fullscreen, ..t }
    } else if i == 11 {
        Settings { debug_log: s.debug_log, ..t }
    } else if i == 12 {
        Settings { watch_all: s.watch_all, ..t }
    } else if i == 13 {
        Settings { hotkeys_enabled: s.hotkeys_enabled, ..t }
    } else if i == 14 {
        Settings { hotkey_up: s.hotkey_up, ..t }
    } else if i == 15 {
        Settings { hotkey_down: s.hotkey_down, ..t }
    } else if i == 16 {
        Settings { hotkey_mute: s.hotkey_mute, ..t }
    } else if i == 17 {
        Settings { step_db: s.step_db, ..t }
    } else if i == 18 {
        Settings { tray_scroll: s.tray_scroll, ..t }
    } else if i == 19 {
        Settings { custom_x: s.custom_x, ..t }
    } else {
        Settings { custom_y: s.custom_y, ..t }
    }
}

/// `t` with the fields of all entries from `i` on taken from `s`.
spec fn all_taken(t: Settings, s: Settings, i: int) -> Settings
    decreases 21 - i,
{
    if i >= 21 {
        t
    } else {
        all_taken(taken(t, s, i), s, i + 1)
    }
}

proof fn lemma_all_taken(t: Settings, s: Settings, i: int)
    requires
        0 <= i <= 21,
        s.is_normal(),
        s.hotkey_up.is_valid(),
        s.hotkey_down.is_valid(),
        s.hotkey_mute.is_valid(),
    ensures
        with_fields(t, fields(s).skip(i)) == all_taken(t, s, i),
    decreases 21 - i,
{
    if i < 21 {
        lemma_value(t, s, i);
        assert(fields(s).skip(i)[0] == fields(s)[i]);
        assert(fields(s).skip(i).drop_first() == fields(s).skip(i + 1));
        lemma_all_taken(taken(t, s, i), s, i + 1);
    }
}

proof fn lemma_everything_taken(t: Settings, s: Settings)
    ensures
        all_taken(t, s, 0) == s,
{
    reveal_with_fuel(all_taken, 22);
}

/// Settings survive being written to a file and read back.
pub proof fn law_settings_survive_a_round_trip(s: Settings)
    requires
        s.is_normal(),
        s.hotkey_up.is_valid(),
        s.hotkey_down.is_valid(),
        s.hotkey_mute.is_valid(),
    ensures
        parsed(serialized(s)) == s,
{
    lemma_fields_fit(s);
    lemma_file_entries(fields(s));
    lemma_with_fields(Settings::defaults(), fields(s));
    assert(fields(s).skip(0) == fields(s));
    lemma_all_taken(Settings::defaults(), s, 0);
    lemma_everything_taken(Settings::defaults(), s);
    law_normalizing_keeps_valid_settings(s);
}

/// The shortcuts are ones that the settings can hold.
pub open spec fn has_valid_hotkeys(s: Settings) -> bool {
    s.hotkey_up.is_valid() && s.hotkey_down.is_valid() && s.hotkey_mute.is_valid()
}

proof fn lemma_read_hotkeys_are_valid(v: Seq<char>)
    ensures
        hotkey_of(v) is Some ==> hotkey_of(v)->0.is_valid(),
{
    assert(forall|m: u32| #[trigger] (m & 15) <= 15) by (bit_vector);
}

proof fn lemma_entries_keep_hotkeys_valid(s: Settings, es: Seq<(Seq<char>, Seq<char>)>)
    requires
        has_valid_hotkeys(s),
    ensures
        has_valid_hotkeys(with_entries(s, es)),
    decreases es.len(),
{
    if es.len() > 0 {
        lemma_read_hotkeys_are_valid(es[0].1);
        lemma_entries_keep_hotkeys_valid(with_entry(s, es[0]), es.drop_first());
    }
}

/// Whatever a file holds, what was read from it can be written and read back
/// unchanged.
pub proof fn law_what_was_read_survives_a_round_trip(text: Seq<char>)
    ensures
        parsed(serialized(parsed(text))) == parsed(text),
{
    let es = entries(split(text, '\n'));
    lemma_entries_keep_hotkeys_valid(Settings::defaults(), es);
    law_normalizing_gives_valid_settings(with_entries(Settings::defaults(), es));
    law_settings_survive_a_round_trip(parsed(text));
}

/// A missing or empty file gives the defaults.
pub proof fn law_an_empty_file_gives_the_defaults()
    ensures
        parsed(Seq::<char>::empty()) == Settings::defaults(),
{
    let none = Seq::<(Key, Seq<char>)>::empty();
    lemma_file_entries(none);
    assert(written(none) == Seq::<(Seq<char>, Seq<char>)>::empty());
    law_normalizing_keeps_valid_settings(Settings::defaults());
}

proof fn lemma_entries_joined(a: Seq<Seq<char>>, b: Seq<Seq<char>>)
    ensures
        entries(a + b) == entries(a) + entries(b),
    decreases a.len(),
{
    if a.len() == 0 {
        assert(a + b == b);
        assert(entries(a) + entries(b) == entries(b));
    } else {
        assert((a + b).drop_first() == a.drop_first() + b);
        lemma_entries_joined(a.drop_first(), b);
        assert(entries(a + b) == entries(a) + entries(b));
    }
}

proof fn lemma_with_joined(
    s: Settings,
    a: Seq<(Seq<char>, Seq<char>)>,
    b: Seq<(Seq<char>, Seq<char>)>,
)
    ensures
        with_entries(s, a + b) == with_entries(with_entries(s, a), b),
    decreases a.len(),
{
    if a.len() == 0 {
        assert(a + b == b);
    } else {
        assert((a + b).drop_first() == a.drop_first() + b);
        lemma_with_joined(with_entry(s, a[0]), a.drop_first(), b);
    }
}

/// A comment, a blank line, a line without an equals sign, or one with an
/// unknown key changes nothing, wherever it stands.
pub proof fn law_unknown_lines_are_ignored(
    before: Seq<Seq<char>>,
    line: Seq<char>,
    after: Seq<Seq<char>>,
)
    requires
        match line_entry(line) {
            Some((k, v)) => key_of(k) is None,
            None => true,
        },
    ensures
        with_entries(Settings::defaults(), entries(before + seq![line] + after)) == with_entries(
            Settings::defaults(),
            entries(before + after),
        ),
{
    let s = Settings::defaults();
    let one = seq![line];
    lemma_entries_joined(before + one, after);
    lemma_entries_joined(before, one);
    lemma_entries_joined(before, after);
    lemma_with_joined(s, entries(before) + entries(one), entries(after));
    lemma_with_joined(s, entries(before), entries(one));
    lemma_with_joined(s, entries(before), entries(after));
    assert(one.drop_first() == Seq::<Seq<char>>::empty());
    assert(entries(one.drop_first()) == Seq::<(Seq<char>, Seq<char>)>::empty());
    let t = with_entries(s, entries(before));
    match line_entry(line) {
        Some(e) => {
            assert(entries(one) == seq![e]);
            assert(seq![e].drop_first() == Seq::<(Seq<char>, Seq<char>)>::empty());
            assert(with_entry(t, e) == t);
            assert(with_entries(t, seq![e].drop_first()) == t);
            assert(with_entries(t, seq![e]) == t);
        },
        None => {
            assert(entries(one) == Seq::<(Seq<char>, Seq<char>)>::empty());
        },
    }
}

/// An entry sets the setting that its key names, and no other: whatever the
/// value, all other settings stay.
pub proof fn law_an_entry_sets_its_own_setting(s: Settings, key: Key, v: Seq<char>)
    ensures
        ({
            let t = with_value(s, key, v);
            t == match key {
                Key::Type => Settings { kind: t.kind, ..s },
                Key::Index => Settings { index: t.index, ..s },
                Key::Orientation => Settings { orientation: t.orientation, ..s },
                Key::Position => Settings { position: t.position, ..s },
                Key::Accent => Settings { accent: t.accent, ..s },
                Key::AccentFollowSystem => Settings {
                    accent_follow_system: t.accent_follow_system,
                    ..s
                },
                Key::Opacity => Settings { opacity_pct: t.opacity_pct, ..s },
                Key::HideMs => Settings { hide_ms: t.hide_ms, ..s },
                Key::MinDb => Settings { min_db: t.min_db, ..s },
                Key::MaxDb => Settings { max_db: t.max_db, ..s },
                Key::HideInFullscreen => Settings {
                    hide_in_fullscreen: t.hide_in_fullscreen,
                    ..s
                },
                Key::DebugLog => Settings { debug_log: t.debug_log, ..s },
                Key::WatchAll => Settings { watch_all: t.watch_all, ..s },
                Key::HotkeysEnabled => Settings { hotkeys_enabled: t.hotkeys_enabled, ..s },
                Key::HotkeyUp => Settings { hotkey_up: t.hotkey_up, ..s },
                Key::HotkeyDown => Settings { hotkey_down: t.hotkey_down, ..s },
                Key::HotkeyMute => Settings { hotkey_mute: t.hotkey_mute, ..s },
                Key::StepDb => Settings { step_db: t.step_db, ..s },
                Key::TrayScroll => Settings { tray_scroll: t.tray_scroll, ..s },
                Key::CustomX => Settings { custom_x: t.custom_x, ..s },
                Key::CustomY => Settings { custom_y: t.custom_y, ..s },
            }
        }),
{
}

/// Entries count in the order of their lines: what the last line says is done
/// to what the lines before it made of the settings. So of two lines with one
/// key the later one has the last word.
pub proof fn law_later_lines_have_the_last_word(
    s: Settings,
    before: Seq<Seq<char>>,
    line: Seq<char>,
)
    ensures
        with_entries(s, entries(before.push(line))) == match line_entry(line) {
            Some(e) => with_entry(with_entries(s, entries(before)), e),
            None => with_entries(s, entries(before)),
        },
{
    let one = seq![line];
    assert(before.push(line) == before + one);
    lemma_entries_joined(before, one);
    lemma_with_joined(s, entries(before), entries(one));
    assert(one.drop_first() == Seq::<Seq<char>>::empty());
    assert(entries(one.drop_first()) == Seq::<(Seq<char>, Seq<char>)>::empty());
    match line_entry(line) {
        Some(e) => {
            assert(entries(one) =~= seq![e]);
            lemma_one_entry(with_entries(s, entries(before)), e);
        },
        None => {
            assert(entries(one) =~= Seq::<(Seq<char>, Seq<char>)>::empty());
        },
    }
}

proof fn lemma_one_entry(s: Settings, e: (Seq<char>, Seq<char>))
    ensures
        with_entries(s, seq![e]) == with_entry(s, e),
{
    assert(seq![e].drop_first() == Seq::<(Seq<char>, Seq<char>)>::empty());
    reveal_with_fuel(with_entries, 2);
}

/// Whether a value reads as what its key takes. Words are always taken: an
/// unknown one counts as the usual choice.
pub open spec fn is_readable(key: Key, v: Seq<char>) -> bool {
    match key {
        Key::Index | Key::CustomX | Key::CustomY => signed_of(v) is Some,
        Key::Accent => accent_of(v) is Some,
        Key::Opacity => unsigned_of(v, 0xFFFF_FFFF) is Some,
        Key::HideMs => unsigned_of(v, 0xFFFF_FFFF_FFFF_FFFF) is Some,
        Key::MinDb | Key::MaxDb | Key::StepDb => read_single(v) is Some,
        Key::HotkeyUp | Key::HotkeyDown | Key::HotkeyMute => hotkey_of(v) is Some,
        _ => true,
    }
}

/// A value that does not read as what its key takes changes nothing.
pub proof fn law_unreadable_values_change_nothing(s: Settings, key: Key, v: Seq<char>)
    requires
        !is_readable(key, v),
    ensures
        with_value(s, key, v) == s,
{
}

/// White space around a line, its key or its value does not matter, nor does a
/// carriage return at its end.
pub proof fn law_white_space_does_not_matter(
    a: Seq<char>,
    k: Seq<char>,
    b: Seq<char>,
    c: Seq<char>,
    v: Seq<char>,
    d: Seq<char>,
)
    requires
        all_space(a) && all_space(b) && all_space(c) && all_space(d),
        is_trimmed(k) && is_trimmed(v),
        k.len() > 0,
        k[0] != '#',
        !k.contains('='),
    ensures
        line_entry(a + k + b + seq!['='] + c + v + d) == Some((k, v)),
{
    let inner = k + b + seq!['='] + c + v;
    let line = a + k + b + seq!['='] + c + v + d;
    assert(line == a + (inner + d));
    lemma_lead(a, inner + d);
    assert((inner + d)[0] == k[0]);
    assert(trim_start(inner + d) == inner + d);
    let t = trim(line);
    if v.len() > 0 {
        lemma_trail(inner, d);
        assert(inner.last() == v.last());
        assert(trim_end(inner) == inner);
        assert(t == inner);
        assert(t == (k + b) + seq!['='] + (c + v));
        lemma_no_char(b, '=');
        assert(!(k + b).contains('=')) by {
            if (k + b).contains('=') {
                let i = choose|i: int| 0 <= i < (k + b).len() && (k + b)[i] == '=';
                if i < k.len() {
                    assert(k[i] == '=');
                } else {
                    assert(b[i - k.len()] == '=');
                }
            }
        }
        lemma_split_once(k + b, c + v, '=');
        lemma_trim_padded(k, b);
        lemma_lead(c, v);
        assert(trim_start(v) == v);
    } else {
        assert(v == Seq::<char>::empty());
        let base = k + b + seq!['='];
        assert(inner + d == base + (c + d));
        lemma_all_space(c, d);
        lemma_trail(base, c + d);
        assert(base.last() == '=');
        assert(!is_space('='));
        assert(trim_end(base) == base);
        assert(t == base);
        assert(t == (k + b) + seq!['='] + Seq::<char>::empty());
        lemma_no_char(b, '=');
        assert(!(k + b).contains('=')) by {
            if (k + b).contains('=') {
                let i = choose|i: int| 0 <= i < (k + b).len() && (k + b)[i] == '=';
                if i < k.len() {
                    assert(k[i] == '=');
                } else {
                    assert(b[i - k.len()] == '=');
                }
            }
        }
        lemma_split_once(k + b, Seq::<char>::empty(), '=');
        lemma_trim_padded(k, b);
        assert(trim(Seq::<char>::empty()) == Seq::<char>::empty());
    }
    assert(t[0] == k[0]);
}

pub open spec fn all_space(s: Seq<char>) -> bool {
    forall|i: int| 0 <= i < s.len() ==> is_space(#[trigger] s[i])
}

proof fn lemma_all_space(a: Seq<char>, b: Seq<char>)
    requires
        all_space(a),
        all_space(b),
    ensures
        all_space(a + b),
{
}

proof fn lemma_no_char(s: Seq<char>, c: char)
    requires
        all_space(s),
        !is_space(c),
    ensures
        !s.contains(c),
{
}

proof fn lemma_lead(a: Seq<char>, s: Seq<char>)
    requires
        all_space(a),
    ensures
        trim_start(a + s) == trim_start(s),
    decreases a.len(),
{
    if a.len() == 0 {
        assert(a + s == s);
    } else {
        assert((a + s).drop_first() == a.drop_first() + s);
        assert((a + s)[0] == a[0]);
        lemma_lead(a.drop_first(), s);
    }
}

proof fn lemma_trail(s: Seq<char>, d: Seq<char>)
    requires
        all_space(d),
    ensures
        trim_end(s + d) == trim_end(s),
    decreases d.len(),
{
    if d.len() == 0 {
        assert(s + d == s);
    } else {
        assert((s + d).drop_last() == s + d.drop_last());
        assert((s + d).last() == d.last());
        lemma_trail(s, d.drop_last());
    }
}

proof fn lemma_trim_padded(k: Seq<char>, b: Seq<char>)
    requires
        is_trimmed(k),
        k.len() > 0,
        all_space(b),
    ensures
        trim(k + b) == k,
{
    assert((k + b)[0] == k[0]);
    assert(trim_start(k + b) == k + b);
    lemma_trail(k, b);
}

} // verus!
