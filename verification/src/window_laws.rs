//! What the settings window promises: it shows the settings, reads back what it
//! shows, takes over what was typed and nothing else, and says what it could
//! not read or had to adjust.

use crate::config::{
    channels, law_control_words_round_trip, law_normalizing_keeps_valid_settings, ChannelKind,
    Hotkey, Settings,
};
use crate::settings_actions::{adjusted, choices, command_spec, is_adjusted, Command};
use crate::settings_ui::{
    controls_read, field_at, fields_taken, first_unreadable, Controls, Field, ID_BTN_CANCEL,
    ID_BTN_COLOR, ID_BTN_RESET, ID_BTN_SAVE, ID_BTN_TEST,
};
use crate::shortest::law_numbers_read_back;
use crate::state::is_same_number;
use crate::text::law_unsigned_round_trip;
use vstd::prelude::*;

verus! {

/// The controls show settings: the fields hold their texts, the shortcut
/// fields their words, and the list has their channel selected.
pub open spec fn shows(c: Controls, s: Settings, list: Seq<(ChannelKind, i32)>) -> bool {
    &&& c.opacity@ == Field::Opacity.text_spec(s)
    &&& c.hide_ms@ == Field::HideMs.text_spec(s)
    &&& c.min_db@ == Field::MinDb.text_spec(s)
    &&& c.max_db@ == Field::MaxDb.text_spec(s)
    &&& c.step_db@ == Field::StepDb.text_spec(s)
    &&& c.hotkey_up == s.hotkey_up.control_word()
    &&& c.hotkey_down == s.hotkey_down.control_word()
    &&& c.hotkey_mute == s.hotkey_mute.control_word()
    &&& 0 <= c.selected < list.len()
    &&& list[c.selected as int] == (s.kind, s.index)
}

/// A shortcut that its field can show: it has no Windows key.
pub open spec fn can_show(key: Hotkey) -> bool {
    key.mods <= 7 && key.vk <= 0xFF
}

/// Opening the window and saving it without touching anything changes nothing:
/// what the controls show for valid settings reads back as these settings,
/// every field can be read, and nothing is adjusted.
pub proof fn law_what_the_window_shows_reads_back(
    c: Controls,
    s: Settings,
    list: Seq<(ChannelKind, i32)>,
)
    requires
        s.is_normal(),
        can_show(s.hotkey_up),
        can_show(s.hotkey_down),
        can_show(s.hotkey_mute),
        shows(c, s, list),
    ensures
        first_unreadable(c, 0) is None,
        controls_read(c, s, list) == s,
        controls_read(c, s, list).normalized() == s,
        adjusted(s, s.normalized(), 5).len() == 0,
{
    law_unsigned_round_trip(s.opacity_pct as nat, 0xFFFF_FFFF);
    law_unsigned_round_trip(s.hide_ms as nat, 0xFFFF_FFFF);
    law_numbers_read_back(s.min_db);
    law_numbers_read_back(s.max_db);
    law_numbers_read_back(s.step_db);
    law_control_words_round_trip(s.hotkey_up);
    law_control_words_round_trip(s.hotkey_down);
    law_control_words_round_trip(s.hotkey_mute);
    law_normalizing_keeps_valid_settings(s);
    reveal_with_fuel(first_unreadable, 6);
    reveal_with_fuel(fields_taken, 6);
    reveal_with_fuel(adjusted, 6);
}

/// What was typed is what counts, whatever the settings were before: where the
/// controls show valid settings, reading them gives these in every field,
/// shortcut and channel, and leaves all else as it was.
pub proof fn law_reading_takes_over_what_is_shown(
    c: Controls,
    before: Settings,
    shown: Settings,
    list: Seq<(ChannelKind, i32)>,
)
    requires
        shown.is_normal(),
        can_show(shown.hotkey_up),
        can_show(shown.hotkey_down),
        can_show(shown.hotkey_mute),
        shows(c, shown, list),
    ensures
        controls_read(c, before, list) == (Settings {
            kind: shown.kind,
            index: shown.index,
            opacity_pct: shown.opacity_pct,
            hide_ms: shown.hide_ms,
            min_db: shown.min_db,
            max_db: shown.max_db,
            step_db: shown.step_db,
            hotkey_up: shown.hotkey_up,
            hotkey_down: shown.hotkey_down,
            hotkey_mute: shown.hotkey_mute,
            ..before
        }),
{
    law_unsigned_round_trip(shown.opacity_pct as nat, 0xFFFF_FFFF);
    law_unsigned_round_trip(shown.hide_ms as nat, 0xFFFF_FFFF);
    law_numbers_read_back(shown.min_db);
    law_numbers_read_back(shown.max_db);
    law_numbers_read_back(shown.step_db);
    law_control_words_round_trip(shown.hotkey_up);
    law_control_words_round_trip(shown.hotkey_down);
    law_control_words_round_trip(shown.hotkey_mute);
    reveal_with_fuel(fields_taken, 6);
}

/// The value that a field is about, as a bit pattern.
pub open spec fn value_of(field: Field, s: Settings) -> int {
    match field {
        Field::Opacity => s.opacity_pct as int,
        Field::HideMs => s.hide_ms as int,
        Field::MinDb => s.min_db.bits as int,
        Field::MaxDb => s.max_db.bits as int,
        Field::StepDb => s.step_db.bits as int,
    }
}

/// Taking a field over changes what that field is about, and nothing else. A
/// field that cannot be read leaves its value, but for an opacity beyond 100.
pub proof fn law_a_field_changes_its_own_value(
    c: Controls,
    field: Field,
    other: Field,
    s: Settings,
)
    ensures
        other != field ==> value_of(other, c.taken(field, s)) == value_of(other, s),
        c.taken(field, s) == (Settings {
            opacity_pct: c.taken(field, s).opacity_pct,
            hide_ms: c.taken(field, s).hide_ms,
            min_db: c.taken(field, s).min_db,
            max_db: c.taken(field, s).max_db,
            step_db: c.taken(field, s).step_db,
            ..s
        }),
        !c.is_readable(field) && s.opacity_pct <= 100 ==> c.taken(field, s) == s,
        c.taken(Field::Opacity, s).opacity_pct <= 100,
{
}

/// Which field is reported: one that cannot be read, with none before it, in
/// the order of the window. None is reported exactly if all can be read.
pub proof fn law_the_first_bad_field_is_reported(c: Controls)
    ensures
        match first_unreadable(c, 0) {
            Some(i) => 0 <= i < 5 && !c.is_readable(field_at(i)) && forall|j: int|
                0 <= j < i ==> #[trigger] c.is_readable(field_at(j)),
            None => forall|f: Field| #[trigger] c.is_readable(f),
        },
{
    reveal_with_fuel(first_unreadable, 6);
    assert(field_at(0) == Field::Opacity && field_at(1) == Field::HideMs && field_at(2)
        == Field::MinDb && field_at(3) == Field::MaxDb && field_at(4) == Field::StepDb);
    assert forall|f: Field| first_unreadable(c, 0) is None implies #[trigger] c.is_readable(f) by {
        assert(f == field_at(0) || f == field_at(1) || f == field_at(2) || f == field_at(3) || f
            == field_at(4));
    }
}

/// The fields that are written back are exactly those whose number committing
/// changed, each once and in the order of the window.
pub proof fn law_adjusted_fields_are_reported(before: Settings, after: Settings, field: Field)
    requires
        !before.min_db.is_nan() && !before.max_db.is_nan() && !before.step_db.is_nan(),
        !after.min_db.is_nan() && !after.max_db.is_nan() && !after.step_db.is_nan(),
    ensures
        adjusted(before, after, 5).contains(field) <==> match field {
            Field::Opacity => before.opacity_pct != after.opacity_pct,
            Field::HideMs => before.hide_ms != after.hide_ms,
            Field::MinDb => !is_same_number(before.min_db, after.min_db),
            Field::MaxDb => !is_same_number(before.max_db, after.max_db),
            Field::StepDb => !is_same_number(before.step_db, after.step_db),
        },
        adjusted(before, after, 5).len() <= 5,
        adjusted(before, after, 5).no_duplicates(),
{
    lemma_adjusted(before, after, 5, field);
    assert(field_at(0) == Field::Opacity && field_at(1) == Field::HideMs && field_at(2)
        == Field::MinDb && field_at(3) == Field::MaxDb && field_at(4) == Field::StepDb);
    match field {
        Field::Opacity => {
            assert(is_before(field, 5)) by {
                assert(field_at(0) == field);
            }
        },
        Field::HideMs => {
            assert(is_before(field, 5)) by {
                assert(field_at(1) == field);
            }
        },
        Field::MinDb => {
            assert(is_before(field, 5)) by {
                assert(field_at(2) == field);
            }
        },
        Field::MaxDb => {
            assert(is_before(field, 5)) by {
                assert(field_at(3) == field);
            }
        },
        Field::StepDb => {
            assert(is_before(field, 5)) by {
                assert(field_at(4) == field);
            }
        },
    }
}

spec fn is_before(field: Field, n: int) -> bool {
    exists|i: int| 0 <= i < n && #[trigger] field_at(i) == field
}

proof fn lemma_adjusted(before: Settings, after: Settings, n: int, field: Field)
    requires
        0 <= n <= 5,
    ensures
        adjusted(before, after, n).contains(field) <==> is_adjusted(field, before, after)
            && is_before(field, n),
        adjusted(before, after, n).len() <= n,
        adjusted(before, after, n).no_duplicates(),
        forall|k: int| #![auto]
            0 <= k < adjusted(before, after, n).len() ==> is_before(
                adjusted(before, after, n)[k],
                n,
            ),
    decreases n,
{
    if n > 0 {
        lemma_adjusted(before, after, n - 1, field);
        let (a, b) = (adjusted(before, after, n - 1), adjusted(before, after, n));
        let last = field_at(n - 1);
        assert(is_before(last, n));
        assert forall|f: Field| is_before(f, n - 1) implies #[trigger] is_before(f, n) && f
            != last by {
            let i = choose|i: int| 0 <= i < n - 1 && #[trigger] field_at(i) == f;
            assert(field_at(i) == f);
        }
        assert(is_before(field, n) ==> field == last || is_before(field, n - 1)) by {
            if is_before(field, n) {
                let i = choose|i: int| 0 <= i < n && #[trigger] field_at(i) == field;
                if i < n - 1 {
                    assert(is_before(field, n - 1));
                }
            }
        }
        if is_adjusted(last, before, after) {
            assert(b == a.push(last));
            if a.contains(field) {
                let k = choose|k: int| 0 <= k < a.len() && a[k] == field;
                assert(b[k] == field);
            }
            assert(b[a.len() as int] == last);
            assert(b.contains(field) ==> a.contains(field) || field == last);
            assert forall|k: int| 0 <= k < b.len() implies is_before(#[trigger] b[k], n) by {
                if k < a.len() {
                    assert(is_before(a[k], n - 1));
                }
            }
            assert forall|i: int, j: int| 0 <= i < b.len() && 0 <= j < b.len() && i
                != j implies b[i] != b[j] by {
                if i < a.len() {
                    assert(is_before(a[i], n - 1));
                }
                if j < a.len() {
                    assert(is_before(a[j], n - 1));
                }
            }
        }
    }
}

/// The list of channels has every channel of the edition, in order, and always
/// the configured one: where the edition lacks it, it comes last, and is the
/// only one that is flagged.
pub proof fn law_the_configured_channel_can_be_chosen(
    edition: int,
    kind: ChannelKind,
    index: i32,
    i: int,
)
    ensures
        ({
            let (list, own) = (choices(edition, kind, index), channels(edition));
            &&& list.contains((kind, index))
            &&& own.len() <= list.len() <= own.len() + 1
            &&& 0 <= i < own.len() ==> list[i] == own[i]
            &&& list.len() > own.len() <==> !own.contains((kind, index))
            &&& list.len() > own.len() ==> list.last() == (kind, index)
        }),
{
    let (list, own) = (choices(edition, kind, index), channels(edition));
    if !own.contains((kind, index)) {
        assert(list[own.len() as int] == (kind, index));
    }
}

/// Enter saves as the Save button does, and Esc closes the window as Cancel
/// does, whatever else is reported with them. No other control saves, closes,
/// tests or resets.
pub proof fn law_enter_saves_and_esc_cancels(
    follow_system: bool,
    id: i32,
    notification: u32,
    r: Command,
)
    requires
        command_spec(follow_system, id, notification, r),
    ensures
        r == Command::Save <==> id == 1 || id == ID_BTN_SAVE,
        r == Command::Cancel <==> id == 2 || id == ID_BTN_CANCEL,
        r == Command::Test <==> id == ID_BTN_TEST,
        r == Command::Reset <==> id == ID_BTN_RESET,
        r == Command::ChooseColor <==> id == ID_BTN_COLOR && !follow_system,
        r matches Command::Choose { group, choice } ==> {
            &&& group <= 1
            &&& choice < (if group == 0 {
                2int
            } else {
                3
            })
            &&& id == choice + (if group == 0 {
                3210int
            } else {
                3220
            })
        },
{
}

} // verus!
