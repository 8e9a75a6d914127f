//! What the settings window does: committing its fields, applying and undoing
//! choices, its buttons and keys, and the list of channels.

use crate::config::{
    all_channels, bus_count, bus_count_spec, channels, has_name, name_spec, strip_count,
    strip_count_spec, ChannelKind, Position, Settings,
};
use crate::gfx::color_of_rgb;
use crate::messages::{WM_KEYDOWN, WM_SYSKEYDOWN};
use crate::osd::{can_place, is_dragged, origin, origin_for, MonitorInfo};
use crate::settings_ui::{
    controls_read, field_at, fields_taken, first_unreadable, seg_group_of, toggle_of, Controls,
    Field, FieldError, Toggle, Ui, CBN_SELCHANGE, EN_CHANGE, ID_BTN_CANCEL, ID_BTN_COLOR,
    ID_BTN_RESET, ID_BTN_SAVE, ID_BTN_TEST, ID_CANCEL, ID_HK_DOWN, ID_HK_MUTE, ID_HK_UP, ID_OK,
    ID_SECTION_END, ID_SECTION_FIRST, ID_SEG_END, ID_SEG_ORIENT, ID_SEG_POSITION,
};
use crate::text::{chars_of, same};
use vstd::prelude::*;

verus! {

// ---------------------------------------------------------------------------
// Committing
// ---------------------------------------------------------------------------

/// Whether normalizing changed what a field shows.
pub open spec fn is_adjusted(field: Field, before: Settings, after: Settings) -> bool {
    match field {
        Field::Opacity => before.opacity_pct != after.opacity_pct,
        Field::HideMs => before.hide_ms != after.hide_ms,
        Field::MinDb => !before.min_db.equals_spec(after.min_db),
        Field::MaxDb => !before.max_db.equals_spec(after.max_db),
        Field::StepDb => !before.step_db.equals_spec(after.step_db),
    }
}

/// The first `n` fields, those that normalizing changed.
pub open spec fn adjusted(before: Settings, after: Settings, n: int) -> Seq<Field>
    decreases n,
{
    if n <= 0 {
        Seq::empty()
    } else if is_adjusted(field_at(n - 1), before, after) {
        adjusted(before, after, n - 1).push(field_at(n - 1))
    } else {
        adjusted(before, after, n - 1)
    }
}

fn was_adjusted(field: Field, before: &Settings, after: &Settings) -> (r: bool)
    ensures
        r == is_adjusted(field, *before, *after),
{
    match field {
        Field::Opacity => before.opacity_pct != after.opacity_pct,
        Field::HideMs => before.hide_ms != after.hide_ms,
        Field::MinDb => !before.min_db.equals(after.min_db),
        Field::MaxDb => !before.max_db.equals(after.max_db),
        Field::StepDb => !before.step_db.equals(after.step_db),
    }
}

impl Ui {
    /// Validates and clamps the fields. The fields whose clamped values have
    /// to be written back, so the user sees what was used; or the field to
    /// explain and focus.
    pub fn commit_fields(&mut self, c: &Controls) -> (r: Result<Vec<Field>, FieldError>)
        ensures
            ({
                let start = c.with_channel(old(self).pending, old(self).channels@);
                let all = controls_read(*c, old(self).pending, old(self).channels@);
                match (first_unreadable(*c, 0), r) {
                    (Some(i), Err(e)) => e.field == field_at(i) && final(self).pending
                        == fields_taken(*c, start, i),
                    (None, Ok(list)) => final(self).pending == all.normalized() && list@
                        == adjusted(all, all.normalized(), 5),
                    _ => false,
                }
            }),
            r is Ok ==> final(self).pending.is_normal(),
            *final(self) == (Ui { pending: final(self).pending, ..*old(self) }),
    {
        if let Err(e) = self.read_controls(c, true) {
            return Err(e);
        }
        let before: Settings = self.pending;
        self.pending.normalize();
        let after: Settings = self.pending;
        let mut out: Vec<Field> = Vec::new();
        let fields: [Field; 5] = [
            Field::Opacity,
            Field::HideMs,
            Field::MinDb,
            Field::MaxDb,
            Field::StepDb,
        ];
        let mut i: usize = 0;
        while i < 5
            invariant
                i <= 5,
                out@ == adjusted(before, after, i as int),
                forall|j: int| 0 <= j < 5 ==> #[trigger] fields@[j] == field_at(j),
            decreases 5 - i,
        {
            if was_adjusted(fields[i], &before, &after) {
                out.push(fields[i]);
            }
            i += 1;
        }
        Ok(out)
    }
}

/// The shortcuts, one on each line.
pub open spec fn lines(taken: Seq<String>) -> Seq<char>
    decreases taken.len(),
{
    if taken.len() == 0 {
        Seq::empty()
    } else if taken.len() == 1 {
        taken[0]@
    } else {
        lines(taken.drop_last()) + "\n"@ + taken.last()@
    }
}

pub open spec fn taken_head() -> Seq<char> {
    "These shortcuts are already in use by another app, so they won't work here:\n\n"@
}

/// What the user is told of shortcuts that another app already owns; nothing
/// where there are none.
pub fn warn_taken(taken: &Vec<String>) -> (r: Option<String>)
    ensures
        match r {
            Some(text) => taken@.len() > 0 && text@ == taken_head() + lines(taken@)
                + "\n\nPick different keys, or close the app that's using them."@,
            None => taken@.len() == 0,
        },
{
    if taken.len() == 0 {
        return None;
    }
    let mut list: String = String::from_str(taken[0].as_str());
    let mut i: usize = 1;
    assert(taken@.take(1).len() == 1);
    while i < taken.len()
        invariant
            1 <= i <= taken@.len(),
            list@ == lines(taken@.take(i as int)),
        decreases taken@.len() - i,
    {
        proof {
            let next = taken@.take(i + 1);
            assert(next.drop_last() == taken@.take(i as int));
            assert(next.last() == taken@[i as int]);
        }
        list.append("\n");
        list.append(taken[i].as_str());
        i += 1;
    }
    assert(taken@.take(i as int) == taken@);
    let mut out: String = String::from_str(
        "These shortcuts are already in use by another app, so they won't work here:\n\n",
    );
    out.append(list.as_str());
    out.append("\n\nPick different keys, or close the app that's using them.");
    Some(out)
}

// ---------------------------------------------------------------------------
// Applying and undoing
// ---------------------------------------------------------------------------

/// Whether settings ask for a custom place without having one.
pub fn needs_place(settings: &Settings) -> (r: bool)
    ensures
        r == (settings.position == Position::Custom && !is_dragged(*settings)),
{
    settings.position == Position::Custom && settings.custom_x == 0 && settings.custom_y == 0
}

/// Picking Custom without ever having dragged needs somewhere to land: the
/// floating spot on the display at hand.
pub fn apply_live(settings: &Settings, monitor: &MonitorInfo) -> (r: Settings)
    requires
        settings.position == Position::Custom && !is_dragged(*settings) ==> can_place(
            (Settings { position: Position::Centre, ..*settings }),
            monitor.dpi as int,
            monitor.work,
            None,
        ),
    ensures
        settings.position == Position::Custom && !is_dragged(*settings) ==> {
            let probe = Settings { position: Position::Centre, ..*settings };
            let spot = origin(probe, monitor.dpi as int, monitor.work, None);
            &&& r.custom_x == spot.0
            &&& r.custom_y == spot.1
            &&& r == (Settings { custom_x: r.custom_x, custom_y: r.custom_y, ..*settings })
        },
        !(settings.position == Position::Custom && !is_dragged(*settings)) ==> r == *settings,
{
    if needs_place(settings) {
        let probe = Settings { position: Position::Centre, ..*settings };
        let (x, y) = origin_for(&probe, monitor.dpi, monitor, None);
        Settings { custom_x: x, custom_y: y, ..*settings }
    } else {
        *settings
    }
}

impl Ui {
    /// The window after a channel was picked from the tray menu.
    pub open spec fn with_channel(self, kind: ChannelKind, index: i32) -> Ui {
        Ui {
            pending: Settings { kind, index, ..self.pending },
            snapshot: Settings { kind, index, ..self.snapshot },
            ..self
        }
    }

    /// The window after the bar was dragged.
    pub open spec fn with_spot(self, x: i32, y: i32) -> Ui {
        Ui {
            pending: Settings {
                position: Position::Custom,
                custom_x: x,
                custom_y: y,
                ..self.pending
            },
            snapshot: Settings {
                position: Position::Custom,
                custom_x: x,
                custom_y: y,
                ..self.snapshot
            },
            ..self
        }
    }

    /// The window after the Test button pushed its settings live.
    pub open spec fn after_test(self) -> Ui {
        Ui { tested: true, ..self }
    }

    /// The window after its settings were saved.
    pub open spec fn after_save(self) -> Ui {
        Ui { tested: false, ..self }
    }

    /// What closing the window without saving puts back.
    pub open spec fn undone(self) -> Option<Settings> {
        if self.tested {
            Some(self.snapshot)
        } else {
            None
        }
    }

    /// Pushes settings back into the window. Reset shouldn't forget where the
    /// bar was dragged to.
    pub fn repopulate(&mut self, s: &Settings)
        ensures
            *final(self) == (Ui {
                pending: (Settings {
                    custom_x: old(self).pending.custom_x,
                    custom_y: old(self).pending.custom_y,
                    ..*s
                }),
                ..*old(self)
            }),
    {
        self.pending = Settings {
            custom_x: self.pending.custom_x,
            custom_y: self.pending.custom_y,
            ..*s
        };
    }

    /// A channel was picked from the tray menu while this window is open:
    /// adopts it, so saving the window later doesn't switch back. The item of
    /// the channel list to select, if it has the channel.
    pub fn channel_chosen(&mut self, kind: ChannelKind, index: i32) -> (item: Option<usize>)
        ensures
            *final(self) == old(self).with_channel(kind, index),
            match item {
                Some(i) => is_item(old(self).channels@, i as int, kind, index),
                None => !old(self).channels@.contains((kind, index)),
            },
    {
        self.pending.kind = kind;
        self.pending.index = index;
        self.snapshot.kind = kind;
        self.snapshot.index = index;
        item_of(&self.channels, kind, index)
    }

    /// The bar was dragged while this window is open: adopts the new spot so
    /// a later Save or Cancel doesn't put the bar back where it was.
    pub fn bar_dragged(&mut self, x: i32, y: i32)
        ensures
            *final(self) == old(self).with_spot(x, y),
    {
        self.pending.position = Position::Custom;
        self.pending.custom_x = x;
        self.pending.custom_y = y;
        self.snapshot.position = Position::Custom;
        self.snapshot.custom_x = x;
        self.snapshot.custom_y = y;
    }

    /// The colour that was picked in the colour dialog.
    pub fn color_picked(&mut self, word: u32)
        ensures
            final(self).pending.accent.0 == word % 256,
            final(self).pending.accent.1 == word / 256 % 256,
            final(self).pending.accent.2 == word / 0x1_0000 % 256,
            *final(self) == (Ui {
                pending: (Settings { accent: final(self).pending.accent, ..old(self).pending }),
                ..*old(self)
            }),
    {
        self.pending.accent = color_of_rgb(word);
    }

    /// The pending settings went live for a try: nothing is committed, and
    /// closing the window takes them back.
    pub fn test_applied(&mut self)
        ensures
            *final(self) == old(self).after_test(),
    {
        self.tested = true;
    }

    /// The pending settings went live for good.
    pub fn save_applied(&mut self)
        ensures
            *final(self) == old(self).after_save(),
    {
        self.tested = false;
    }

    /// What saving has to turn starting with the system to, where that is not
    /// what it is already.
    pub fn autostart_change(&self, enabled: bool) -> (r: Option<bool>)
        ensures
            r == if self.autostart != enabled {
                Some(self.autostart)
            } else {
                None
            },
    {
        if self.autostart != enabled {
            Some(self.autostart)
        } else {
            None
        }
    }

    /// What closing the window has to put back: closing without saving undoes
    /// anything Test pushed live.
    pub fn rollback(&self) -> (r: Option<Settings>)
        ensures
            r == self.undone(),
    {
        if self.tested {
            Some(self.snapshot)
        } else {
            None
        }
    }
}

/// Closing the window after Test gives back the settings that were live when
/// it opened, whatever was tried or typed; closing it after Save gives back
/// nothing, whatever was tested before.
pub proof fn law_closing_undoes_a_test_but_not_a_save(ui: Ui, tried: Settings, typed: Settings)
    ensures
        ({
            let tested = (Ui { pending: tried, ..ui }).after_test();
            &&& (Ui { pending: typed, ..tested }).undone() == Some(ui.snapshot)
            &&& (Ui { pending: typed, ..tested }).after_save().undone() is None
        }),
        ui.after_test().undone() == Some(ui.snapshot),
        ui.after_save().undone() is None,
{
}

/// What happens outside the window while it is open stays: neither saving it
/// later nor closing it puts the bar or the channel back.
pub proof fn law_the_window_keeps_what_happens_outside(
    ui: Ui,
    x: i32,
    y: i32,
    kind: ChannelKind,
    index: i32,
)
    ensures
        ({
            let dragged = ui.with_spot(x, y);
            &&& dragged.pending.position == Position::Custom
            &&& dragged.pending.custom_x == x && dragged.pending.custom_y == y
            &&& match dragged.undone() {
                Some(s) => s == (Settings {
                    position: Position::Custom,
                    custom_x: x,
                    custom_y: y,
                    ..ui.undone()->0
                }),
                None => ui.undone() is None,
            }
        }),
        ({
            let chosen = ui.with_channel(kind, index);
            &&& chosen.pending.kind == kind && chosen.pending.index == index
            &&& match chosen.undone() {
                Some(s) => s == (Settings { kind, index, ..ui.undone()->0 }),
                None => ui.undone() is None,
            }
        }),
        ui.with_spot(x, y).with_channel(kind, index) == ui.with_channel(kind, index).with_spot(
            x,
            y,
        ),
{
}

// ---------------------------------------------------------------------------
// Keys and buttons
// ---------------------------------------------------------------------------

/// How the message loop should treat a message while settings are open.
#[derive(Clone, Copy, PartialEq, Eq, Debug, Structural)]
pub enum KeyRoute {
    /// Fully handled here: unassigns the shortcut. Not to be dispatched.
    Handled,
    /// Dispatch straight to the control, bypassing dialog navigation, so a
    /// shortcut picker can record Enter instead of it pressing Save.
    Raw,
    /// Normal dialog handling (Tab, Enter, Esc).
    Dialog,
}

pub const VK_BACK: u64 = 0x08;

pub const VK_RETURN: u64 = 0x0D;

pub const VK_DELETE: u64 = 0x2E;

/// Where a key goes.
pub open spec fn key_route(msg: u32, key: u64, focus: Option<i32>, modifier: bool) -> KeyRoute {
    match focus {
        Some(id) if (msg == WM_KEYDOWN || msg == WM_SYSKEYDOWN) && (id == ID_HK_UP || id
            == ID_HK_DOWN || id == ID_HK_MUTE) => if (key == VK_BACK || key == VK_DELETE) && msg
            == WM_KEYDOWN && !modifier {
            KeyRoute::Handled
        } else if key == VK_RETURN {
            KeyRoute::Raw
        } else {
            KeyRoute::Dialog
        },
        _ => KeyRoute::Dialog,
    }
}

/// Keys are taken out of the dialog's hands only in a shortcut field: there
/// Enter is recorded, and Backspace or Delete alone unassigns the shortcut.
/// With a modifier they can be part of one.
pub proof fn law_only_shortcut_fields_take_keys(
    msg: u32,
    key: u64,
    focus: Option<i32>,
    modifier: bool,
)
    ensures
        key_route(msg, key, focus, modifier) != KeyRoute::Dialog ==> focus is Some && 3030
            <= focus->0 <= 3032 && (msg == 0x0100 || msg == 0x0104),
        focus is Some && 3030 <= focus->0 <= 3032 ==> {
            &&& key_route(0x0100, 0x0D, focus, modifier) == KeyRoute::Raw
            &&& key_route(0x0104, 0x0D, focus, modifier) == KeyRoute::Raw
            &&& key_route(0x0100, 0x08, focus, false) == KeyRoute::Handled
            &&& key_route(0x0100, 0x2E, focus, false) == KeyRoute::Handled
            &&& key_route(0x0100, 0x08, focus, true) == KeyRoute::Dialog
            &&& key_route(0x0100, 0x2E, focus, true) == KeyRoute::Dialog
        },
{
}

/// Where a key goes. `focus` is the control of this window that has the
/// focus, if one has; `modifier` whether Ctrl, Alt or Shift is down.
pub fn route_key(msg: u32, key: u64, focus: Option<i32>, modifier: bool) -> (r: KeyRoute)
    ensures
        r == key_route(msg, key, focus, modifier),
        r == match focus {
            Some(id) if (msg == WM_KEYDOWN || msg == WM_SYSKEYDOWN) && (id == ID_HK_UP || id
                == ID_HK_DOWN || id == ID_HK_MUTE) => if (key == VK_BACK || key == VK_DELETE)
                && msg == WM_KEYDOWN && !modifier {
                KeyRoute::Handled
            } else if key == VK_RETURN {
                KeyRoute::Raw
            } else {
                KeyRoute::Dialog
            },
            _ => KeyRoute::Dialog,
        },
{
    if msg != WM_KEYDOWN && msg != WM_SYSKEYDOWN {
        return KeyRoute::Dialog;
    }
    let id: i32 = match focus {
        Some(id) => id,
        None => {
            return KeyRoute::Dialog;
        },
    };
    if id != ID_HK_UP && id != ID_HK_DOWN && id != ID_HK_MUTE {
        return KeyRoute::Dialog;
    }
    // Backspace or Delete on its own unassigns the shortcut.
    if (key == VK_BACK || key == VK_DELETE) && msg == WM_KEYDOWN && !modifier {
        return KeyRoute::Handled;
    }
    if key == VK_RETURN {
        return KeyRoute::Raw;
    }
    KeyRoute::Dialog
}

/// What a command of the settings window asks for.
#[derive(Clone, Copy, PartialEq, Eq, Debug, Structural)]
pub enum Command {
    ChooseColor,
    /// Preview live but commit nothing.
    Test,
    Save,
    /// Close the window.
    Cancel,
    Reset,
    Flip(Toggle),
    Choose { group: usize, choice: usize },
    /// A field changed: redraw the preview.
    Preview,
    Nothing,
}

/// What a command of the settings window asks for.
pub open spec fn command_spec(follow_system: bool, id: i32, notification: u32, r: Command) -> bool {
    if id == ID_BTN_COLOR && !follow_system {
        r == Command::ChooseColor
    } else if id == ID_BTN_TEST {
        r == Command::Test
    } else if id == ID_BTN_SAVE || id == ID_OK {
        r == Command::Save
    } else if id == ID_BTN_CANCEL || id == ID_CANCEL {
        r == Command::Cancel
    } else if id == ID_BTN_RESET {
        r == Command::Reset
    } else if exists|t: Toggle| #[trigger] t.id() == id {
        r matches Command::Flip(t) && t.id() == id
    } else if ID_SEG_ORIENT <= id < ID_SEG_ORIENT + 2 {
        r == Command::Choose { group: 0, choice: (id - ID_SEG_ORIENT) as usize }
    } else if ID_SEG_POSITION <= id < ID_SEG_POSITION + 3 {
        r == Command::Choose { group: 1, choice: (id - ID_SEG_POSITION) as usize }
    } else if ID_SEG_ORIENT <= id < ID_SEG_END {
        r == Command::Nothing
    } else if notification == EN_CHANGE || notification == CBN_SELCHANGE {
        r == Command::Preview
    } else {
        r == Command::Nothing
    }
}

impl Ui {
    /// What a command asks for.
    pub fn on_command(&self, id: i32, notification: u32) -> (r: Command)
        ensures
            command_spec(self.pending.accent_follow_system, id, notification, r),
    {
        if id == ID_BTN_COLOR && !self.pending.accent_follow_system {
            return Command::ChooseColor;
        }
        if id == ID_BTN_TEST {
            return Command::Test;
        }
        if id == ID_BTN_SAVE || id == ID_OK {
            return Command::Save;
        }
        if id == ID_BTN_CANCEL || id == ID_CANCEL {
            return Command::Cancel;
        }
        if id == ID_BTN_RESET {
            return Command::Reset;
        }
        if let Some(t) = toggle_of(id) {
            assert(t.id() == id);
            return Command::Flip(t);
        }
        if ID_SEG_ORIENT <= id && id < ID_SEG_END {
            return match seg_group_of(id) {
                Some((group, base, _)) => Command::Choose { group, choice: (id - base) as usize },
                None => Command::Nothing,
            };
        }
        if notification == EN_CHANGE || notification == CBN_SELCHANGE {
            Command::Preview
        } else {
            Command::Nothing
        }
    }
}

/// Section captions get the dimmed text color.
pub fn is_section(id: i32) -> (r: bool)
    ensures
        r == (ID_SECTION_FIRST <= id < ID_SECTION_END),
{
    ID_SECTION_FIRST <= id && id < ID_SECTION_END
}

// ---------------------------------------------------------------------------
// The list of channels
// ---------------------------------------------------------------------------

/// The first item of a list with the given channel.
pub open spec fn is_item(
    list: Seq<(ChannelKind, i32)>,
    i: int,
    kind: ChannelKind,
    index: i32,
) -> bool {
    &&& 0 <= i < list.len()
    &&& list[i] == (kind, index)
    &&& forall|j: int| 0 <= j < i ==> #[trigger] list[j] != (kind, index)
}

/// The item of a list with the given channel.
pub fn item_of(list: &Vec<(ChannelKind, i32)>, kind: ChannelKind, index: i32) -> (r: Option<usize>)
    ensures
        match r {
            Some(i) => is_item(list@, i as int, kind, index),
            None => !list@.contains((kind, index)),
        },
{
    let mut i: usize = 0;
    while i < list.len()
        invariant
            i <= list@.len(),
            forall|j: int| 0 <= j < i ==> #[trigger] list@[j] != (kind, index),
        decreases list@.len() - i,
    {
        let (k, n) = list[i];
        if k == kind && n == index {
            return Some(i);
        }
        i += 1;
    }
    None
}

/// The channels to choose from: those of the edition, and the configured one
/// where the edition lacks it. It stays selectable, flagged, rather than
/// silently turning into a different one.
pub open spec fn choices(edition: int, kind: ChannelKind, index: i32) -> Seq<(ChannelKind, i32)> {
    if channels(edition).contains((kind, index)) {
        channels(edition)
    } else {
        channels(edition).push((kind, index))
    }
}

impl Ui {
    /// Fills the list of channels; the item to select.
    pub fn list_channels(&mut self, edition: i32) -> (selected: usize)
        ensures
            final(self).channels@ == choices(
                edition as int,
                old(self).pending.kind,
                old(self).pending.index,
            ),
            is_item(
                final(self).channels@,
                selected as int,
                old(self).pending.kind,
                old(self).pending.index,
            ),
            *final(self) == (Ui { channels: final(self).channels, ..*old(self) }),
    {
        let (kind, index) = (self.pending.kind, self.pending.index);
        let mut list = all_channels(edition);
        match item_of(&list, kind, index) {
            Some(i) => {
                assert(list@.contains(list@[i as int]));
                self.channels = list;
                i
            },
            None => {
                let i: usize = list.len();
                proof {
                    assert forall|j: int| 0 <= j < list@.len() implies #[trigger] list@[j] != (
                        kind,
                        index,
                    ) by {
                        assert(list@.contains(list@[j]));
                    }
                }
                list.push((kind, index));
                self.channels = list;
                i
            },
        }
    }
}

/// Dropdown text for a channel: Voicemeeter's name plus the user's label.
pub open spec fn caption_spec(
    kind: ChannelKind,
    index: int,
    edition: int,
    label: Option<String>,
) -> Seq<char> {
    let name = name_spec(kind, index, edition);
    match label {
        Some(text) if text@ != name => name + "  \u{2014}  "@ + text@,
        _ => name,
    }
}

pub fn channel_caption(
    kind: ChannelKind,
    index: i32,
    edition: i32,
    label: Option<String>,
) -> (r: String)
    requires
        has_name(kind, index as int),
    ensures
        r@ == caption_spec(kind, index as int, edition as int, label),
{
    let name: String = Settings::channel_name(kind, index, edition);
    match label {
        Some(text) => {
            let chars = chars_of(text.as_str());
            if same(chars.as_slice(), name.as_str()) {
                name
            } else {
                let mut out: String = name;
                out.append("  \u{2014}  ");
                out.append(text.as_str());
                out
            }
        },
        None => name,
    }
}

/// The text of an item in the list of channels. Items beyond the edition's
/// own channels are flagged.
pub fn item_caption(
    item: usize,
    kind: ChannelKind,
    index: i32,
    edition: i32,
    label: Option<String>,
) -> (r: String)
    requires
        has_name(kind, index as int),
    ensures
        r@ == caption_spec(kind, index as int, edition as int, label) + if item
            >= strip_count_spec(edition as int) + bus_count_spec(edition as int) {
            "  (not in this edition)"@
        } else {
            ""@
        },
{
    let count: i32 = strip_count(edition) + bus_count(edition);
    let mut out: String = channel_caption(kind, index, edition, label);
    if item >= count as usize {
        out.append("  (not in this edition)");
    } else {
        proof {
            reveal_strlit("");
        }
        assert(out@ + ""@ == out@);
    }
    out
}

} // verus!
