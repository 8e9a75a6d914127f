//! The layout of the settings window: two columns of labelled controls over a
//! row of buttons.

use crate::osd::{pixels, Rect};
use crate::settings_ui::{
    Field, Ui, ID_BTN_CANCEL, ID_BTN_COLOR, ID_BTN_RESET, ID_BTN_SAVE, ID_BTN_TEST,
    ID_CHK_ACCENT_SYS, ID_CHK_AUTOSTART, ID_CHK_DEBUG, ID_CHK_FULLSCREEN, ID_CHK_HOTKEYS,
    ID_CHK_SCROLL, ID_CHK_WATCH, ID_COMBO_CHANNEL, ID_EDIT_HIDE, ID_EDIT_MAXDB, ID_EDIT_MINDB,
    ID_EDIT_OPACITY, ID_EDIT_STEP, ID_HK_DOWN, ID_HK_MUTE, ID_HK_UP, ID_SECTION_FIRST,
    ID_SEG_ORIENT, ID_SEG_POSITION,
};
use vstd::arithmetic::div_mod::{lemma_div_is_ordered_by_denominator, lemma_div_pos_is_pos};
use vstd::prelude::*;

verus! {

/// The width of the window's inside, at 96 dots per inch.
pub const CLIENT_W: i32 = 896;

/// The kinds of controls.
#[derive(Clone, Copy, PartialEq, Eq, Debug, Structural)]
pub enum ControlClass {
    Label,
    List,
    Segment,
    Button,
    /// A real checkbox underneath, painted over, so screen readers announce
    /// it as a checkbox with its on/off state. Its text isn't drawn (the label
    /// beside it is), but it's what they read out.
    Toggle,
    /// A field for a whole number.
    Number,
    Edit,
    /// A field that records a shortcut.
    Hotkey,
}

/// What a control says.
#[derive(Clone, Copy, Debug)]
pub enum ControlText {
    Words(&'static str),
    /// The value of a setting.
    Value(Field),
}

/// A control to create: its kind, text, place and number. Lengths are at 96
/// dots per inch.
#[derive(Clone, Copy, Debug)]
pub struct Control {
    pub class: ControlClass,
    pub text: ControlText,
    pub x: i32,
    pub y: i32,
    pub w: i32,
    pub h: i32,
    pub id: i32,
}

pub open spec fn control(
    class: ControlClass,
    text: ControlText,
    area: (int, int, int, int),
    id: int,
) -> Control {
    Control {
        class,
        text,
        x: area.0 as i32,
        y: area.1 as i32,
        w: area.2 as i32,
        h: area.3 as i32,
        id: id as i32,
    }
}

/// The left column: channel, appearance, preview.
pub open spec fn left_column() -> Seq<Control> {
    seq![
        control(
            ControlClass::Label,
            ControlText::Words("CHANNEL"),
            (24, 92, 200, 20),
            ID_SECTION_FIRST as int,
        ),
        control(
            ControlClass::List,
            ControlText::Words(""),
            (24, 118, 410, 320),
            ID_COMBO_CHANNEL as int,
        ),
        control(
            ControlClass::Label,
            ControlText::Words("APPEARANCE"),
            (24, 160, 200, 20),
            ID_SECTION_FIRST + 1,
        ),
        control(ControlClass::Label, ControlText::Words("Orientation"), (24, 191, 162, 20), 0),
        control(
            ControlClass::Segment,
            ControlText::Words("Vertical"),
            (186, 186, 121, 30),
            ID_SEG_ORIENT as int,
        ),
        control(
            ControlClass::Segment,
            ControlText::Words("Horizontal"),
            (313, 186, 121, 30),
            ID_SEG_ORIENT + 1,
        ),
        control(ControlClass::Label, ControlText::Words("Position"), (24, 229, 162, 20), 0),
        control(
            ControlClass::Segment,
            ControlText::Words("Above tray"),
            (186, 224, 78, 30),
            ID_SEG_POSITION as int,
        ),
        control(
            ControlClass::Segment,
            ControlText::Words("Floating"),
            (270, 224, 78, 30),
            ID_SEG_POSITION + 1,
        ),
        control(
            ControlClass::Segment,
            ControlText::Words("Custom"),
            (354, 224, 78, 30),
            ID_SEG_POSITION + 2,
        ),
        control(ControlClass::Label, ControlText::Words("Accent color"), (24, 265, 162, 20), 0),
        control(
            ControlClass::Button,
            ControlText::Words("Choose color"),
            (186, 262, 248, 26),
            ID_BTN_COLOR as int,
        ),
        control(
            ControlClass::Label,
            ControlText::Words("Match Windows accent"),
            (24, 299, 162, 20),
            0,
        ),
        control(
            ControlClass::Toggle,
            ControlText::Words("Match Windows accent"),
            (186, 294, 46, 26),
            ID_CHK_ACCENT_SYS as int,
        ),
        control(ControlClass::Label, ControlText::Words("Opacity (%)"), (24, 329, 162, 20), 0),
        control(
            ControlClass::Number,
            ControlText::Value(Field::Opacity),
            (186, 326, 248, 26),
            ID_EDIT_OPACITY as int,
        ),
        control(
            ControlClass::Label,
            ControlText::Words("PREVIEW"),
            (24, 368, 200, 20),
            ID_SECTION_FIRST + 2,
        ),
    ]
}

/// The upper part of the right column.
pub open spec fn behavior() -> Seq<Control> {
    seq![
        control(
            ControlClass::Label,
            ControlText::Words("BEHAVIOR"),
            (472, 92, 200, 20),
            ID_SECTION_FIRST + 3,
        ),
        control(ControlClass::Label, ControlText::Words("Hide after (ms)"), (472, 121, 196, 20), 0),
        control(
            ControlClass::Number,
            ControlText::Value(Field::HideMs),
            (668, 118, 204, 26),
            ID_EDIT_HIDE as int,
        ),
        control(
            ControlClass::Label,
            ControlText::Words("Fader range (dB)"),
            (472, 153, 196, 20),
            0,
        ),
        control(
            ControlClass::Edit,
            ControlText::Value(Field::MinDb),
            (668, 150, 96, 26),
            ID_EDIT_MINDB as int,
        ),
        control(
            ControlClass::Edit,
            ControlText::Value(Field::MaxDb),
            (776, 150, 96, 26),
            ID_EDIT_MAXDB as int,
        ),
        control(
            ControlClass::Label,
            ControlText::Words("Step per notch (dB)"),
            (472, 185, 196, 20),
            0,
        ),
        control(
            ControlClass::Edit,
            ControlText::Value(Field::StepDb),
            (668, 182, 204, 26),
            ID_EDIT_STEP as int,
        ),
        control(
            ControlClass::Label,
            ControlText::Words("Hide during fullscreen"),
            (472, 219, 196, 20),
            0,
        ),
        control(
            ControlClass::Toggle,
            ControlText::Words("Hide during fullscreen"),
            (668, 214, 46, 26),
            ID_CHK_FULLSCREEN as int,
        ),
        control(
            ControlClass::Label,
            ControlText::Words("Follow any channel that moves"),
            (472, 251, 196, 20),
            0,
        ),
        control(
            ControlClass::Toggle,
            ControlText::Words("Follow any channel that moves"),
            (668, 246, 46, 26),
            ID_CHK_WATCH as int,
        ),
        control(
            ControlClass::Label,
            ControlText::Words("Scroll tray icon for volume"),
            (472, 283, 196, 20),
            0,
        ),
        control(
            ControlClass::Toggle,
            ControlText::Words("Scroll tray icon for volume"),
            (668, 278, 46, 26),
            ID_CHK_SCROLL as int,
        ),
        control(
            ControlClass::Label,
            ControlText::Words("Start with Windows"),
            (472, 315, 196, 20),
            0,
        ),
        control(
            ControlClass::Toggle,
            ControlText::Words("Start with Windows"),
            (668, 310, 46, 26),
            ID_CHK_AUTOSTART as int,
        ),
        control(ControlClass::Label, ControlText::Words("Debug log"), (472, 347, 196, 20), 0),
        control(
            ControlClass::Toggle,
            ControlText::Words("Debug log"),
            (668, 342, 46, 26),
            ID_CHK_DEBUG as int,
        ),
    ]
}

/// The lower part of the right column.
pub open spec fn hotkeys() -> Seq<Control> {
    seq![
        control(
            ControlClass::Label,
            ControlText::Words("HOTKEYS"),
            (472, 384, 200, 20),
            ID_SECTION_FIRST + 4,
        ),
        control(
            ControlClass::Label,
            ControlText::Words("Enable global hotkeys"),
            (472, 415, 196, 20),
            0,
        ),
        control(
            ControlClass::Toggle,
            ControlText::Words("Enable global hotkeys"),
            (668, 410, 46, 26),
            ID_CHK_HOTKEYS as int,
        ),
        control(ControlClass::Label, ControlText::Words("Volume up"), (472, 445, 196, 20), 0),
        control(ControlClass::Hotkey, ControlText::Words(""), (668, 442, 204, 26), ID_HK_UP as int),
        control(ControlClass::Label, ControlText::Words("Volume down"), (472, 477, 196, 20), 0),
        control(
            ControlClass::Hotkey,
            ControlText::Words(""),
            (668, 474, 204, 26),
            ID_HK_DOWN as int,
        ),
        control(ControlClass::Label, ControlText::Words("Mute"), (472, 509, 196, 20), 0),
        control(
            ControlClass::Hotkey,
            ControlText::Words(""),
            (668, 506, 204, 26),
            ID_HK_MUTE as int,
        ),
    ]
}

/// The row of buttons.
pub open spec fn footer() -> Seq<Control> {
    seq![
        control(
            ControlClass::Button,
            ControlText::Words("Reset"),
            (24, 556, 96, 34),
            ID_BTN_RESET as int,
        ),
        control(
            ControlClass::Button,
            ControlText::Words("Test"),
            (128, 556, 96, 34),
            ID_BTN_TEST as int,
        ),
        control(
            ControlClass::Button,
            ControlText::Words("Cancel"),
            (672, 556, 96, 34),
            ID_BTN_CANCEL as int,
        ),
        control(
            ControlClass::Button,
            ControlText::Words("Save"),
            (776, 556, 96, 34),
            ID_BTN_SAVE as int,
        ),
    ]
}

/// The controls of the window, in tab order.
pub open spec fn layout() -> Seq<Control> {
    left_column() + behavior() + hotkeys() + footer()
}

/// The height of the window's inside.
pub const CLIENT_H: i32 = 610;

/// One column of label + control rows.
struct Column {
    x: i32,
    label_w: i32,
    control_w: i32,
}

impl Column {
    /// Where the column's controls start.
    fn cx(&self) -> (r: i32)
        requires
            0 <= self.x <= 1000,
            0 <= self.label_w <= 1000,
        ensures
            r == self.x + self.label_w,
    {
        self.x + self.label_w
    }
}

fn add_control(
    out: &mut Vec<Control>,
    class: ControlClass,
    text: ControlText,
    area: (i32, i32, i32, i32),
    id: i32,
)
    ensures
        final(out)@ == old(out)@.push(
            control(
                class,
                text,
                (area.0 as int, area.1 as int, area.2 as int, area.3 as int),
                id as int,
            ),
        ),
{
    out.push(Control { class, text, x: area.0, y: area.1, w: area.2, h: area.3, id });
}

fn label(out: &mut Vec<Control>, text: &'static str, x: i32, y: i32, w: i32, id: i32)
    ensures
        final(out)@ == old(out)@.push(
            control(
                ControlClass::Label,
                ControlText::Words(text),
                (x as int, y as int, w as int, 20),
                id as int,
            ),
        ),
{
    add_control(out, ControlClass::Label, ControlText::Words(text), (x, y, w, 20), id);
}

fn toggle(out: &mut Vec<Control>, text: &'static str, x: i32, y: i32, id: i32)
    ensures
        final(out)@ == old(out)@.push(
            control(
                ControlClass::Toggle,
                ControlText::Words(text),
                (x as int, y as int, 46, 26),
                id as int,
            ),
        ),
{
    add_control(out, ControlClass::Toggle, ControlText::Words(text), (x, y, 46, 26), id);
}

/// The width of one segment of a row: `n` of them with gaps of 6 in between.
fn segment_width(total: i32, n: i32) -> (r: i32)
    requires
        0 <= total <= 1000,
        0 < n <= 10,
        6 * (n - 1) <= total,
    ensures
        r == (total - 6 * (n - 1)) / n as int,
        0 <= r <= 1000,
{
    proof {
        let (a, b) = (total - 6 * (n - 1), n as int);
        lemma_div_pos_is_pos(a, b);
        lemma_div_is_ordered_by_denominator(a, 1, b);
    }
    (total - 6 * (n - 1)) / n
}

/// The distance from one row to the next, and the height of a field.
const ROW: i32 = 32;

const FIELD_H: i32 = 26;

const SECTION_GAP: i32 = 42;

const TOP: i32 = 92;

fn left_controls() -> (r: (Vec<Control>, i32))
    ensures
        r.0@ == left_column(),
        r.1 == PREVIEW_BOTTOM,
{
    let mut out: Vec<Control> = Vec::new();
    let left = Column { x: 24, label_w: 162, control_w: 248 };
    let mut y: i32 = TOP;
    label(&mut out, "CHANNEL", left.x, y, 200, ID_SECTION_FIRST);
    y += 26;
    add_control(
        &mut out,
        ControlClass::List,
        ControlText::Words(""),
        (left.x, y, left.label_w + left.control_w, 320),
        ID_COMBO_CHANNEL,
    );
    y += SECTION_GAP;
    label(&mut out, "APPEARANCE", left.x, y, 200, ID_SECTION_FIRST + 1);
    y += 26;
    label(&mut out, "Orientation", left.x, y + 5, left.label_w, 0);
    let w2: i32 = segment_width(left.control_w, 2);
    let cx: i32 = left.cx();
    add_control(
        &mut out,
        ControlClass::Segment,
        ControlText::Words("Vertical"),
        (cx, y, w2, 30),
        ID_SEG_ORIENT,
    );
    add_control(
        &mut out,
        ControlClass::Segment,
        ControlText::Words("Horizontal"),
        (cx + (w2 + 6), y, w2, 30),
        ID_SEG_ORIENT + 1,
    );
    y += 38;
    label(&mut out, "Position", left.x, y + 5, left.label_w, 0);
    let w3: i32 = segment_width(left.control_w, 3);
    add_control(
        &mut out,
        ControlClass::Segment,
        ControlText::Words("Above tray"),
        (cx, y, w3, 30),
        ID_SEG_POSITION,
    );
    add_control(
        &mut out,
        ControlClass::Segment,
        ControlText::Words("Floating"),
        (cx + (w3 + 6), y, w3, 30),
        ID_SEG_POSITION + 1,
    );
    add_control(
        &mut out,
        ControlClass::Segment,
        ControlText::Words("Custom"),
        (cx + (w3 + 6) * 2, y, w3, 30),
        ID_SEG_POSITION + 2,
    );
    y += 38;
    label(&mut out, "Accent color", left.x, y + 3, left.label_w, 0);
    add_control(
        &mut out,
        ControlClass::Button,
        ControlText::Words("Choose color"),
        (cx, y, left.control_w, FIELD_H),
        ID_BTN_COLOR,
    );
    y += ROW;
    label(&mut out, "Match Windows accent", left.x, y + 5, left.label_w, 0);
    toggle(&mut out, "Match Windows accent", cx, y, ID_CHK_ACCENT_SYS);
    y += ROW;
    label(&mut out, "Opacity (%)", left.x, y + 3, left.label_w, 0);
    add_control(
        &mut out,
        ControlClass::Number,
        ControlText::Value(Field::Opacity),
        (cx, y, left.control_w, FIELD_H),
        ID_EDIT_OPACITY,
    );
    y += SECTION_GAP;
    label(&mut out, "PREVIEW", left.x, y, 200, ID_SECTION_FIRST + 2);
    y += 24;
    (out, y + 124)
}

fn behavior_controls() -> (r: (Vec<Control>, i32))
    ensures
        r.0@ == behavior(),
        r.1 == 384,
{
    let mut out: Vec<Control> = Vec::new();
    let right = Column { x: 472, label_w: 196, control_w: 204 };
    let rx: i32 = right.cx();
    let mut y: i32 = TOP;
    label(&mut out, "BEHAVIOR", right.x, y, 200, ID_SECTION_FIRST + 3);
    y += 26;
    label(&mut out, "Hide after (ms)", right.x, y + 3, right.label_w, 0);
    add_control(
        &mut out,
        ControlClass::Number,
        ControlText::Value(Field::HideMs),
        (rx, y, right.control_w, FIELD_H),
        ID_EDIT_HIDE,
    );
    y += ROW;
    label(&mut out, "Fader range (dB)", right.x, y + 3, right.label_w, 0);
    let half: i32 = (right.control_w - 12) / 2;
    add_control(
        &mut out,
        ControlClass::Edit,
        ControlText::Value(Field::MinDb),
        (rx, y, half, FIELD_H),
        ID_EDIT_MINDB,
    );
    add_control(
        &mut out,
        ControlClass::Edit,
        ControlText::Value(Field::MaxDb),
        (rx + half + 12, y, half, FIELD_H),
        ID_EDIT_MAXDB,
    );
    y += ROW;
    label(&mut out, "Step per notch (dB)", right.x, y + 3, right.label_w, 0);
    add_control(
        &mut out,
        ControlClass::Edit,
        ControlText::Value(Field::StepDb),
        (rx, y, right.control_w, FIELD_H),
        ID_EDIT_STEP,
    );
    y += ROW;
    label(&mut out, "Hide during fullscreen", right.x, y + 5, right.label_w, 0);
    toggle(&mut out, "Hide during fullscreen", rx, y, ID_CHK_FULLSCREEN);
    y += ROW;
    label(&mut out, "Follow any channel that moves", right.x, y + 5, right.label_w, 0);
    toggle(&mut out, "Follow any channel that moves", rx, y, ID_CHK_WATCH);
    y += ROW;
    label(&mut out, "Scroll tray icon for volume", right.x, y + 5, right.label_w, 0);
    toggle(&mut out, "Scroll tray icon for volume", rx, y, ID_CHK_SCROLL);
    y += ROW;
    label(&mut out, "Start with Windows", right.x, y + 5, right.label_w, 0);
    toggle(&mut out, "Start with Windows", rx, y, ID_CHK_AUTOSTART);
    y += ROW;
    label(&mut out, "Debug log", right.x, y + 5, right.label_w, 0);
    toggle(&mut out, "Debug log", rx, y, ID_CHK_DEBUG);
    y += SECTION_GAP;
    (out, y)
}

fn hotkey_controls(top: i32) -> (r: (Vec<Control>, i32))
    requires
        top == 384,
    ensures
        r.0@ == hotkeys(),
        r.1 == 532,
{
    let mut out: Vec<Control> = Vec::new();
    let right = Column { x: 472, label_w: 196, control_w: 204 };
    let rx: i32 = right.cx();
    let mut y: i32 = top;
    label(&mut out, "HOTKEYS", right.x, y, 200, ID_SECTION_FIRST + 4);
    y += 26;
    label(&mut out, "Enable global hotkeys", right.x, y + 5, right.label_w, 0);
    toggle(&mut out, "Enable global hotkeys", rx, y, ID_CHK_HOTKEYS);
    y += ROW;
    label(&mut out, "Volume up", right.x, y + 3, right.label_w, 0);
    add_control(
        &mut out,
        ControlClass::Hotkey,
        ControlText::Words(""),
        (rx, y, right.control_w, FIELD_H),
        ID_HK_UP,
    );
    y += ROW;
    label(&mut out, "Volume down", right.x, y + 3, right.label_w, 0);
    add_control(
        &mut out,
        ControlClass::Hotkey,
        ControlText::Words(""),
        (rx, y, right.control_w, FIELD_H),
        ID_HK_DOWN,
    );
    y += ROW;
    label(&mut out, "Mute", right.x, y + 3, right.label_w, 0);
    add_control(
        &mut out,
        ControlClass::Hotkey,
        ControlText::Words(""),
        (rx, y, right.control_w, FIELD_H),
        ID_HK_MUTE,
    );
    (out, y + FIELD_H)
}

fn footer_controls(foot: i32) -> (r: Vec<Control>)
    requires
        foot == 556,
    ensures
        r@ == footer(),
{
    let mut out: Vec<Control> = Vec::new();
    let footer_right: i32 = 472 + 196 + 204;
    add_control(
        &mut out,
        ControlClass::Button,
        ControlText::Words("Reset"),
        (24, foot, 96, 34),
        ID_BTN_RESET,
    );
    add_control(
        &mut out,
        ControlClass::Button,
        ControlText::Words("Test"),
        (24 + 104, foot, 96, 34),
        ID_BTN_TEST,
    );
    add_control(
        &mut out,
        ControlClass::Button,
        ControlText::Words("Cancel"),
        (footer_right - 200, foot, 96, 34),
        ID_BTN_CANCEL,
    );
    add_control(
        &mut out,
        ControlClass::Button,
        ControlText::Words("Save"),
        (footer_right - 96, foot, 96, 34),
        ID_BTN_SAVE,
    );
    out
}

fn append(out: &mut Vec<Control>, more: Vec<Control>)
    ensures
        final(out)@ == old(out)@ + more@,
{
    let mut i: usize = 0;
    let ghost start = out@;
    while i < more.len()
        invariant
            i <= more@.len(),
            out@ == start + more@.take(i as int),
        decreases more@.len() - i,
    {
        out.push(more[i]);
        assert(out@ == start + more@.take(i + 1));
        i += 1;
    }
    assert(more@.take(i as int) == more@);
}

/// Every control of the window and the height its inside needs.
pub fn build_controls() -> (r: (Vec<Control>, i32))
    ensures
        r.0@ == layout(),
        r.1 == CLIENT_H,
{
    let (mut out, left_bottom) = left_controls();
    let (right, top) = behavior_controls();
    let (more, right_bottom) = hotkey_controls(top);
    let foot: i32 = (if left_bottom > right_bottom {
        left_bottom
    } else {
        right_bottom
    }) + 24;
    append(&mut out, right);
    append(&mut out, more);
    append(&mut out, footer_controls(foot));
    (out, foot + 34 + 20)
}

/// Where the preview ends.
pub const PREVIEW_BOTTOM: i32 = 516;

/// The place of the preview, in pixels.
pub open spec fn preview_area(dpi: int) -> (int, int, int, int) {
    (pixels(24, dpi), pixels(392, dpi), pixels(434, dpi), pixels(516, dpi))
}

impl Ui {
    /// A length of the window in pixels of its display.
    pub fn px(&self, v: i32) -> (r: i32)
        requires
            i32::MIN <= v * self.dpi <= i32::MAX,
        ensures
            r == pixels(v as int, self.dpi as int),
    {
        let n: i64 = v as i64 * self.dpi as i64;
        if n < 0 {
            -((-n) / 96) as i32
        } else {
            (n / 96) as i32
        }
    }

    /// Sets where the preview stands.
    pub fn place_preview(&mut self)
        requires
            i32::MIN <= PREVIEW_BOTTOM * old(self).dpi <= i32::MAX,
        ensures
            final(self).preview_rect.left == preview_area(old(self).dpi as int).0,
            final(self).preview_rect.top == preview_area(old(self).dpi as int).1,
            final(self).preview_rect.right == preview_area(old(self).dpi as int).2,
            final(self).preview_rect.bottom == preview_area(old(self).dpi as int).3,
            *final(self) == (Ui { preview_rect: final(self).preview_rect, ..*old(self) }),
    {
        self.preview_rect = Rect {
            left: self.px(24),
            top: self.px(392),
            right: self.px(434),
            bottom: self.px(PREVIEW_BOTTOM),
        };
    }
}

} // verus!
