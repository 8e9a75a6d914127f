//! The logic of an on-screen volume display for Voicemeeter.
//!
//! - `config`, `settings_file`, `settings_laws`: the settings, their file, and
//!   the channels of each edition.
//! - `vmr`, `state`, `app_state`, `poll`, `time`: the link to Voicemeeter, the
//!   channel on show, and what each event does to the program's state;
//!   `link_laws`, `control_laws` and `caption_laws` say what holds of them.
//! - `scale`, `osd`, `draw`, `frame`, `motion`, `gfx`: the bar, from the level
//!   it shows to the place and the shapes of a frame; `level_laws`,
//!   `frame_laws`, `card_laws`, `animation_laws` and `travel` say what can be
//!   seen of it.
//! - `messages`, `tray`, `settings_ui`, `settings_actions`, `settings_paint`,
//!   `layout`: the windows, what their messages mean, and the settings window's
//!   model, controls and looks; `event_laws`, `window_laws` and `paint_laws`
//!   say what they promise.
//! - `single`, `rounding`, `precision`, `decimal`, `shortest`, `bignat`: numbers
//!   of single precision as bit patterns, with exact arithmetic, reading and
//!   printing, and how far they are from exact numbers.
//! - `text`, `utf16`, `log`, `install`: text, the diagnostic log, and the
//!   installed copy.
//!
//! Windows, drawing calls and the Remote API itself live in the program around
//! the library, which hands it plain values.

pub mod animation_laws;
pub mod app_state;
pub mod bignat;
pub mod caption_laws;
pub mod card_laws;
pub mod config;
pub mod control_laws;
pub mod decimal;
pub mod draw;
pub mod event_laws;
pub mod frame;
pub mod frame_laws;
pub mod gfx;
pub mod install;
pub mod layout;
pub mod level_laws;
pub mod link_laws;
pub mod log;
pub mod messages;
pub mod motion;
pub mod osd;
pub mod paint_laws;
pub mod poll;
pub mod precision;
pub mod rounding;
pub mod scale;
pub mod settings_actions;
pub mod settings_file;
pub mod settings_laws;
pub mod settings_paint;
pub mod settings_ui;
pub mod shortest;
pub mod single;
pub mod state;
pub mod text;
pub mod time;
pub mod travel;
pub mod tray;
pub mod utf16;
pub mod vmr;
pub mod window_laws;
