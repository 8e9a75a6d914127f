//! The opt-in diagnostic log, so "it isn't showing" can be investigated from
//! the file rather than by instrumenting a live machine.

use crate::text::{padded_text, padded_unsigned_text};
use vstd::prelude::*;

verus! {

/// Size at which the log is rotated to `debug.log.1`.
pub const MAX_BYTES: u64 = 0x10_0000;

/// Whether the log is written.
#[derive(Debug)]
pub struct LogSwitch {
    on: bool,
}

impl LogSwitch {
    pub closed spec fn is_on(&self) -> bool {
        self.on
    }

    /// A log that is not written.
    pub fn off() -> (r: LogSwitch)
        ensures
            !r.is_on(),
    {
        LogSwitch { on: false }
    }
}

pub fn set_enabled(switch: &mut LogSwitch, on: bool)
    ensures
        final(switch).is_on() == on,
{
    switch.on = on;
}

pub fn enabled(switch: &LogSwitch) -> (r: bool)
    ensures
        r == switch.is_on(),
{
    switch.on
}

/// Whether a log of the given size is put aside before more is written: one
/// previous log is kept around instead of growing without bound. A log that
/// is not there has no size.
pub fn needs_rotation(size: Option<u64>) -> (r: bool)
    ensures
        r == match size {
            Some(n) => n > MAX_BYTES,
            None => false,
        },
{
    match size {
        Some(n) => n > MAX_BYTES,
        None => false,
    }
}

/// A time of day and a message.
pub open spec fn entry_spec(
    hour: nat,
    minute: nat,
    second: nat,
    millis: nat,
    message: Seq<char>,
) -> Seq<char> {
    padded_text(hour, 2) + ":"@ + padded_text(minute, 2) + ":"@ + padded_text(second, 2) + "."@
        + padded_text(millis, 3) + "  "@ + message
}

/// A line of the log, without its end.
pub fn entry(hour: u16, minute: u16, second: u16, millis: u16, message: &str) -> (r: String)
    ensures
        r@ == entry_spec(hour as nat, minute as nat, second as nat, millis as nat, message@),
{
    let mut out: String = padded_unsigned_text(hour as u64, 2);
    out.append(":");
    out.append(padded_unsigned_text(minute as u64, 2).as_str());
    out.append(":");
    out.append(padded_unsigned_text(second as u64, 2).as_str());
    out.append(".");
    out.append(padded_unsigned_text(millis as u64, 3).as_str());
    out.append("  ");
    out.append(message);
    out
}

} // verus!
