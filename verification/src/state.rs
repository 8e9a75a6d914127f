//! The state of the program between events: the channel on show, its last
//! readings, the bar's animation, and the health of the link.

use crate::config::{
    all_channels, channels, param_spec, ChannelKind, Settings, FADER_MAX_DB, FADER_MIN_DB,
};
use crate::gfx::Caption;
use crate::scale::{db_text, format_db, gain_to_percent, percent};
use crate::single::{of_bits, single_of, zero, Single, HALF, ONE};
use crate::text::{int_text, signed_text};
use crate::rounding::{lemma_one_scaled, lemma_pow2_big, lemma_rank_order, lemma_sign};
use vstd::arithmetic::power2::{lemma_pow2_adds, lemma_pow2_unfold, pow2};
use vstd::prelude::*;

verus! {

/// ~2s of failed polls before trying to log in again.
pub const STALE_POLLS: u32 = 50;

/// Seconds before the first reconnect attempt is repeated. Attempts back off
/// from here up to the cap, so a Voicemeeter that isn't running (or a channel
/// that doesn't exist) doesn't churn.
pub const RETRY_MIN_SECS: u64 = 2;

pub const RETRY_MAX_SECS: u64 = 60;

/// How often the program polls, and draws a frame while the bar is shown.
pub const POLL_MS: u32 = 40;

pub const FRAME_MS: u32 = 16;

/// Polls between two looks at where the tray icon sits.
pub const TRAY_TICKS: u32 = 50;

// ---------------------------------------------------------------------------
// Channels that are watched
// ---------------------------------------------------------------------------

/// One strip or bus polled by the watch-all scan.
pub struct WatchTarget {
    pub kind: ChannelKind,
    pub index: i32,
    pub gain: String,
    pub mute: String,
    pub last_gain: Option<Single>,
    pub last_mute: Option<Single>,
}

impl WatchTarget {
    /// A target that names its channel's parameters and has not been read.
    pub open spec fn is_fresh(self, kind: ChannelKind, index: i32) -> bool {
        &&& self.names(kind, index)
        &&& self.last_gain is None
        &&& self.last_mute is None
    }

    pub open spec fn names(self, kind: ChannelKind, index: i32) -> bool {
        &&& self.kind == kind
        &&& self.index == index
        &&& self.gain@ == param_spec(kind, index as int, "Gain"@)
        &&& self.mute@ == param_spec(kind, index as int, "Mute"@)
    }
}

/// A fresh target for each channel of the edition, in order.
pub open spec fn are_fresh_targets(targets: Seq<WatchTarget>, edition: int) -> bool {
    &&& targets.len() == channels(edition).len()
    &&& forall|i: int|
        0 <= i < targets.len() ==> (#[trigger] targets[i]).is_fresh(
            channels(edition)[i].0,
            channels(edition)[i].1,
        )
}

/// All channels the running edition exposes, in a fixed scan order.
pub fn build_watch_targets(edition: i32) -> (r: Vec<WatchTarget>)
    ensures
        are_fresh_targets(r@, edition as int),
{
    let all = all_channels(edition);
    let mut out: Vec<WatchTarget> = Vec::new();
    let mut i: usize = 0;
    while i < all.len()
        invariant
            i <= all@.len(),
            all@ == channels(edition as int),
            out@.len() == i,
            forall|j: int|
                0 <= j < i ==> (#[trigger] out@[j]).is_fresh(
                    channels(edition as int)[j].0,
                    channels(edition as int)[j].1,
                ),
        decreases all@.len() - i,
    {
        let (kind, index) = all[i];
        out.push(
            WatchTarget {
                kind,
                index,
                gain: Settings::gain_param(kind, index),
                mute: Settings::mute_param(kind, index),
                last_gain: None,
                last_mute: None,
            },
        );
        i += 1;
    }
    out
}

/// A reading differs from the one before it. A first reading does not: it is
/// the baseline.
pub open spec fn is_moved(before: Option<Single>, now: Option<Single>) -> bool {
    match (before, now) {
        (Some(a), Some(b)) => !a.equals_spec(b),
        _ => false,
    }
}

fn moved(before: Option<Single>, now: Option<Single>) -> (r: bool)
    ensures
        r == is_moved(before, now),
{
    match (before, now) {
        (Some(a), Some(b)) => !a.equals(b),
        _ => false,
    }
}

/// The last successful reading.
pub open spec fn latest(before: Option<Single>, now: Option<Single>) -> Option<Single> {
    if now is Some {
        now
    } else {
        before
    }
}

/// Whether a target's gain or mute moved.
pub open spec fn target_moved(
    target: WatchTarget,
    reading: (Option<Single>, Option<Single>),
) -> bool {
    is_moved(target.last_gain, reading.0) || is_moved(target.last_mute, reading.1)
}

/// The first of the targets that moved.
pub open spec fn first_moved(
    targets: Seq<WatchTarget>,
    readings: Seq<(Option<Single>, Option<Single>)>,
) -> Option<(ChannelKind, i32)>
    decreases targets.len(),
{
    if targets.len() == 0 || readings.len() == 0 {
        None
    } else if target_moved(targets[0], readings[0]) {
        Some((targets[0].kind, targets[0].index))
    } else {
        first_moved(targets.drop_first(), readings.drop_first())
    }
}

/// A target after a reading: the same channel, its snapshots brought up to
/// date.
pub open spec fn is_snapshot(
    after: WatchTarget,
    before: WatchTarget,
    reading: (Option<Single>, Option<Single>),
) -> bool {
    &&& after.kind == before.kind
    &&& after.index == before.index
    &&& after.gain@ == before.gain@
    &&& after.mute@ == before.mute@
    &&& after.last_gain == latest(before.last_gain, reading.0)
    &&& after.last_mute == latest(before.last_mute, reading.1)
}

// ---------------------------------------------------------------------------
// State
// ---------------------------------------------------------------------------

/// Where a grab started, so a click can be told apart from a real drag.
#[derive(Clone, Copy, Debug)]
pub struct DragAnchor {
    pub cursor: (i32, i32),
    pub window: (i32, i32),
    pub moved: bool,
}

/// The channel on show and what is known of it.
pub struct Channel {
    pub kind: ChannelKind,
    pub index: i32,
    /// Parameter names, built once per change of channel rather than on every
    /// poll.
    pub gain: String,
    pub mute: String,
    /// "A1", "Strip 2", or the user's own Voicemeeter label.
    pub label: String,
    pub last_gain: Option<Single>,
    pub last_mute: Option<Single>,
    pub percent: i32,
    pub muted: bool,
    /// Whether the last poll failed to read the gain.
    pub read_failures: u32,
}

impl Channel {
    pub open spec fn names(self, kind: ChannelKind, index: i32) -> bool {
        &&& self.kind == kind
        &&& self.index == index
        &&& self.gain@ == param_spec(kind, index as int, "Gain"@)
        &&& self.mute@ == param_spec(kind, index as int, "Mute"@)
    }

    /// The same channel, under the same names.
    pub open spec fn same_channel(self, other: Channel) -> bool {
        &&& self.kind == other.kind
        &&& self.index == other.index
        &&& self.gain@ == other.gain@
        &&& self.mute@ == other.mute@
        &&& self.label@ == other.label@
    }

    /// What a reading makes of the channel's values.
    pub open spec fn is_read(
        self,
        before: Channel,
        settings: Settings,
        gain: Option<Single>,
        mute: Option<Single>,
    ) -> bool {
        &&& self.read_failures == if gain is None {
            1int
        } else {
            0
        }
        &&& self.last_gain == latest(before.last_gain, gain)
        &&& self.last_mute == latest(before.last_mute, mute)
        &&& self.percent == match gain {
            Some(g) => percent(g, settings.min_db, settings.max_db),
            None => before.percent as int,
        }
        &&& self.muted == match mute {
            Some(m) => of_bits(HALF).at_most_spec(m),
            None => before.muted,
        }
    }

    /// Whether a reading is news: a value that was unknown or different.
    pub open spec fn is_news(self, gain: Option<Single>, mute: Option<Single>) -> bool {
        ||| gain is Some && (self.last_gain is None || is_moved(self.last_gain, gain))
        ||| mute is Some && (self.last_mute is None || is_moved(self.last_mute, mute))
    }

    /// The tray tooltip, e.g. "A1  -26.0 dB (47%)".
    pub open spec fn tip(self) -> Seq<char> {
        if self.muted {
            self.label@ + "  Muted"@
        } else {
            self.label@ + "  "@ + (match self.last_gain {
                Some(g) => db_text(g),
                None => ""@,
            }) + " ("@ + int_text(self.percent as int) + "%)"@
        }
    }

    /// Where `steps` notches take the gain: within the fader's real limits,
    /// not the display range, so a narrowed range can't stop the wheel from
    /// reaching the ends.
    pub open spec fn nudged(self, settings: Settings, steps: int) -> Option<Single> {
        match self.last_gain {
            Some(g) => Some(
                g.plus_spec(single_of(steps).times_spec(settings.step_db)).clamped(
                    of_bits(FADER_MIN_DB),
                    of_bits(FADER_MAX_DB),
                ),
            ),
            None => None,
        }
    }

    /// A channel that is not watched yet: it has no parameter names, and
    /// nothing of it has been read.
    pub fn unread(kind: ChannelKind, index: i32) -> (r: Channel)
        ensures
            r.kind == kind,
            r.index == index,
            r.gain@ == ""@,
            r.mute@ == ""@,
            r.label@ == ""@,
            r.last_gain is None,
            r.last_mute is None,
            r.percent == 0,
            !r.muted,
            r.read_failures == 0,
    {
        Channel {
            kind,
            index,
            gain: String::from_str(""),
            mute: String::from_str(""),
            label: String::from_str(""),
            last_gain: None,
            last_mute: None,
            percent: 0,
            muted: false,
            read_failures: 0,
        }
    }

    /// Takes over a reading of the channel; says whether it is news.
    pub fn refresh(
        &mut self,
        settings: &Settings,
        gain: Option<Single>,
        mute: Option<Single>,
    ) -> (changed: bool)
        ensures
            changed == old(self).is_news(gain, mute),
            final(self).same_channel(*old(self)),
            final(self).is_read(*old(self), *settings, gain, mute),
    {
        self.read_failures = if gain.is_none() {
            1
        } else {
            0
        };
        let mut changed: bool = false;
        if let Some(g) = gain {
            if self.last_gain.is_none() || moved(self.last_gain, gain) {
                changed = true;
            }
            self.last_gain = Some(g);
            self.percent = gain_to_percent(g, settings.min_db, settings.max_db);
        }
        if let Some(m) = mute {
            if self.last_mute.is_none() || moved(self.last_mute, mute) {
                changed = true;
            }
            self.last_mute = Some(m);
            self.muted = Single::from_bits(HALF).at_most(m);
        }
        changed
    }

    /// Live tooltip, e.g. "A1  -26.0 dB (47%)".
    pub fn tooltip(&self) -> (r: String)
        ensures
            r@ == self.tip(),
    {
        let mut out: String = String::from_str(self.label.as_str());
        if self.muted {
            out.append("  Muted");
        } else {
            out.append("  ");
            out.append(format_db(self.last_gain).as_str());
            out.append(" (");
            out.append(signed_text(self.percent as i64).as_str());
            out.append("%)");
        }
        out
    }

    /// The gain that `steps` wheel notches or presses ask for, where the
    /// present one is known.
    pub fn nudge(&self, settings: &Settings, steps: i32) -> (r: Option<Single>)
        ensures
            r == self.nudged(*settings, steps as int),
    {
        match self.last_gain {
            Some(current) => Some(
                current.plus(Single::from_i32(steps).times(settings.step_db)).clamp_between(
                    Single::from_bits(FADER_MIN_DB),
                    Single::from_bits(FADER_MAX_DB),
                ),
            ),
            None => None,
        }
    }

    /// The mute value that turns the channel's mute over.
    pub open spec fn turned_mute(self) -> Single {
        if self.muted {
            zero(false)
        } else {
            of_bits(ONE)
        }
    }

    pub fn toggle_mute(&self) -> (r: Single)
        ensures
            r == self.turned_mute(),
    {
        if self.muted {
            Single::from_bits(0)
        } else {
            Single::from_bits(ONE)
        }
    }

    /// The text for the level: "Muted", or the percentage.
    pub open spec fn level_text(self) -> Seq<char> {
        if self.muted {
            "Muted"@
        } else {
            int_text(self.percent as int) + "%"@
        }
    }

    pub fn level_caption(&self) -> (r: String)
        ensures
            r@ == self.level_text(),
    {
        if self.muted {
            String::from_str("Muted")
        } else {
            percent_string(self.percent)
        }
    }

    /// What a piece of text in a drawing says; `control` is the text of the
    /// control being painted.
    pub open spec fn caption_text(self, what: Caption, control: Seq<char>) -> Seq<char> {
        match what {
            Caption::Channel => self.label@,
            Caption::Level => self.level_text(),
            Caption::Gain => match self.last_gain {
                Some(g) => db_text(g),
                None => ""@,
            },
            Caption::Percent(n) => int_text(n as int) + "%"@,
            Caption::Title => "Voicemeeter OSD"@,
            Caption::Subtitle => "On-screen volume display"@,
            Caption::Control => control,
        }
    }

    pub fn caption(&self, what: Caption, control: &str) -> (r: String)
        ensures
            r@ == self.caption_text(what, control@),
    {
        match what {
            Caption::Channel => String::from_str(self.label.as_str()),
            Caption::Level => self.level_caption(),
            Caption::Gain => format_db(self.last_gain),
            Caption::Percent(n) => percent_string(n),
            Caption::Title => String::from_str("Voicemeeter OSD"),
            Caption::Subtitle => String::from_str("On-screen volume display"),
            Caption::Control => String::from_str(control),
        }
    }
}

fn percent_string(n: i32) -> (r: String)
    ensures
        r@ == int_text(n as int) + "%"@,
{
    let mut out: String = signed_text(n as i64);
    out.append("%");
    out
}

/// Turning the mute over and reading it back gives the other state.
pub proof fn law_toggling_mute_turns_it_over(before: Channel, after: Channel, s: Settings)
    requires
        after.is_read(before, s, None, Some(before.turned_mute())),
    ensures
        after.muted == !before.muted,
        before.turned_mute().scaled() == 0 || before.turned_mute().scaled() == pow2(149),
{
    lemma_one_scaled();
    lemma_sign(zero(false));
}

/// Two readings give the same number: they are the same bits, or both a zero.
/// What is not a number is never the same.
pub open spec fn is_same_number(a: Single, b: Single) -> bool {
    &&& !a.is_nan() && !b.is_nan()
    &&& a.bits == b.bits || (a.bits % 0x8000_0000 == 0 && b.bits % 0x8000_0000 == 0)
}

/// A value was read that was unknown before or was another number.
pub open spec fn is_different(before: Option<Single>, now: Option<Single>) -> bool {
    now is Some && (before is None || !is_same_number(before->0, now->0))
}

/// A reading is news exactly if it has a value, of the gain or the mute, that
/// was unknown before or is a different number, be it larger or smaller. What
/// was read is remembered; where nothing could be read, what was known stays.
/// So the same numbers again are no news, and other ones are.
pub proof fn law_a_reading_is_news_exactly_if_a_value_changed(
    before: Channel,
    after: Channel,
    settings: Settings,
    gain: Option<Single>,
    mute: Option<Single>,
    next_gain: Option<Single>,
    next_mute: Option<Single>,
)
    requires
        after.is_read(before, settings, gain, mute),
    ensures
        before.is_news(gain, mute) <==> is_different(before.last_gain, gain) || is_different(
            before.last_mute,
            mute,
        ),
        after.last_gain == if gain is Some {
            gain
        } else {
            before.last_gain
        },
        after.last_mute == if mute is Some {
            mute
        } else {
            before.last_mute
        },
        !is_odd(gain) && !is_odd(mute) ==> !after.is_news(gain, mute),
        gain is Some && next_gain is Some && !is_same_number(gain->0, next_gain->0)
            ==> after.is_news(next_gain, next_mute),
        mute is Some && next_mute is Some && !is_same_number(mute->0, next_mute->0)
            ==> after.is_news(next_gain, next_mute),
{
}

/// What a reading shows: the channel is muted exactly if its mute was last
/// read as a half or more, and its level is the percentage of its gain on the
/// display range. A gain that could not be read counts as a failure.
pub proof fn law_a_reading_sets_mute_and_level(
    before: Channel,
    after: Channel,
    settings: Settings,
    gain: Option<Single>,
    mute: Option<Single>,
)
    requires
        after.is_read(before, settings, gain, mute),
    ensures
        mute is Some && mute->0.is_finite() ==> after.muted == (2 * mute->0.scaled() >= pow2(149)),
        mute is None ==> after.muted == before.muted,
        gain is Some ==> after.percent == percent(gain->0, settings.min_db, settings.max_db),
        gain is None ==> after.percent == before.percent,
        (after.read_failures == 0) == (gain is Some),
        after.read_failures <= 1,
{
    if mute is Some && mute->0.is_finite() {
        let half = of_bits(HALF);
        assert(half.step() == 125 && half.significand() == 0x80_0000);
        lemma_pow2_big();
        lemma_pow2_adds(23, 125);
        lemma_pow2_unfold(149);
        lemma_rank_order(half, mute->0);
    }
}

/// The scan reports a channel exactly if one has a value that is a different
/// number from the one it had, and then the first of those in the list.
pub proof fn law_a_scan_reports_the_first_channel_that_changed(
    targets: Seq<WatchTarget>,
    readings: Seq<(Option<Single>, Option<Single>)>,
)
    requires
        targets.len() == readings.len(),
    ensures
        match first_moved(targets, readings) {
            Some(c) => exists|i: int|
                0 <= i < targets.len() && #[trigger] has_changed(targets[i], readings[i]) && c == (
                targets[i].kind, targets[i].index) && forall|j: int|
                    0 <= j < i ==> !#[trigger] has_changed(targets[j], readings[j]),
            None => forall|i: int|
                0 <= i < targets.len() ==> !#[trigger] has_changed(targets[i], readings[i]),
        },
    decreases targets.len(),
{
    if targets.len() > 0 && !target_moved(targets[0], readings[0]) {
        let (t, r) = (targets.drop_first(), readings.drop_first());
        law_a_scan_reports_the_first_channel_that_changed(t, r);
        assert(!has_changed(targets[0], readings[0]));
        match first_moved(t, r) {
            Some(c) => {
                let i = choose|i: int|
                    0 <= i < t.len() && #[trigger] has_changed(t[i], r[i]) && c == (
                    t[i].kind, t[i].index) && forall|j: int|
                        0 <= j < i ==> !#[trigger] has_changed(t[j], r[j]);
                assert(has_changed(targets[i + 1], readings[i + 1]));
                assert forall|j: int| 0 <= j < i + 1 implies !#[trigger] has_changed(
                    targets[j],
                    readings[j],
                ) by {
                    if j > 0 {
                        assert(!has_changed(t[j - 1], r[j - 1]));
                    }
                }
            },
            None => {
                assert forall|i: int| 0 <= i < targets.len() implies !#[trigger] has_changed(
                    targets[i],
                    readings[i],
                ) by {
                    if i > 0 {
                        assert(!has_changed(t[i - 1], r[i - 1]));
                    }
                }
            },
        }
    } else if targets.len() > 0 {
        assert(has_changed(targets[0], readings[0]));
    }
}

/// A value was known and another number was read.
pub open spec fn has_changed(
    target: WatchTarget,
    reading: (Option<Single>, Option<Single>),
) -> bool {
    ||| target.last_gain is Some && is_different(target.last_gain, reading.0)
    ||| target.last_mute is Some && is_different(target.last_mute, reading.1)
}

/// A nudged gain stays within the fader's limits.
pub proof fn law_nudges_stay_on_the_fader(channel: Channel, settings: Settings, steps: int)
    requires
        channel.last_gain is Some,
    ensures
        ({
            let target = channel.nudged(settings, steps)->0;
            target.is_nan() || (of_bits(FADER_MIN_DB).at_most_spec(target) && target.at_most_spec(
                of_bits(FADER_MAX_DB),
            ))
        }),
{
}

/// A first reading is a baseline: the scan reports no movement for targets
/// that were never read.
pub proof fn law_a_first_reading_is_no_movement(
    targets: Seq<WatchTarget>,
    readings: Seq<(Option<Single>, Option<Single>)>,
    edition: int,
)
    requires
        are_fresh_targets(targets, edition),
    ensures
        first_moved(targets, readings) is None,
{
    lemma_unread_do_not_move(targets, readings);
}

/// A reading that is not a number; it equals nothing, not even itself.
pub open spec fn is_odd(reading: Option<Single>) -> bool {
    reading is Some && reading->0.is_nan()
}

/// A change is reported once: reading the same values again after a scan
/// reports no movement.
pub proof fn law_a_steady_reading_is_no_movement(
    before: Seq<WatchTarget>,
    after: Seq<WatchTarget>,
    readings: Seq<(Option<Single>, Option<Single>)>,
)
    requires
        before.len() == after.len() == readings.len(),
        forall|i: int|
            0 <= i < after.len() ==> is_snapshot(#[trigger] after[i], before[i], readings[i]),
        forall|i: int|
            0 <= i < readings.len() ==> !is_odd((#[trigger] readings[i]).0) && !is_odd(
                readings[i].1,
            ),
    ensures
        first_moved(after, readings) is None,
    decreases after.len(),
{
    if after.len() > 0 {
        assert(is_snapshot(after[0], before[0], readings[0]));
        let (a, b, r) = (after.drop_first(), before.drop_first(), readings.drop_first());
        assert forall|i: int| 0 <= i < a.len() implies is_snapshot(
            #[trigger] a[i],
            b[i],
            r[i],
        ) by {
            assert(a[i] == after[i + 1]);
        }
        assert forall|i: int| 0 <= i < r.len() implies !is_odd((#[trigger] r[i]).0) && !is_odd(
            r[i].1,
        ) by {
            assert(r[i] == readings[i + 1]);
        }
        law_a_steady_reading_is_no_movement(b, a, r);
    }
}

proof fn lemma_unread_do_not_move(
    targets: Seq<WatchTarget>,
    readings: Seq<(Option<Single>, Option<Single>)>,
)
    requires
        forall|i: int|
            0 <= i < targets.len() ==> (#[trigger] targets[i]).last_gain is None
                && targets[i].last_mute is None,
    ensures
        first_moved(targets, readings) is None,
    decreases targets.len(),
{
    if targets.len() > 0 && readings.len() > 0 {
        let rest = targets.drop_first();
        assert forall|i: int| 0 <= i < rest.len() implies (#[trigger] rest[i]).last_gain is None
            && rest[i].last_mute is None by {
            assert(rest[i] == targets[i + 1]);
        }
        assert(targets[0].last_gain is None);
        lemma_unread_do_not_move(rest, readings.drop_first());
    }
}

/// First channel whose gain or mute moved since the previous poll. Snapshots
/// update for every target regardless, so a slow fader sweep is only
/// reported once per actual change.
pub fn scan_for_movement(
    targets: &mut Vec<WatchTarget>,
    readings: &Vec<(Option<Single>, Option<Single>)>,
) -> (r: Option<(ChannelKind, i32)>)
    requires
        old(targets)@.len() == readings@.len(),
    ensures
        r == first_moved(old(targets)@, readings@),
        final(targets)@.len() == old(targets)@.len(),
        forall|i: int|
            0 <= i < final(targets)@.len() ==> is_snapshot(
                #[trigger] final(targets)@[i],
                old(targets)@[i],
                readings@[i],
            ),
{
    let ghost start = targets@;
    let mut found: Option<(ChannelKind, i32)> = None;
    let mut i: usize = 0;
    assert(start.skip(0) == start);
    assert(readings@.skip(0) == readings@);
    while i < targets.len()
        invariant
            i <= start.len(),
            targets@.len() == start.len(),
            readings@.len() == start.len(),
            forall|j: int| i <= j < start.len() ==> #[trigger] targets@[j] == start[j],
            forall|j: int|
                0 <= j < i ==> is_snapshot(#[trigger] targets@[j], start[j], readings@[j]),
            first_moved(start, readings@) == if found is Some {
                found
            } else {
                first_moved(start.skip(i as int), readings@.skip(i as int))
            },
        decreases start.len() - i,
    {
        let (gain, mute) = readings[i];
        let gain_moved: bool = moved(targets[i].last_gain, gain);
        let mute_moved: bool = moved(targets[i].last_mute, mute);
        proof {
            assert(start.skip(i as int)[0] == start[i as int]);
            assert(readings@.skip(i as int)[0] == readings@[i as int]);
            assert(start.skip(i as int).drop_first() == start.skip(i + 1));
            assert(readings@.skip(i as int).drop_first() == readings@.skip(i + 1));
        }
        if found.is_none() && (gain_moved || mute_moved) {
            found = Some((targets[i].kind, targets[i].index));
        }
        let ghost before = targets@;
        if gain.is_some() {
            targets[i].last_gain = gain;
        }
        if mute.is_some() {
            targets[i].last_mute = mute;
        }
        assert(is_snapshot(targets@[i as int], start[i as int], readings@[i as int]));
        assert(forall|j: int|
            0 <= j < start.len() && j != i ==> #[trigger] targets@[j] == before[j]);
        i += 1;
    }
    found
}

} // verus!
