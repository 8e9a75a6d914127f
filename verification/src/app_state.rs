//! The state of the program, and what each event does to it. What the system
//! has to be asked for comes in as arguments; what it has to be told goes out
//! as results.

use crate::config::{has_name, name_spec, ChannelKind, Settings};
use crate::draw::BarView;
use crate::frame::Bar;
use crate::osd::MonitorInfo;
use crate::scale::WheelSteps;
use crate::single::{single_of, zero, Single};
use crate::state::{
    are_fresh_targets, build_watch_targets, Channel, DragAnchor, WatchTarget, RETRY_MAX_SECS,
    RETRY_MIN_SECS, STALE_POLLS, TRAY_TICKS,
};
use crate::time::{Duration, Instant};
use crate::vmr::{Backoff, Link};
use vstd::prelude::*;

verus! {

pub struct AppState {
    pub settings: Settings,
    /// The channel actually shown. It is the configured one unless watch-all
    /// has followed a fader that moved.
    pub channel: Channel,
    /// Layout of the running Voicemeeter. Falls back to 1 until it can be
    /// read, which is common when started at boot before Voicemeeter.
    pub edition: i32,
    pub edition_known: bool,
    /// Every channel polled when watch-all is on, each with the values seen
    /// on the previous tick.
    pub watch_targets: Vec<WatchTarget>,
    /// Consecutive polls where the link or the channel read failed.
    pub failed_polls: u32,
    pub reconnect: Backoff,
    /// Carries partial wheel notches between events.
    pub wheel_steps: WheelSteps,
    pub hide_at: Option<Instant>,
    /// Eased bar level, so the fill glides instead of snapping.
    pub display_pct: Single,
    pub anim_alpha: Single,
    pub animating: bool,
    /// 0 = tucked into the tray icon, 1 = fully popped out.
    pub pop: Single,
    /// Live signal level, 0-1, with a slowly falling peak marker.
    pub meter: Single,
    pub meter_peak: Single,
    pub tray_point: Option<(i32, i32)>,
    /// Display hosting this showing, fixed for its duration.
    pub monitor: MonitorInfo,
    /// Set while the user is dragging the bar somewhere new.
    pub drag: Option<DragAnchor>,
    pub last_frame: Instant,
    pub tray_ticks: u32,
}

/// What became of a request to show the bar.
#[derive(Clone, Copy, PartialEq, Eq, Debug, Structural)]
pub enum Show {
    /// Something else fills the screen; the bar stays away.
    Suppressed,
    /// The bar is up already and stays up longer.
    Extended,
    /// The bar appears anew.
    Fresh,
}

impl AppState {
    /// The state at the start: nothing watched, read or shown.
    pub fn new(settings: Settings, monitor: MonitorInfo, now: Instant) -> (r: AppState)
        ensures
            r.settings == settings,
            r.channel.kind == settings.kind,
            r.channel.index == settings.index,
            r.channel.gain@ == ""@,
            r.channel.mute@ == ""@,
            r.channel.label@ == ""@,
            r.channel.read_failures == 0,
            r.channel.last_gain is None,
            r.channel.last_mute is None,
            r.channel.percent == 0,
            !r.channel.muted,
            r.edition == 1,
            !r.edition_known,
            r.watch_targets@.len() == 0,
            r.failed_polls == 0,
            r.reconnect@ == r.reconnect@.eager(),
            r.reconnect@.min == 2_000_000_000,
            r.reconnect@.max == 60_000_000_000,
            r.wheel_steps.wf(),
            r.wheel_steps.partial() == 0,
            r.hide_at is None,
            r.display_pct == zero(false),
            r.anim_alpha == zero(false),
            !r.animating,
            r.pop == zero(false),
            r.meter == zero(false),
            r.meter_peak == zero(false),
            r.tray_point is None,
            r.monitor == monitor,
            r.drag is None,
            r.last_frame == now,
            r.tray_ticks == 0,
    {
        let none = Single::from_bits(0);
        AppState {
            settings,
            channel: Channel::unread(settings.kind, settings.index),
            edition: 1,
            edition_known: false,
            watch_targets: Vec::new(),
            failed_polls: 0,
            reconnect: Backoff::new(
                Duration::from_secs(RETRY_MIN_SECS),
                Duration::from_secs(RETRY_MAX_SECS),
            ),
            wheel_steps: WheelSteps::default(),
            hide_at: None,
            display_pct: none,
            anim_alpha: none,
            animating: false,
            pop: none,
            meter: none,
            meter_peak: none,
            tray_point: None,
            monitor,
            drag: None,
            last_frame: now,
            tray_ticks: 0,
        }
    }

    // -----------------------------------------------------------------------
    // The channel on show
    // -----------------------------------------------------------------------

    /// The label on show: the one the user typed into Voicemeeter, or else
    /// the generic name.
    pub open spec fn label_or_name(
        self,
        label: Option<String>,
        kind: ChannelKind,
        index: int,
    ) -> Seq<char> {
        match label {
            Some(text) => text@,
            None => name_spec(kind, index, self.edition as int),
        }
    }

    /// The display is pointed at another channel.
    pub open spec fn is_watching(
        self,
        before: AppState,
        kind: ChannelKind,
        index: i32,
        gain: Option<Single>,
        mute: Option<Single>,
        label: Option<String>,
    ) -> bool {
        &&& self.channel.names(kind, index)
        &&& self.channel.is_read(
            (Channel { last_gain: None, last_mute: None, ..before.channel }),
            before.settings,
            gain,
            mute,
        )
        &&& self.channel.label@ == before.label_or_name(label, kind, index as int)
        &&& self.display_pct == single_of(self.channel.percent as int)
        &&& self == (AppState {
            channel: self.channel,
            display_pct: self.display_pct,
            ..before
        })
    }

    /// Points the display at another channel, with its first readings and
    /// its label, and without animating from the previous channel's level.
    pub fn set_watch(
        &mut self,
        kind: ChannelKind,
        index: i32,
        gain: Option<Single>,
        mute: Option<Single>,
        label: Option<String>,
    )
        requires
            label is None ==> has_name(kind, index as int),
        ensures
            final(self).is_watching(*old(self), kind, index, gain, mute, label),
            final(self).channel.names(kind, index),
            final(self).channel.is_read(
                (Channel { last_gain: None, last_mute: None, ..old(self).channel }),
                old(self).settings,
                gain,
                mute,
            ),
            final(self).channel.label@ == old(self).label_or_name(label, kind, index as int),
            final(self).display_pct == single_of(final(self).channel.percent as int),
            *final(self) == (AppState {
                channel: final(self).channel,
                display_pct: final(self).display_pct,
                ..*old(self)
            }),
    {
        self.channel.kind = kind;
        self.channel.index = index;
        self.channel.gain = Settings::gain_param(kind, index);
        self.channel.mute = Settings::mute_param(kind, index);
        self.channel.last_gain = None;
        self.channel.last_mute = None;
        self.channel.refresh(&self.settings, gain, mute);
        self.display_pct = Single::from_i32(self.channel.percent);
        self.refresh_label(label);
    }

    /// Prefers the label the user typed into Voicemeeter over the generic
    /// name.
    pub fn refresh_label(&mut self, label: Option<String>)
        requires
            label is None ==> has_name(
                old(self).channel.kind,
                old(self).channel.index as int,
            ),
        ensures
            final(self).channel.label@ == old(self).label_or_name(
                label,
                old(self).channel.kind,
                old(self).channel.index as int,
            ),
            *final(self) == (AppState {
                channel: (Channel {
                    label: final(self).channel.label,
                    ..old(self).channel
                }),
                ..*old(self)
            }),
    {
        self.channel.label = match label {
            Some(text) => text,
            None => Settings::channel_name(self.channel.kind, self.channel.index, self.edition),
        };
    }

    /// Rebuilds the watch-all scan list to match the current settings.
    pub fn sync_watch_targets(&mut self)
        ensures
            old(self).settings.watch_all ==> are_fresh_targets(
                final(self).watch_targets@,
                old(self).edition as int,
            ),
            !old(self).settings.watch_all ==> final(self).watch_targets@.len() == 0,
            *final(self) == (AppState {
                watch_targets: final(self).watch_targets,
                ..*old(self)
            }),
    {
        if self.settings.watch_all {
            self.watch_targets = build_watch_targets(self.edition);
        } else {
            self.watch_targets = Vec::new();
        }
    }

    /// Controls always act on the configured channel, not whichever one
    /// watch-all last followed, so a hotkey never changes an unexpected
    /// fader: the channel to switch to first, if another one is on show.
    pub open spec fn unfocused(self) -> Option<(ChannelKind, i32)> {
        if self.settings.kind != self.channel.kind || self.settings.index != self.channel.index {
            Some((self.settings.kind, self.settings.index))
        } else {
            None
        }
    }

    pub fn focus_configured(&self) -> (r: Option<(ChannelKind, i32)>)
        ensures
            r == self.unfocused(),
    {
        if self.settings.kind != self.channel.kind || self.settings.index != self.channel.index {
            Some((self.settings.kind, self.settings.index))
        } else {
            None
        }
    }

    /// The channel to follow after a scan: one that moved and is not on show
    /// yet.
    pub open spec fn followed(self, moved: Option<(ChannelKind, i32)>) -> Option<
        (ChannelKind, i32),
    > {
        match moved {
            Some(c) if c.0 != self.channel.kind || c.1 != self.channel.index => moved,
            _ => None,
        }
    }

    pub fn follow(&self, moved: Option<(ChannelKind, i32)>) -> (r: Option<(ChannelKind, i32)>)
        ensures
            r == self.followed(moved),
    {
        match moved {
            Some((kind, index)) => if kind != self.channel.kind || index != self.channel.index {
                moved
            } else {
                None
            },
            None => None,
        }
    }

    /// Keeps a channel that was picked as the configured one.
    pub fn choose_channel(&mut self, kind: ChannelKind, index: i32)
        ensures
            *final(self) == (AppState {
                settings: (Settings { kind, index, ..old(self).settings }),
                ..*old(self)
            }),
    {
        self.settings.kind = kind;
        self.settings.index = index;
    }

    /// Adds a raw wheel delta from the tray icon or the bar; the notches that
    /// it completes.
    pub fn wheel(&mut self, delta: i32) -> (steps: i32)
        requires
            old(self).wheel_steps.wf(),
            i32::MIN <= old(self).wheel_steps.carried(delta as int) + delta <= i32::MAX,
        ensures
            old(self).wheel_steps.is_fed(delta as int, steps as int, final(self).wheel_steps),
            final(self).wheel_steps.wf(),
            steps * 120 + final(self).wheel_steps.partial() == old(self).wheel_steps.carried(
                delta as int,
            ) + delta,
            delta >= 0 && old(self).wheel_steps.carried(delta as int) >= 0 ==> steps >= 0
                && final(self).wheel_steps.partial() >= 0,
            delta <= 0 && old(self).wheel_steps.carried(delta as int) <= 0 ==> steps <= 0
                && final(self).wheel_steps.partial() <= 0,
            *final(self) == (AppState { wheel_steps: final(self).wheel_steps, ..*old(self) }),
    {
        self.wheel_steps.feed(delta)
    }

    // -----------------------------------------------------------------------
    // The link
    // -----------------------------------------------------------------------

    /// What a report of the edition makes of what is known of it.
    pub open spec fn edition_after(self, reported: Option<i32>) -> (bool, i32) {
        if self.edition_known || reported is None {
            (self.edition_known, self.edition)
        } else {
            (true, reported->0)
        }
    }

    /// Picks up the edition once Voicemeeter can report it, and again after
    /// a reconnect in case a different edition was started. Says whether the
    /// edition changed.
    pub fn check_edition(&mut self, reported: Option<i32>) -> (changed: bool)
        ensures
            (final(self).edition_known, final(self).edition) == old(self).edition_after(reported),
            changed == (final(self).edition != old(self).edition),
            changed == (!old(self).edition_known && reported is Some && reported
                != Some(old(self).edition)),
            old(self).edition_known || reported is None ==> *final(self) == *old(self),
            !old(self).edition_known && reported is Some ==> {
                &&& final(self).edition_known
                &&& final(self).edition == reported->0
                &&& *final(self) == (AppState {
                    edition: final(self).edition,
                    edition_known: true,
                    watch_targets: final(self).watch_targets,
                    ..*old(self)
                })
                &&& !changed ==> final(self).watch_targets == old(self).watch_targets
                &&& changed && old(self).settings.watch_all ==> are_fresh_targets(
                    final(self).watch_targets@,
                    reported->0 as int,
                )
                &&& changed && !old(self).settings.watch_all
                    ==> final(self).watch_targets@.len() == 0
            },
    {
        if self.edition_known {
            return false;
        }
        match reported {
            None => false,
            Some(edition) => {
                self.edition_known = true;
                if edition != self.edition {
                    self.edition = edition;
                    self.sync_watch_targets();
                    true
                } else {
                    false
                }
            },
        }
    }

    /// Whether a poll found everything in order.
    pub open spec fn is_healthy(self, link: Link) -> bool {
        link == Link::Up && self.channel.read_failures == 0
    }

    /// One more failed poll, without overflow.
    pub open spec fn more_failures(self) -> u32 {
        if self.failed_polls < u32::MAX {
            (self.failed_polls + 1) as u32
        } else {
            u32::MAX
        }
    }

    /// Whether the session has been failing long enough to log in again, and
    /// the backoff allows it.
    pub open spec fn is_relogin_due(self, link: Link, now: nat) -> bool {
        !self.is_healthy(link) && self.more_failures() >= STALE_POLLS && self.reconnect@.is_due(
            now,
        )
    }

    /// What a poll makes of the link's health.
    pub open spec fn is_supervised(
        self,
        link: Link,
        now: nat,
        relogin: bool,
        after: AppState,
    ) -> bool {
        &&& relogin == self.is_relogin_due(link, now)
        &&& after.failed_polls == if self.is_healthy(link) {
            0
        } else {
            self.more_failures()
        }
        &&& after.reconnect@ == if self.is_healthy(link) {
            self.reconnect@.eager()
        } else if relogin {
            self.reconnect@.attempted(now)
        } else {
            self.reconnect@
        }
        &&& after.edition_known == (self.edition_known && (self.is_healthy(link) || (link
            != Link::NoServer && !relogin)))
    }

    /// Tracks connection health; says when to log back in, with backoff, as
    /// the session has been failing for a while.
    pub fn supervise_link(&mut self, link: Link, now: Instant) -> (relogin: bool)
        requires
            old(self).is_relogin_due(link, now.nanos as nat) ==> old(self).reconnect@.can_attempt(
                now.nanos as nat,
            ),
        ensures
            old(self).is_supervised(link, now.nanos as nat, relogin, *final(self)),
            relogin == old(self).is_relogin_due(link, now.nanos as nat),
            final(self).failed_polls == if old(self).is_healthy(link) {
                0
            } else {
                old(self).more_failures()
            },
            final(self).reconnect@ == if old(self).is_healthy(link) {
                old(self).reconnect@.eager()
            } else if relogin {
                old(self).reconnect@.attempted(now.nanos as nat)
            } else {
                old(self).reconnect@
            },
            final(self).edition_known == (old(self).edition_known && (old(self).is_healthy(link)
                || (link != Link::NoServer && !relogin))),
            *final(self) == (AppState {
                failed_polls: final(self).failed_polls,
                reconnect: final(self).reconnect,
                edition_known: final(self).edition_known,
                ..*old(self)
            }),
    {
        if link == Link::Up && self.channel.read_failures == 0 {
            self.failed_polls = 0;
            self.reconnect.reset();
            return false;
        }
        if link == Link::NoServer {
            // Whatever starts next may be a different edition.
            self.edition_known = false;
        }
        if self.failed_polls < u32::MAX {
            self.failed_polls = self.failed_polls + 1;
        }
        if self.failed_polls < STALE_POLLS {
            return false;
        }
        if !self.reconnect.attempt(now) {
            return false;
        }
        self.edition_known = false;
        true
    }

    /// Counts a poll; every fiftieth asks for a look at the tray icon.
    pub fn tick(&mut self) -> (due: bool)
        requires
            old(self).tray_ticks < u32::MAX,
        ensures
            due == (old(self).tray_ticks + 1 >= TRAY_TICKS),
            *final(self) == (AppState {
                tray_ticks: if due {
                    0
                } else {
                    (old(self).tray_ticks + 1) as u32
                },
                ..*old(self)
            }),
    {
        self.tray_ticks = self.tray_ticks + 1;
        if self.tray_ticks >= TRAY_TICKS {
            self.tray_ticks = 0;
            true
        } else {
            false
        }
    }

    // -----------------------------------------------------------------------
    // Showing and hiding
    // -----------------------------------------------------------------------

    /// What becomes of a request to show the bar.
    pub open spec fn show_outcome(self, fullscreen: bool) -> Show {
        if self.settings.hide_in_fullscreen && fullscreen {
            Show::Suppressed
        } else if self.animating {
            Show::Extended
        } else {
            Show::Fresh
        }
    }

    /// The state after such a request: a bar that is shown stays for its time.
    pub open spec fn after_show(self, fullscreen: bool, now: Instant) -> AppState {
        if self.show_outcome(fullscreen) == Show::Suppressed {
            self
        } else {
            AppState {
                hide_at: Some(
                    Instant { nanos: (now.nanos + self.settings.hide_ms * 1_000_000) as u128 },
                ),
                ..self
            }
        }
    }

    /// The state of a bar that appears anew.
    pub open spec fn after_appearing(
        self,
        tray_point: Option<(i32, i32)>,
        monitor: MonitorInfo,
        now: Instant,
    ) -> AppState {
        AppState {
            animating: true,
            tray_point,
            monitor,
            pop: zero(false),
            last_frame: now,
            ..self
        }
    }

    /// Asks for the bar to be shown. `fullscreen` says whether a fullscreen
    /// program has the focus.
    pub fn show_osd(&mut self, fullscreen: bool, now: Instant) -> (r: Show)
        requires
            !(old(self).settings.hide_in_fullscreen && fullscreen) ==> now.nanos + old(
                self,
            ).settings.hide_ms * 1_000_000 <= u128::MAX,
        ensures
            r == old(self).show_outcome(fullscreen),
            *final(self) == old(self).after_show(fullscreen, now),
            *final(self) == if r == Show::Suppressed {
                *old(self)
            } else {
                (AppState { hide_at: final(self).hide_at, ..*old(self) })
            },
            r != Show::Suppressed ==> final(self).hide_at is Some && final(self).hide_at->0.nanos
                == now.nanos + old(self).settings.hide_ms * 1_000_000,
    {
        if self.settings.hide_in_fullscreen && fullscreen {
            return Show::Suppressed;
        }
        self.hide_at = Some(now.plus(Duration::from_millis(self.settings.hide_ms as u64)));
        if self.animating {
            Show::Extended
        } else {
            Show::Fresh
        }
    }

    /// A fresh appearance: pops out of the tray on the display that hosts it.
    pub fn appear(&mut self, tray_point: Option<(i32, i32)>, monitor: MonitorInfo, now: Instant)
        ensures
            *final(self) == old(self).after_appearing(tray_point, monitor, now),
    {
        self.animating = true;
        self.tray_point = tray_point;
        self.monitor = monitor;
        self.pop = Single::from_bits(0);
        self.last_frame = now;
    }

    /// The display or the tray icon may have moved.
    pub fn relayout(&mut self, tray_point: Option<(i32, i32)>, monitor: MonitorInfo)
        ensures
            *final(self) == (AppState { tray_point, monitor, ..*old(self) }),
    {
        self.tray_point = tray_point;
        self.monitor = monitor;
    }

    /// What a frame of the bar depends on.
    pub fn bar(&self, dpi: i32, size: (i32, i32), accent: (u8, u8, u8)) -> (r: Bar)
        ensures
            r == (Bar {
                view: (BarView {
                    settings: self.settings,
                    muted: self.channel.muted,
                    meter: self.meter,
                    meter_peak: self.meter_peak,
                }),
                display_pct: self.display_pct,
                anim_alpha: self.anim_alpha,
                pop: self.pop,
                tray_point: self.tray_point,
                monitor: self.monitor,
                dpi,
                width: size.0,
                height: size.1,
                accent,
            }),
    {
        Bar {
            view: BarView {
                settings: self.settings,
                muted: self.channel.muted,
                meter: self.meter,
                meter_peak: self.meter_peak,
            },
            display_pct: self.display_pct,
            anim_alpha: self.anim_alpha,
            pop: self.pop,
            tray_point: self.tray_point,
            monitor: self.monitor,
            dpi,
            width: size.0,
            height: size.1,
            accent,
        }
    }
}

} // verus!
