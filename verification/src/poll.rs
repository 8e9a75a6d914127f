//! A poll: what is done between two ticks of the clock, and in what order.
//! Each task is carried out by the program, and what came of it decides on
//! the next.

use crate::app_state::{AppState, Show};
use crate::vmr::Link;
use vstd::prelude::*;

verus! {

/// A task of a poll.
#[derive(Clone, Copy, PartialEq, Eq, Debug, Structural)]
pub enum PollTask {
    /// Ask for the edition, with `AppState::check_edition`.
    CheckEdition,
    /// Read the label again and update the tooltip.
    Announce,
    /// Read every watched channel, with `scan_for_movement`.
    Scan,
    /// Show the channel that moved, with `AppState::set_watch`.
    Follow,
    /// Read the channel on show, with `Channel::refresh`.
    Refresh,
    /// Update the tooltip and show the bar.
    Show,
    /// Count the tick, with `AppState::tick`.
    Tick,
    /// Look up where the tray icon is.
    LocateTray,
    /// Look after the link, with `AppState::supervise_link`.
    Supervise,
    /// Log in again.
    Relogin,
    Done,
}

impl PollTask {
    /// How many more tasks a poll can have.
    pub open spec fn left(self) -> nat {
        match self {
            PollTask::CheckEdition => 10,
            PollTask::Announce => 9,
            PollTask::Scan => 8,
            PollTask::Follow => 7,
            PollTask::Refresh => 6,
            PollTask::Show => 5,
            PollTask::Tick => 4,
            PollTask::LocateTray => 3,
            PollTask::Supervise => 2,
            PollTask::Relogin => 1,
            PollTask::Done => 0,
        }
    }
}

impl AppState {
    /// Whether a poll looks for movement on every channel.
    pub open spec fn is_scanning(self) -> bool {
        self.settings.watch_all && self.watch_targets@.len() > 0
    }

    /// The reading that a poll goes on with once the edition is settled.
    pub open spec fn reading_task(self) -> PollTask {
        if self.is_scanning() {
            PollTask::Scan
        } else {
            PollTask::Refresh
        }
    }

    /// The first task of a poll that found the link as given.
    pub open spec fn first_task_spec(self, link: Link) -> PollTask {
        if link == Link::Up {
            PollTask::CheckEdition
        } else {
            self.reading_task()
        }
    }

    /// The task after one that was done. `yes` says of `CheckEdition` that
    /// the edition changed, of `Scan` that there is a channel to follow, of
    /// `Refresh` that a value changed, of `Tick` that the tray icon is to be
    /// looked up, and of `Supervise` that it is time to log in again.
    pub open spec fn task_after(self, done: PollTask, yes: bool) -> PollTask {
        match done {
            PollTask::CheckEdition => if yes {
                PollTask::Announce
            } else {
                self.reading_task()
            },
            PollTask::Announce => self.reading_task(),
            PollTask::Scan => if yes {
                PollTask::Follow
            } else {
                PollTask::Refresh
            },
            PollTask::Follow => PollTask::Refresh,
            PollTask::Refresh => if yes {
                PollTask::Show
            } else {
                PollTask::Tick
            },
            PollTask::Show => PollTask::Tick,
            PollTask::Tick => if yes {
                PollTask::LocateTray
            } else {
                PollTask::Supervise
            },
            PollTask::LocateTray => PollTask::Supervise,
            PollTask::Supervise => if yes {
                PollTask::Relogin
            } else {
                PollTask::Done
            },
            PollTask::Relogin => PollTask::Done,
            PollTask::Done => PollTask::Done,
        }
    }

    fn reading(&self) -> (r: PollTask)
        ensures
            r == self.reading_task(),
    {
        if self.settings.watch_all && self.watch_targets.len() > 0 {
            PollTask::Scan
        } else {
            PollTask::Refresh
        }
    }

    pub fn first_task(&self, link: Link) -> (r: PollTask)
        ensures
            r == self.first_task_spec(link),
    {
        if link == Link::Up {
            PollTask::CheckEdition
        } else {
            self.reading()
        }
    }

    pub fn next_task(&self, done: PollTask, yes: bool) -> (r: PollTask)
        ensures
            r == self.task_after(done, yes),
    {
        match done {
            PollTask::CheckEdition if yes => PollTask::Announce,
            PollTask::CheckEdition | PollTask::Announce => self.reading(),
            PollTask::Scan if yes => PollTask::Follow,
            PollTask::Scan | PollTask::Follow => PollTask::Refresh,
            PollTask::Refresh if yes => PollTask::Show,
            PollTask::Refresh | PollTask::Show => PollTask::Tick,
            PollTask::Tick if yes => PollTask::LocateTray,
            PollTask::Tick | PollTask::LocateTray => PollTask::Supervise,
            PollTask::Supervise if yes => PollTask::Relogin,
            _ => PollTask::Done,
        }
    }
}

/// A poll ends: whatever came of a task, fewer are left. On the way it reads
/// the channel on show, counts the tick and looks after the link: no task
/// before one of these is followed by one after it.
pub proof fn law_a_poll_ends_and_skips_no_duty(app: AppState, done: PollTask, yes: bool)
    ensures
        done != PollTask::Done ==> app.task_after(done, yes).left() < done.left(),
        forall|duty: PollTask|
            duty == PollTask::Refresh || duty == PollTask::Tick || duty == PollTask::Supervise
                ==> done.left() > duty.left() ==> #[trigger] duty.left() <= app.task_after(
                done,
                yes,
            ).left(),
        forall|link: Link| #[trigger]
            app.first_task_spec(link).left() >= PollTask::Refresh.left(),
{
}

/// A poll acts only on what it found: the bar is shown for a value that
/// changed, a channel is followed when one moved, the edition is announced
/// when it changed, the icon is looked up when that is due, and the program
/// logs in when that is. The edition is asked for only while the link is up.
pub proof fn law_a_poll_acts_only_on_what_it_found(
    app: AppState,
    done: PollTask,
    yes: bool,
    link: Link,
)
    ensures
        app.task_after(done, yes) == PollTask::Show <==> done == PollTask::Refresh && yes,
        app.task_after(done, yes) == PollTask::Follow <==> done == PollTask::Scan && yes,
        app.task_after(done, yes) == PollTask::Announce <==> done == PollTask::CheckEdition && yes,
        app.task_after(done, yes) == PollTask::LocateTray <==> done == PollTask::Tick && yes,
        app.task_after(done, yes) == PollTask::Relogin <==> done == PollTask::Supervise && yes,
        app.task_after(done, yes) == PollTask::Scan ==> app.settings.watch_all,
        app.task_after(done, yes) != PollTask::CheckEdition,
        app.first_task_spec(link) == PollTask::CheckEdition <==> link == Link::Up,
{
}

} // verus!
