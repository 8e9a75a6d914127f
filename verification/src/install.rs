//! Installing: copying the program to where it stays, so starting with the
//! system doesn't depend on a build or download directory.

use crate::utf16::{encode, wide};
use vstd::prelude::*;

verus! {

/// A step of the installation.
#[derive(Clone, Copy, PartialEq, Eq, Debug, Structural)]
pub enum InstallStep {
    /// Create the directory.
    CreateDir,
    /// Remove an earlier copy that was put aside; it may not be there.
    RemoveBackup,
    /// Copy over the installed program. A running copy holds a lock, so this
    /// may fail.
    CopyOver,
    /// Rename the installed program aside so the copy can proceed.
    MoveAside,
    Copy,
    /// The installed program is in place.
    Done,
    /// The last step's error is the outcome.
    Failed,
}

/// The first step; `same` says whether the running program is the installed
/// one, which is left alone.
pub fn first_step(same: bool) -> (r: InstallStep)
    ensures
        r == if same {
            InstallStep::Done
        } else {
            InstallStep::CreateDir
        },
{
    if same {
        InstallStep::Done
    } else {
        InstallStep::CreateDir
    }
}

/// The step after one that went well or not. `exists` says whether there is
/// an installed program, and matters after the directory was created.
pub open spec fn step_after(step: InstallStep, ok: bool, exists: bool) -> InstallStep {
    match step {
        InstallStep::CreateDir => if !ok {
            InstallStep::Failed
        } else if exists {
            InstallStep::RemoveBackup
        } else {
            InstallStep::Copy
        },
        InstallStep::RemoveBackup => InstallStep::CopyOver,
        InstallStep::CopyOver => if ok {
            InstallStep::Done
        } else {
            InstallStep::MoveAside
        },
        InstallStep::MoveAside => if ok {
            InstallStep::Copy
        } else {
            InstallStep::Failed
        },
        InstallStep::Copy => if ok {
            InstallStep::Done
        } else {
            InstallStep::Failed
        },
        InstallStep::Done => InstallStep::Done,
        InstallStep::Failed => InstallStep::Failed,
    }
}

pub fn next_step(step: InstallStep, ok: bool, exists: bool) -> (r: InstallStep)
    ensures
        r == step_after(step, ok, exists),
{
    match step {
        InstallStep::CreateDir => if !ok {
            InstallStep::Failed
        } else if exists {
            InstallStep::RemoveBackup
        } else {
            InstallStep::Copy
        },
        InstallStep::RemoveBackup => InstallStep::CopyOver,
        InstallStep::CopyOver => if ok {
            InstallStep::Done
        } else {
            InstallStep::MoveAside
        },
        InstallStep::MoveAside => if ok {
            InstallStep::Copy
        } else {
            InstallStep::Failed
        },
        InstallStep::Copy => if ok {
            InstallStep::Done
        } else {
            InstallStep::Failed
        },
        InstallStep::Done => InstallStep::Done,
        InstallStep::Failed => InstallStep::Failed,
    }
}

/// How many more steps the installation can take.
pub open spec fn steps_left(step: InstallStep) -> nat {
    match step {
        InstallStep::CreateDir => 5,
        InstallStep::RemoveBackup => 4,
        InstallStep::CopyOver => 3,
        InstallStep::MoveAside => 2,
        InstallStep::Copy => 1,
        InstallStep::Done => 0,
        InstallStep::Failed => 0,
    }
}

/// The installation ends, whatever goes well or not.
pub proof fn law_the_installation_ends(step: InstallStep, ok: bool, exists: bool)
    ensures
        steps_left(step) > 0 ==> steps_left(step_after(step, ok, exists)) < steps_left(step),
        steps_left(step) == 0 <==> step == InstallStep::Done || step == InstallStep::Failed,
{
}

/// The installation comes to a good end exactly by a copy that went well, and
/// to a bad one exactly by a step that has to go well and did not: that of
/// creating the directory, of moving a locked program aside, or of the copy
/// after that. A backup that cannot be removed and a locked program are no
/// reason to give up, and a program is moved aside only if it is locked.
pub proof fn law_the_program_is_in_place_exactly_after_a_copy(
    step: InstallStep,
    ok: bool,
    exists: bool,
)
    requires
        step != InstallStep::Done,
        step != InstallStep::Failed,
    ensures
        step_after(step, ok, exists) == InstallStep::Done <==> ok && (step == InstallStep::CopyOver
            || step == InstallStep::Copy),
        step_after(step, ok, exists) == InstallStep::Failed <==> !ok && (step
            == InstallStep::CreateDir || step == InstallStep::MoveAside || step
            == InstallStep::Copy),
        step_after(step, ok, exists) == InstallStep::MoveAside <==> step == InstallStep::CopyOver
            && !ok,
        step == InstallStep::CreateDir && ok && !exists ==> step_after(step, ok, exists)
            == InstallStep::Copy,
{
}

fn same_bytes(x: &Vec<u8>, y: &Vec<u8>) -> (r: bool)
    ensures
        r == (x@ == y@),
{
    if x.len() != y.len() {
        return false;
    }
    let mut i: usize = 0;
    while i < x.len()
        invariant
            i <= x@.len(),
            x@.len() == y@.len(),
            forall|j: int| 0 <= j < i ==> #[trigger] x@[j] == y@[j],
        decreases x@.len() - i,
    {
        if x[i] != y[i] {
            return false;
        }
        i += 1;
    }
    assert(x@ == y@);
    true
}

/// The contents of two files differ; unknown contents do not.
pub fn differs(a: &Option<Vec<u8>>, b: &Option<Vec<u8>>) -> (r: bool)
    ensures
        r == match (*a, *b) {
            (Some(x), Some(y)) => x@ != y@,
            _ => false,
        },
{
    match (a, b) {
        (Some(x), Some(y)) => !same_bytes(x, y),
        _ => false,
    }
}

/// Whether the installed copy is out of date.
pub open spec fn is_outdated(
    autostart: bool,
    same: bool,
    exists: bool,
    modified: (Option<i128>, Option<i128>),
    differs: bool,
) -> bool {
    autostart && !same && exists && differs && match modified {
        (Some(a), Some(b)) => a > b,
        _ => false,
    }
}

/// An installed copy is refreshed only by a newer program that differs from
/// it, and never where the program does not start with the system. Of two
/// copies at most one refreshes the other.
pub proof fn law_only_a_newer_program_refreshes_the_copy(
    a: i128,
    b: i128,
    autostart: bool,
    differs: bool,
)
    ensures
        is_outdated(autostart, false, true, (Some(a), Some(b)), differs) <==> autostart && differs
            && b < a,
        !(is_outdated(autostart, false, true, (Some(a), Some(b)), differs) && is_outdated(
            autostart,
            false,
            true,
            (Some(b), Some(a)),
            differs,
        )),
        !is_outdated(autostart, true, true, (Some(a), Some(b)), differs),
        !is_outdated(autostart, false, false, (Some(a), Some(b)), differs),
        !is_outdated(autostart, false, true, (None, Some(b)), differs),
        !is_outdated(autostart, false, true, (Some(a), None), differs),
{
}

/// Whether the installed copy has to be brought up to date: the program
/// starts with the system, a newer build that differs is the one running, and
/// there is an installed copy to refresh. The times are those of the last
/// modification, of the running program first.
pub fn refresh_installed_copy(
    autostart: bool,
    same: bool,
    exists: bool,
    modified: (Option<i128>, Option<i128>),
    differs: bool,
) -> (r: bool)
    ensures
        r == is_outdated(autostart, same, exists, modified, differs),
{
    if !autostart || same || !exists {
        return false;
    }
    let newer: bool = match modified {
        (Some(a), Some(b)) => a > b,
        _ => false,
    };
    newer && differs
}

/// The startup entry for a program: its path in quotes, ended by a zero.
pub fn startup_entry(program: &str) -> (r: Vec<u16>)
    ensures
        r@ == encode("\""@ + program@ + "\""@).push(0),
{
    let mut out: String = String::from_str("\"");
    out.append(program);
    out.append("\"");
    wide(out.as_str())
}

} // verus!
