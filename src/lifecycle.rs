//! The order in which a sandbox is torn down.
use vstd::prelude::*;

verus! {

/// How far the setup of a sandbox got before its scope ended.
#[derive(Clone, Copy, Debug, PartialEq, Eq, Structural)]
pub enum Stage {
    /// The process-wide lock is held.
    Locked,
    /// The lock is held and the sandbox directory exists.
    Provisioned,
    /// The lock is held, the directory exists and is the working directory.
    Entered,
}

/// One step of teardown.
#[derive(Clone, Copy, Debug, PartialEq, Eq, Structural)]
pub enum Action {
    /// Return to the working directory saved on entry.
    RestoreWorkingDirectory,
    /// Remove the sandbox directory and everything under it.
    RemoveDirectory,
    /// Release the process-wide lock.
    ReleaseLock,
}

/// The teardown steps owed at `stage`: undo each setup step that was done,
/// the working directory first, then the directory, then the lock.
pub open spec fn teardown_spec(stage: Stage) -> Seq<Action> {
    match stage {
        Stage::Locked => seq![Action::ReleaseLock],
        Stage::Provisioned => seq![Action::RemoveDirectory, Action::ReleaseLock],
        Stage::Entered => seq![
            Action::RestoreWorkingDirectory,
            Action::RemoveDirectory,
            Action::ReleaseLock,
        ],
    }
}

/// The teardown steps owed when a scope ends at `stage`, in order.
pub fn teardown(stage: Stage) -> (r: Vec<Action>)
    ensures
        r@ == teardown_spec(stage),
{
    let mut plan: Vec<Action> = Vec::new();
    match stage {
        Stage::Entered => {
            plan.push(Action::RestoreWorkingDirectory);
            plan.push(Action::RemoveDirectory);
        },
        Stage::Provisioned => {
            plan.push(Action::RemoveDirectory);
        },
        Stage::Locked => {},
    }
    plan.push(Action::ReleaseLock);
    assert(plan@ =~= teardown_spec(stage));
    plan
}

} // verus!
