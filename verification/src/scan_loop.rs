//! The order in which a background scanner works.
use crate::local_worktree::ScanState;
use vstd::prelude::*;

verus! {

/// What a background scanner does next.
#[derive(Debug, PartialEq, Eq)]
pub enum ScannerStep {
    /// It tells how far it is.
    Notify(ScanState),
    /// It scans the file system for the first time.
    ScanDirs,
    /// It waits for something to happen in the file system.
    WaitForEvents,
    /// It brings in what happened, together with all that has happened meanwhile.
    ProcessEvents,
    /// It is done.
    Stop,
}

/// The step that follows one that went well.
pub open spec fn after_success(step: ScannerStep) -> ScannerStep {
    match step {
        ScannerStep::Notify(ScanState::Initializing) => ScannerStep::ScanDirs,
        ScannerStep::Notify(ScanState::Failed(_)) => ScannerStep::Notify(ScanState::Idle),
        ScannerStep::Notify(ScanState::Idle) => ScannerStep::WaitForEvents,
        ScannerStep::Notify(ScanState::Updating) => ScannerStep::ProcessEvents,
        ScannerStep::ScanDirs => ScannerStep::Notify(ScanState::Idle),
        ScannerStep::WaitForEvents => ScannerStep::Notify(ScanState::Updating),
        ScannerStep::ProcessEvents => ScannerStep::Notify(ScanState::Idle),
        ScannerStep::Stop => ScannerStep::Stop,
    }
}

impl ScannerStep {
    /// What the scanner does first.
    pub fn first() -> (r: Self)
        ensures
            r == ScannerStep::Notify(ScanState::Initializing),
    {
        ScannerStep::Notify(ScanState::Initializing)
    }

    /// The step that follows. A step fails where nobody is told any more, where a scan or the
    /// bringing in of events fails, or where no more events come. The scanner stops then, but for
    /// a first scan that failed, which it tells of.
    pub fn next(self, outcome: Result<(), String>) -> (r: Self)
        ensures
            match outcome {
                Ok(_) => r == after_success(self),
                Err(error) => r == if self is ScanDirs {
                    ScannerStep::Notify(ScanState::Failed(error))
                } else {
                    ScannerStep::Stop
                },
            },
    {
        match outcome {
            Ok(_) => match self {
                ScannerStep::Notify(ScanState::Initializing) => ScannerStep::ScanDirs,
                ScannerStep::Notify(ScanState::Failed(_)) => ScannerStep::Notify(ScanState::Idle),
                ScannerStep::Notify(ScanState::Idle) => ScannerStep::WaitForEvents,
                ScannerStep::Notify(ScanState::Updating) => ScannerStep::ProcessEvents,
                ScannerStep::ScanDirs => ScannerStep::Notify(ScanState::Idle),
                ScannerStep::WaitForEvents => ScannerStep::Notify(ScanState::Updating),
                ScannerStep::ProcessEvents => ScannerStep::Notify(ScanState::Idle),
                ScannerStep::Stop => ScannerStep::Stop,
            },
            Err(error) => match self {
                ScannerStep::ScanDirs => ScannerStep::Notify(ScanState::Failed(error)),
                _ => ScannerStep::Stop,
            },
        }
    }
}

/// Whether the scanner works on the file system only after it has told so, and waits only after
/// it has told that it is idle: what it has told last is what it does.
pub open spec fn is_told(told: Option<ScanState>, step: ScannerStep) -> bool {
    match step {
        ScannerStep::ScanDirs => told == Some(ScanState::Initializing),
        ScannerStep::ProcessEvents => told == Some(ScanState::Updating),
        ScannerStep::WaitForEvents => told == Some(ScanState::Idle),
        _ => true,
    }
}

/// What was told last once a step was taken.
pub open spec fn told_after(told: Option<ScanState>, step: ScannerStep) -> Option<ScanState> {
    match step {
        ScannerStep::Notify(state) => Some(state),
        _ => told,
    }
}

/// Whatever the scanner does, it has told before.
pub proof fn law_scanner_tells(told: Option<ScanState>, step: ScannerStep)
    requires
        is_told(told, step),
    ensures
        is_told(told_after(told, step), after_success(step)),
{
}

} // verus!
