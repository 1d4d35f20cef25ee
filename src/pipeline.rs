//! The stages of one run, strictly in order: stage the source, rewrite its
//! manifest, compile, execute, and in every case release the staging
//! directory at the end.

use vstd::prelude::*;

verus! {

/// Where a run stands.
#[derive(PartialEq, Eq, Structural, Clone, Copy, Debug)]
pub enum Stage {
    Init,
    Staged,
    ManifestRewritten,
    Compiled,
    Executed,
    /// A piece of work failed; the staging directory is still to be removed.
    Aborting,
    /// The staging directory is gone; `succeeded` tells how the run ended.
    Released { succeeded: bool },
}

/// The work that leads out of a stage.
#[derive(PartialEq, Eq, Structural, Clone, Copy, Debug)]
pub enum Action {
    /// Create the staging directory and mirror the source into it.
    StageSource,
    RewriteManifest,
    Compile,
    Execute,
    /// Remove the staging directory.
    Release,
}

pub open spec fn action_spec(stage: Stage) -> Option<Action> {
    match stage {
        Stage::Init => Some(Action::StageSource),
        Stage::Staged => Some(Action::RewriteManifest),
        Stage::ManifestRewritten => Some(Action::Compile),
        Stage::Compiled => Some(Action::Execute),
        Stage::Executed => Some(Action::Release),
        Stage::Aborting => Some(Action::Release),
        Stage::Released { .. } => None,
    }
}

/// The stage after the work of `stage` ended, well or not. A failure before
/// the release leads to `Aborting`, whose work is the release, so the release
/// is never skipped; a run that aborted ends unsuccessful.
pub open spec fn advance_spec(stage: Stage, work_succeeded: bool) -> Stage {
    match stage {
        Stage::Released { .. } => stage,
        Stage::Executed => Stage::Released { succeeded: work_succeeded },
        Stage::Aborting => Stage::Released { succeeded: false },
        _ => if !work_succeeded {
            Stage::Aborting
        } else {
            match stage {
                Stage::Init => Stage::Staged,
                Stage::Staged => Stage::ManifestRewritten,
                Stage::ManifestRewritten => Stage::Compiled,
                _ => Stage::Executed,
            }
        },
    }
}

impl Stage {
    /// The work to do next; none once released.
    pub fn action(self) -> (r: Option<Action>)
        ensures
            r == action_spec(self),
    {
        match self {
            Stage::Init => Some(Action::StageSource),
            Stage::Staged => Some(Action::RewriteManifest),
            Stage::ManifestRewritten => Some(Action::Compile),
            Stage::Compiled => Some(Action::Execute),
            Stage::Executed => Some(Action::Release),
            Stage::Aborting => Some(Action::Release),
            Stage::Released { .. } => None,
        }
    }

    /// The stage reached when the work of this one has ended.
    pub fn advance(self, work_succeeded: bool) -> (r: Stage)
        ensures
            r == advance_spec(self, work_succeeded),
    {
        match self {
            Stage::Released { .. } => self,
            Stage::Executed => Stage::Released { succeeded: work_succeeded },
            Stage::Aborting => Stage::Released { succeeded: false },
            _ => if !work_succeeded {
                Stage::Aborting
            } else {
                match self {
                    Stage::Init => Stage::Staged,
                    Stage::Staged => Stage::ManifestRewritten,
                    Stage::ManifestRewritten => Stage::Compiled,
                    _ => Stage::Executed,
                }
            },
        }
    }
}

/// How far a stage is from the release, for the termination of a run.
pub open spec fn remaining(stage: Stage) -> nat {
    match stage {
        Stage::Init => 5,
        Stage::Staged => 4,
        Stage::ManifestRewritten => 3,
        Stage::Compiled => 2,
        Stage::Executed => 1,
        Stage::Aborting => 1,
        Stage::Released { .. } => 0,
    }
}

/// Every run ends released, within five steps, whatever each piece of work
/// returns. A failure before the release leads to a stage whose work is the
/// release, and a run ends as a success only through a successful release
/// after a successful execution.
pub proof fn lemma_run_always_released(stage: Stage, work_succeeded: bool)
    ensures
        (action_spec(stage) is None) <==> (stage is Released),
        !(stage is Released) ==> remaining(advance_spec(stage, work_succeeded)) < remaining(stage),
        !(stage is Released) && !work_succeeded ==> action_spec(advance_spec(stage, work_succeeded))
            == Some(Action::Release) || advance_spec(stage, work_succeeded) == (Stage::Released {
            succeeded: false,
        }),
        stage == Stage::Aborting ==> advance_spec(stage, work_succeeded) == (Stage::Released {
            succeeded: false,
        }),
        !(stage is Released) && advance_spec(stage, work_succeeded) == (Stage::Released {
            succeeded: true,
        }) ==> stage == Stage::Executed && work_succeeded,
{
}

} // verus!
