//! The course of a restore.

use vstd::prelude::*;

use crate::backup::preview;
use crate::backup::preview::PathChanges;
use crate::backup::preview::PreflightVykarRestoreResponse;
use crate::backup::publication::RestorePublishPath;
use crate::backup::receipts::RestoreModel;
use crate::backup::receipts::TransactionalVykarRestoreResponse;
use crate::backup::receipts::VykarBackupCompletionState;
use crate::backup::restore_journal::RestoreOwnedVolume;
use crate::path;
use crate::text;
use crate::text::in_order;
use crate::text::texts;

verus! {

// ---------------------------------------------------------------------------
// The steps
// ---------------------------------------------------------------------------

/// What is known of a restore while it runs.
#[derive(Clone, Copy, Debug, PartialEq, Eq, Structural)]
pub struct RunFacts {
    /// The restore was cancelled before it was admitted.
    pub cancelled: bool,
    /// A volume is restored.
    pub volume: bool,
    /// The volume was created for this restore.
    pub owned: bool,
    /// How many containers are stopped.
    pub containers: usize,
}

/// Why a restore fails without a response.
#[derive(Clone, Copy, Debug, PartialEq, Eq, Structural)]
pub enum RunError {
    /// The restore was cancelled before it was admitted.
    Cancelled,
    /// Something else works on the files.
    Locked,
    /// An earlier operation has to be recovered first.
    PendingRecovery,
    /// What the restore would do is not what was confirmed, or cannot be found
    /// out.
    PreviewChanged,
    /// The volume could not be prepared.
    Volume,
    /// The destination could not be prepared.
    Preparation,
    /// The containers to be stopped are not those that were confirmed.
    ContainersChanged,
    /// It could not be noted which containers are stopped.
    QuiesceJournal,
    /// A volume that was created for the restore could not be removed.
    VolumeCleanup,
    /// The note of the stopped containers could not be read.
    Restart,
}

/// How the transaction of a restore has ended.
#[derive(Clone, Copy, Debug, PartialEq, Eq, Structural)]
pub enum TransactionEnd {
    /// The files were published, and perhaps put back.
    Published { rolled_back: bool, finalization_pending: bool },
    /// Nothing was published.
    FailedBeforePublication,
    /// Nothing was published, but the staged files are still there.
    StagingCleanupFailed,
    /// It is not known what was published.
    Indeterminate,
}

/// Why the volume that was created for the restore is removed, or containers are
/// started again.
#[derive(Clone, Copy, Debug, PartialEq, Eq, Structural)]
pub enum Reason {
    /// The preparation failed.
    Preparation,
    /// The containers have changed.
    ContainersChanged,
    /// The stopped containers could not be noted.
    QuiesceJournal,
    /// A container could not be stopped.
    StopFailed,
    /// Nothing was published.
    FailedBeforePublication,
    /// What was published was put back.
    RolledBack,
    /// The files were published.
    Published,
}

/// What the response of a restore tells.
#[derive(Clone, Copy, Debug, PartialEq, Eq, Structural)]
pub enum Ending {
    /// A container could not be stopped.
    StopFailed,
    /// Nothing was published.
    FailedBeforePublication,
    /// The created volume is still there after the files were put back.
    VolumeKept,
    /// The decision about the publication is made later.
    Pending,
    /// The staged files are still there.
    StagingKept,
    /// It is not known what was published.
    Indeterminate,
    /// The containers run again.
    Restarted { rolled_back: bool },
    /// Not all containers run again.
    RestartFailed { rolled_back: bool },
}

/// What is done next for a restore.
#[derive(Clone, Copy, Debug, PartialEq, Eq, Structural)]
pub enum RunStage {
    /// Take the lease of the files.
    Lock,
    /// See whether an earlier operation has to be recovered.
    CheckRecovery,
    /// Find out what the restore would do, and compare it with what was
    /// confirmed.
    Preflight,
    /// Find or create the volume.
    PrepareVolume,
    /// Find out where the files go and which containers use them.
    Prepare,
    /// Compare the containers with those that were confirmed.
    Confirm,
    /// Note which containers are stopped.
    PersistQuiesce,
    /// Stop the container with this number.
    Stop { index: usize },
    /// Find out once more what the restore would do.
    Verify,
    /// Restore the files.
    Transact,
    /// Remove the volume that was created for the restore.
    CleanVolume { reason: Reason },
    /// Start the containers again.
    Restart { reason: Reason },
    /// Stop again the containers that were started.
    StopAgain { rolled_back: bool },
    /// The restore has failed.
    Failed { error: RunError },
    /// The restore has a response.
    Responded { ending: Ending },
}

/// What came of a step.
#[derive(Clone, Copy, Debug, PartialEq, Eq, Structural)]
pub enum Happened {
    /// It succeeded.
    Succeeded,
    /// It failed.
    Failed,
    /// Some of the containers could not be started.
    SomeFailed,
    /// The transaction has ended.
    Ended { end: TransactionEnd },
}

/// The restore has ended.
pub open spec fn run_is_over(stage: RunStage) -> bool {
    stage is Failed || stage is Responded
}

/// What is done once the destination is known to hold what it held before, or
/// what was published.
pub open spec fn cleaning_first(facts: RunFacts, reason: Reason, otherwise: RunStage) -> RunStage {
    if facts.owned {
        RunStage::CleanVolume { reason }
    } else {
        otherwise
    }
}

/// What is done first for a restore.
pub open spec fn first_stage(facts: RunFacts) -> RunStage {
    if facts.cancelled {
        RunStage::Failed { error: RunError::Cancelled }
    } else {
        RunStage::Lock
    }
}

/// What is done when the transaction has ended.
pub open spec fn after_transaction(facts: RunFacts, end: TransactionEnd) -> RunStage {
    match end {
        TransactionEnd::Published { rolled_back, finalization_pending } => if rolled_back
            && facts.owned {
            RunStage::CleanVolume { reason: Reason::RolledBack }
        } else if finalization_pending {
            RunStage::Responded { ending: Ending::Pending }
        } else if rolled_back {
            RunStage::Restart { reason: Reason::RolledBack }
        } else {
            RunStage::Restart { reason: Reason::Published }
        },
        TransactionEnd::FailedBeforePublication => cleaning_first(
            facts,
            Reason::FailedBeforePublication,
            RunStage::Restart { reason: Reason::FailedBeforePublication },
        ),
        TransactionEnd::StagingCleanupFailed => RunStage::Responded {
            ending: Ending::StagingKept,
        },
        TransactionEnd::Indeterminate => RunStage::Responded { ending: Ending::Indeterminate },
    }
}

/// What is done once the created volume has been removed, or could not be.
pub open spec fn after_cleaning(reason: Reason, removed: bool) -> RunStage {
    match reason {
        Reason::Preparation => RunStage::Failed { error: RunError::Preparation },
        Reason::ContainersChanged => RunStage::Failed {
            error: if removed {
                RunError::ContainersChanged
            } else {
                RunError::VolumeCleanup
            },
        },
        Reason::QuiesceJournal => RunStage::Failed {
            error: if removed {
                RunError::QuiesceJournal
            } else {
                RunError::VolumeCleanup
            },
        },
        Reason::StopFailed => RunStage::Responded { ending: Ending::StopFailed },
        Reason::FailedBeforePublication => RunStage::Restart {
            reason: Reason::FailedBeforePublication,
        },
        Reason::RolledBack => if removed {
            RunStage::Restart { reason: Reason::RolledBack }
        } else {
            RunStage::Responded { ending: Ending::VolumeKept }
        },
        Reason::Published => RunStage::Restart { reason: Reason::Published },
    }
}

/// What is done once the containers were started again, all or not all.
pub open spec fn after_restart(facts: RunFacts, reason: Reason, all: bool) -> RunStage {
    match reason {
        Reason::StopFailed => cleaning_first(
            facts,
            Reason::StopFailed,
            RunStage::Responded { ending: Ending::StopFailed },
        ),
        Reason::FailedBeforePublication => RunStage::Responded {
            ending: Ending::FailedBeforePublication,
        },
        _ => if all {
            RunStage::Responded {
                ending: Ending::Restarted { rolled_back: reason == Reason::RolledBack },
            }
        } else {
            RunStage::StopAgain { rolled_back: reason == Reason::RolledBack }
        },
    }
}

/// What is done after a step.
pub open spec fn next_stage(stage: RunStage, facts: RunFacts, happened: Happened) -> RunStage {
    let ok = happened == Happened::Succeeded;
    match stage {
        RunStage::Lock => if ok {
            RunStage::CheckRecovery
        } else {
            RunStage::Failed { error: RunError::Locked }
        },
        RunStage::CheckRecovery => if ok {
            RunStage::Preflight
        } else {
            RunStage::Failed { error: RunError::PendingRecovery }
        },
        RunStage::Preflight => if !ok {
            RunStage::Failed { error: RunError::PreviewChanged }
        } else if facts.volume {
            RunStage::PrepareVolume
        } else {
            RunStage::Prepare
        },
        RunStage::PrepareVolume => if ok {
            RunStage::Prepare
        } else {
            RunStage::Failed { error: RunError::Volume }
        },
        RunStage::Prepare => if ok {
            RunStage::Confirm
        } else {
            cleaning_first(
                facts,
                Reason::Preparation,
                RunStage::Failed { error: RunError::Preparation },
            )
        },
        RunStage::Confirm => if ok {
            RunStage::PersistQuiesce
        } else {
            cleaning_first(
                facts,
                Reason::ContainersChanged,
                RunStage::Failed { error: RunError::ContainersChanged },
            )
        },
        RunStage::PersistQuiesce => if !ok {
            cleaning_first(
                facts,
                Reason::QuiesceJournal,
                RunStage::Failed { error: RunError::QuiesceJournal },
            )
        } else if facts.containers == 0 {
            RunStage::Verify
        } else {
            RunStage::Stop { index: 0 }
        },
        RunStage::Stop { index } => if !ok {
            RunStage::Restart { reason: Reason::StopFailed }
        } else if index + 1 >= facts.containers {
            RunStage::Verify
        } else {
            RunStage::Stop { index: (index + 1) as usize }
        },
        RunStage::Verify => if ok {
            RunStage::Transact
        } else {
            after_transaction(facts, TransactionEnd::FailedBeforePublication)
        },
        RunStage::Transact => match happened {
            Happened::Ended { end } => after_transaction(facts, end),
            _ => RunStage::Responded { ending: Ending::Indeterminate },
        },
        RunStage::CleanVolume { reason } => after_cleaning(reason, ok),
        RunStage::Restart { reason } => match happened {
            Happened::Failed => RunStage::Failed { error: RunError::Restart },
            _ => after_restart(facts, reason, ok),
        },
        RunStage::StopAgain { rolled_back } => RunStage::Responded {
            ending: Ending::RestartFailed { rolled_back },
        },
        RunStage::Failed { error } => stage,
        RunStage::Responded { ending } => stage,
    }
}

/// What is done first for a restore.
pub fn begin_restore(facts: &RunFacts) -> (stage: RunStage)
    ensures
        stage == first_stage(*facts),
{
    if facts.cancelled {
        RunStage::Failed { error: RunError::Cancelled }
    } else {
        RunStage::Lock
    }
}

fn clean_first(facts: &RunFacts, reason: Reason, otherwise: RunStage) -> (stage: RunStage)
    ensures
        stage == cleaning_first(*facts, reason, otherwise),
{
    if facts.owned {
        RunStage::CleanVolume { reason }
    } else {
        otherwise
    }
}

fn follow_transaction(facts: &RunFacts, end: TransactionEnd) -> (stage: RunStage)
    ensures
        stage == after_transaction(*facts, end),
{
    match end {
        TransactionEnd::Published { rolled_back, finalization_pending } => if rolled_back
            && facts.owned {
            RunStage::CleanVolume { reason: Reason::RolledBack }
        } else if finalization_pending {
            RunStage::Responded { ending: Ending::Pending }
        } else if rolled_back {
            RunStage::Restart { reason: Reason::RolledBack }
        } else {
            RunStage::Restart { reason: Reason::Published }
        },
        TransactionEnd::FailedBeforePublication => clean_first(
            facts,
            Reason::FailedBeforePublication,
            RunStage::Restart { reason: Reason::FailedBeforePublication },
        ),
        TransactionEnd::StagingCleanupFailed => RunStage::Responded {
            ending: Ending::StagingKept,
        },
        TransactionEnd::Indeterminate => RunStage::Responded { ending: Ending::Indeterminate },
    }
}

fn follow_cleaning(reason: Reason, removed: bool) -> (stage: RunStage)
    ensures
        stage == after_cleaning(reason, removed),
{
    match reason {
        Reason::Preparation => RunStage::Failed { error: RunError::Preparation },
        Reason::ContainersChanged => RunStage::Failed {
            error: if removed {
                RunError::ContainersChanged
            } else {
                RunError::VolumeCleanup
            },
        },
        Reason::QuiesceJournal => RunStage::Failed {
            error: if removed {
                RunError::QuiesceJournal
            } else {
                RunError::VolumeCleanup
            },
        },
        Reason::StopFailed => RunStage::Responded { ending: Ending::StopFailed },
        Reason::FailedBeforePublication => RunStage::Restart {
            reason: Reason::FailedBeforePublication,
        },
        Reason::RolledBack => if removed {
            RunStage::Restart { reason: Reason::RolledBack }
        } else {
            RunStage::Responded { ending: Ending::VolumeKept }
        },
        Reason::Published => RunStage::Restart { reason: Reason::Published },
    }
}

fn follow_restart(facts: &RunFacts, reason: Reason, all: bool) -> (stage: RunStage)
    ensures
        stage == after_restart(*facts, reason, all),
{
    match reason {
        Reason::StopFailed => clean_first(
            facts,
            Reason::StopFailed,
            RunStage::Responded { ending: Ending::StopFailed },
        ),
        Reason::FailedBeforePublication => RunStage::Responded {
            ending: Ending::FailedBeforePublication,
        },
        _ => {
            let rolled_back = reason == Reason::RolledBack;
            if all {
                RunStage::Responded { ending: Ending::Restarted { rolled_back } }
            } else {
                RunStage::StopAgain { rolled_back }
            }
        },
    }
}

/// What is done after a step of a restore.
pub fn run_restore(stage: RunStage, facts: &RunFacts, happened: Happened) -> (next: RunStage)
    ensures
        next == next_stage(stage, *facts, happened),
{
    let ok = happened == Happened::Succeeded;
    match stage {
        RunStage::Lock => if ok {
            RunStage::CheckRecovery
        } else {
            RunStage::Failed { error: RunError::Locked }
        },
        RunStage::CheckRecovery => if ok {
            RunStage::Preflight
        } else {
            RunStage::Failed { error: RunError::PendingRecovery }
        },
        RunStage::Preflight => if !ok {
            RunStage::Failed { error: RunError::PreviewChanged }
        } else if facts.volume {
            RunStage::PrepareVolume
        } else {
            RunStage::Prepare
        },
        RunStage::PrepareVolume => if ok {
            RunStage::Prepare
        } else {
            RunStage::Failed { error: RunError::Volume }
        },
        RunStage::Prepare => if ok {
            RunStage::Confirm
        } else {
            clean_first(
                facts,
                Reason::Preparation,
                RunStage::Failed { error: RunError::Preparation },
            )
        },
        RunStage::Confirm => if ok {
            RunStage::PersistQuiesce
        } else {
            clean_first(
                facts,
                Reason::ContainersChanged,
                RunStage::Failed { error: RunError::ContainersChanged },
            )
        },
        RunStage::PersistQuiesce => if !ok {
            clean_first(
                facts,
                Reason::QuiesceJournal,
                RunStage::Failed { error: RunError::QuiesceJournal },
            )
        } else if facts.containers == 0 {
            RunStage::Verify
        } else {
            RunStage::Stop { index: 0 }
        },
        RunStage::Stop { index } => if !ok {
            RunStage::Restart { reason: Reason::StopFailed }
        } else if index >= facts.containers || index == facts.containers - 1 {
            RunStage::Verify
        } else {
            RunStage::Stop { index: index + 1 }
        },
        RunStage::Verify => if ok {
            RunStage::Transact
        } else {
            follow_transaction(facts, TransactionEnd::FailedBeforePublication)
        },
        RunStage::Transact => match happened {
            Happened::Ended { end } => follow_transaction(facts, end),
            _ => RunStage::Responded { ending: Ending::Indeterminate },
        },
        RunStage::CleanVolume { reason } => follow_cleaning(reason, ok),
        RunStage::Restart { reason } => match happened {
            Happened::Failed => RunStage::Failed { error: RunError::Restart },
            _ => follow_restart(facts, reason, ok),
        },
        RunStage::StopAgain { rolled_back } => RunStage::Responded {
            ending: Ending::RestartFailed { rolled_back },
        },
        RunStage::Failed { error: _ } => stage,
        RunStage::Responded { ending: _ } => stage,
    }
}

// ---------------------------------------------------------------------------
// The response
// ---------------------------------------------------------------------------

/// What the steps of a restore told.
#[derive(Clone, Debug, PartialEq, Eq)]
pub struct Told {
    /// Why the restore ended.
    pub error: String,
    /// The containers that were started again.
    pub restarted: Vec<String>,
    /// Why containers could not be started again.
    pub restart_errors: Vec<String>,
    /// Why the created volume could not be removed.
    pub cleanup_error: Option<String>,
}

/// What is told of the created volume and the containers.
pub open spec fn aftermath(told: Told) -> Seq<char> {
    "; created Volume cleanup: "@ + (match text::held(told.cleanup_error) {
        Some(error) => "failed: "@ + error,
        None => "complete"@,
    }) + "; container restart: "@ + (if told.restart_errors@.len() == 0 {
        "complete"@
    } else {
        text::separated(texts(told.restart_errors@), "; "@)
    })
}

/// The response of a restore that changed nothing.
pub open spec fn unchanged_response(what: Seq<char>, told: Told) -> RestoreModel {
    let clean = told.cleanup_error is None && told.restart_errors@.len() == 0;
    RestoreModel {
        complete: false,
        rolled_back: told.cleanup_error is None,
        finalization_pending: false,
        containers_restarted: if clean {
            texts(told.restarted@)
        } else {
            Seq::empty()
        },
        critical_error: if clean {
            None
        } else {
            Some(what + " ("@ + told.error@ + ")"@ + aftermath(told))
        },
    }
}

/// The response of a restore after which the containers stay stopped.
pub open spec fn stopped_response(rolled_back: bool, error: Seq<char>) -> RestoreModel {
    RestoreModel {
        complete: false,
        rolled_back,
        finalization_pending: false,
        containers_restarted: Seq::empty(),
        critical_error: Some(error),
    }
}

/// The response of a restore.
pub open spec fn response_of(ending: Ending, told: Told) -> RestoreModel {
    match ending {
        Ending::StopFailed => unchanged_response("Restore quiesce failed"@, told),
        Ending::FailedBeforePublication => unchanged_response(
            "Restore failed before publication"@,
            told,
        ),
        Ending::VolumeKept => stopped_response(
            false,
            "Restore rolled back but its created Volume could not be removed; affected containers remain stopped: "@
                + (match text::held(told.cleanup_error) {
                Some(error) => error,
                None => Seq::empty(),
            }),
        ),
        Ending::Pending => RestoreModel {
            complete: true,
            rolled_back: false,
            finalization_pending: true,
            containers_restarted: Seq::empty(),
            critical_error: None,
        },
        Ending::StagingKept => stopped_response(
            false,
            "Restore failed before publication; original data is unchanged, but staging recovery is required and affected containers remain stopped: "@
                + told.error@,
        ),
        Ending::Indeterminate => stopped_response(
            false,
            "Restore state is indeterminate; affected containers remain stopped: "@ + told.error@,
        ),
        Ending::Restarted { rolled_back } => RestoreModel {
            complete: !rolled_back,
            rolled_back,
            finalization_pending: false,
            containers_restarted: texts(told.restarted@),
            critical_error: None,
        },
        Ending::RestartFailed { rolled_back } => stopped_response(
            rolled_back,
            "Container state is indeterminate; keep affected containers stopped: "@
                + text::separated(texts(told.restart_errors@), "; "@),
        ),
    }
}

fn respond_stopped(rolled_back: bool, error: String) -> (response:
    TransactionalVykarRestoreResponse)
    ensures
        response@ == stopped_response(rolled_back, error@),
{
    let response = TransactionalVykarRestoreResponse {
        complete: false,
        rolled_back,
        finalization_pending: false,
        containers_restarted: Vec::new(),
        critical_error: Some(error),
    };
    assert(response@.containers_restarted =~= Seq::<Seq<char>>::empty());
    response
}

fn respond_unchanged(what: &str, told: &Told) -> (response: TransactionalVykarRestoreResponse)
    ensures
        response@ == unchanged_response(what@, *told),
{
    let clean = told.cleanup_error.is_none() && told.restart_errors.len() == 0;
    if clean {
        let response = TransactionalVykarRestoreResponse {
            complete: false,
            rolled_back: true,
            finalization_pending: false,
            containers_restarted: text::clone_texts(&told.restarted),
            critical_error: None,
        };
        assert(response@.containers_restarted =~= texts(told.restarted@));
        return response;
    }
    let mut message = text::concat3(what, " (", told.error.as_str());
    let cleanup = match &told.cleanup_error {
        Some(error) => text::concat2("failed: ", error.as_str()),
        None => "complete".to_owned(),
    };
    let restart = if told.restart_errors.len() == 0 {
        "complete".to_owned()
    } else {
        text::join_texts(&told.restart_errors, "; ")
    };
    let mut rest = text::concat3("; created Volume cleanup: ", cleanup.as_str(), "; container restart: ");
    rest.append(restart.as_str());
    message.append(")");
    message.append(rest.as_str());
    let response = TransactionalVykarRestoreResponse {
        complete: false,
        rolled_back: told.cleanup_error.is_none(),
        finalization_pending: false,
        containers_restarted: Vec::new(),
        critical_error: Some(message),
    };
    proof {
        assert(rest@ =~= aftermath(*told));
        assert(message@ =~= what@ + " ("@ + told.error@ + ")"@ + aftermath(*told));
        assert(response@.containers_restarted =~= Seq::<Seq<char>>::empty());
    }
    response
}

/// The response of a restore.
pub fn restore_response(ending: Ending, told: &Told) -> (response:
    TransactionalVykarRestoreResponse)
    ensures
        response@ == response_of(ending, *told),
{
    match ending {
        Ending::StopFailed => respond_unchanged("Restore quiesce failed", told),
        Ending::FailedBeforePublication => respond_unchanged(
            "Restore failed before publication",
            told,
        ),
        Ending::VolumeKept => {
            let head = "Restore rolled back but its created Volume could not be removed; affected containers remain stopped: ";
            let message = match &told.cleanup_error {
                Some(error) => text::concat2(head, error.as_str()),
                None => head.to_owned(),
            };
            proof {
                if told.cleanup_error is None {
                    assert(message@ =~= head@ + Seq::<char>::empty());
                }
            }
            respond_stopped(false, message)
        },
        Ending::Pending => {
            let response = TransactionalVykarRestoreResponse {
                complete: true,
                rolled_back: false,
                finalization_pending: true,
                containers_restarted: Vec::new(),
                critical_error: None,
            };
            assert(response@.containers_restarted =~= Seq::<Seq<char>>::empty());
            response
        },
        Ending::StagingKept => respond_stopped(
            false,
            text::concat2(
                "Restore failed before publication; original data is unchanged, but staging recovery is required and affected containers remain stopped: ",
                told.error.as_str(),
            ),
        ),
        Ending::Indeterminate => respond_stopped(
            false,
            text::concat2(
                "Restore state is indeterminate; affected containers remain stopped: ",
                told.error.as_str(),
            ),
        ),
        Ending::Restarted { rolled_back } => {
            let response = TransactionalVykarRestoreResponse {
                complete: !rolled_back,
                rolled_back,
                finalization_pending: false,
                containers_restarted: text::clone_texts(&told.restarted),
                critical_error: None,
            };
            assert(response@.containers_restarted =~= texts(told.restarted@));
            response
        },
        Ending::RestartFailed { rolled_back } => {
            let errors = text::join_texts(&told.restart_errors, "; ");
            respond_stopped(
                rolled_back,
                text::concat2(
                    "Container state is indeterminate; keep affected containers stopped: ",
                    errors.as_str(),
                ),
            )
        },
    }
}

/// The state of a restore that has ended.
pub open spec fn restored_state(
    finalization_pending: bool,
    has_pending_journals: bool,
) -> VykarBackupCompletionState {
    if finalization_pending {
        VykarBackupCompletionState::Prepared
    } else if has_pending_journals {
        VykarBackupCompletionState::RecoveryRequired
    } else {
        VykarBackupCompletionState::Complete
    }
}

/// How far the restore has come once it has ended: a publication may wait for a
/// decision, or an unfinished journal for recovery.
pub fn restore_completion_state(finalization_pending: bool, has_pending_journals: bool) -> (state:
    VykarBackupCompletionState)
    ensures
        state == restored_state(finalization_pending, has_pending_journals),
{
    if finalization_pending {
        VykarBackupCompletionState::Prepared
    } else if has_pending_journals {
        VykarBackupCompletionState::RecoveryRequired
    } else {
        VykarBackupCompletionState::Complete
    }
}

/// Whether the containers are those that were confirmed, in any order.
pub fn containers_confirmed(expected: &Vec<String>, current: &Vec<String>) -> (same: bool)
    ensures
        same == (texts(expected@).to_multiset() == texts(current@).to_multiset()),
{
    let mut rest = text::clone_texts(current);
    if expected.len() != rest.len() {
        proof {
            broadcast use vstd::seq_lib::group_to_multiset_ensures;

            assert(texts(expected@).to_multiset().len() == expected@.len());
            assert(texts(current@).to_multiset().len() == current@.len());
        }
        return false;
    }
    proof {
        assert(texts(rest@) =~= texts(current@));
        assert(texts(expected@).skip(0) =~= texts(expected@));
    }
    for i in 0..expected.len()
        invariant
            expected@.len() == current@.len(),
            rest@.len() == expected@.len() - i,
            (texts(expected@).to_multiset() == texts(current@).to_multiset()) == (texts(
                expected@,
            ).skip(i as int).to_multiset() == texts(rest@).to_multiset()),
    {
        let ghost list = texts(expected@).skip(i as int);
        let ghost others = texts(rest@);
        let mut k: usize = 0;
        while k < rest.len() && !text::same(rest[k].as_str(), expected[i].as_str())
            invariant
                k <= rest@.len(),
                i < expected@.len(),
                others == texts(rest@),
                forall|j: int| 0 <= j < k ==> (#[trigger] rest@[j])@ != expected@[i as int]@,
            decreases rest.len() - k,
        {
            k = k + 1;
        }
        proof {
            broadcast use vstd::seq_lib::group_to_multiset_ensures;

            assert(list[0] == expected@[i as int]@);
            assert(list.contains(list[0]));
            assert(list.to_multiset().count(list[0]) > 0);
        }
        if k == rest.len() {
            proof {
                broadcast use vstd::seq_lib::group_to_multiset_ensures;

                assert(!others.contains(list[0])) by {
                    if others.contains(list[0]) {
                        let j = others.index_of(list[0]);
                        assert(rest@[j]@ == list[0]);
                    }
                }
                assert(others.to_multiset().count(list[0]) == 0);
            }
            return false;
        }
        let _ = rest.remove(k);
        proof {
            broadcast use vstd::seq_lib::group_to_multiset_ensures;

            assert(texts(rest@) =~= others.remove(k as int));
            assert(texts(expected@).skip(i + 1) =~= list.remove(0));
            assert(list.remove(0).to_multiset() == list.to_multiset().remove(list[0]));
            assert(others.remove(k as int).to_multiset() == others.to_multiset().remove(list[0]));
            assert(others.contains(list[0])) by {
                assert(others[k as int] == list[0]);
            }
            assert(others.to_multiset().count(list[0]) > 0);
            if list.remove(0).to_multiset() == others.remove(k as int).to_multiset() {
                assert(list.to_multiset() =~= list.to_multiset().remove(list[0]).insert(list[0]));
                assert(others.to_multiset() =~= others.to_multiset().remove(list[0]).insert(
                    list[0],
                ));
            }
        }
    }
    assert(texts(expected@).skip(expected@.len() as int) =~= texts(rest@));
    true
}

// ---------------------------------------------------------------------------
// The volume
// ---------------------------------------------------------------------------

/// Where a path of the volume goes, now that its mountpoint is known.
pub open spec fn resolved_destination(
    destination: Seq<char>,
    volume_name: Seq<char>,
    mountpoint: Seq<char>,
    full_restore: bool,
) -> Option<Seq<char>> {
    if full_restore {
        Some(mountpoint)
    } else {
        match path::stripped(destination, preview::logical_root(volume_name)) {
            Some(relative) => Some(path::joined(mountpoint, relative)),
            None => None,
        }
    }
}

/// The mapping goes to the mountpoint of the volume.
pub open spec fn is_resolved(
    before: RestorePublishPath,
    after: RestorePublishPath,
    volume_name: Seq<char>,
    mountpoint: Seq<char>,
    full_restore: bool,
) -> bool {
    &&& after.snapshot_path@ == before.snapshot_path@
    &&& resolved_destination(before.destination@, volume_name, mountpoint, full_restore) == Some(
        after.destination@,
    )
    &&& if full_restore {
        text::held(after.destination_root) == text::held(before.destination_root)
    } else {
        text::held(after.destination_root) == Some(mountpoint)
    }
}

/// Sends the paths of a volume to its mountpoint. A selected path that lies
/// outside the volume is an error, which tells the position of that path.
pub fn resolve_volume_publish_destinations(
    publish: &Vec<RestorePublishPath>,
    volume_name: &str,
    mountpoint: &str,
    full_restore: bool,
) -> (resolved: Result<Vec<RestorePublishPath>, usize>)
    ensures
        match resolved {
            Ok(list) => list@.len() == publish@.len() && forall|i: int|
                0 <= i < list@.len() ==> is_resolved(
                    publish@[i],
                    #[trigger] list@[i],
                    volume_name@,
                    mountpoint@,
                    full_restore,
                ),
            Err(i) => {
                &&& i < publish@.len()
                &&& resolved_destination(
                    publish@[i as int].destination@,
                    volume_name@,
                    mountpoint@,
                    full_restore,
                ) is None
                &&& forall|j: int|
                    0 <= j < i ==> resolved_destination(
                        (#[trigger] publish@[j]).destination@,
                        volume_name@,
                        mountpoint@,
                        full_restore,
                    ) is Some
            },
        },
{
    let root = path::join(path::join("/var/lib/docker/volumes", volume_name).as_str(), "_data");
    let mut list: Vec<RestorePublishPath> = Vec::new();
    for i in 0..publish.len()
        invariant
            root@ == preview::logical_root(volume_name@),
            list@.len() == i,
            forall|j: int|
                0 <= j < i ==> is_resolved(
                    publish@[j],
                    #[trigger] list@[j],
                    volume_name@,
                    mountpoint@,
                    full_restore,
                ),
            forall|j: int|
                0 <= j < i ==> resolved_destination(
                    (#[trigger] publish@[j]).destination@,
                    volume_name@,
                    mountpoint@,
                    full_restore,
                ) is Some,
    {
        let item = &publish[i];
        let destination = if full_restore {
            mountpoint.to_owned()
        } else {
            match path::strip_prefix(item.destination.as_str(), root.as_str()) {
                Some(relative) => path::join(mountpoint, relative.as_str()),
                None => {
                    return Err(i);
                },
            }
        };
        let destination_root = if full_restore {
            match &item.destination_root {
                Some(root) => Some(root.clone()),
                None => None,
            }
        } else {
            Some(mountpoint.to_owned())
        };
        list.push(
            RestorePublishPath {
                snapshot_path: item.snapshot_path.clone(),
                destination,
                destination_root,
            },
        );
    }
    Ok(list)
}

/// What is done for the volume of a restore.
#[derive(Clone, Copy, Debug, PartialEq, Eq, Structural)]
pub enum VolumePlan {
    /// The volume is there; nothing is noted.
    Use,
    /// The volume was created for this plan; that is noted.
    Adopt,
    /// It is noted that the volume is created, and it is created.
    Create,
}

/// Why a restore cannot use the volume.
#[derive(Clone, Copy, Debug, PartialEq, Eq, Structural)]
pub enum VolumeError {
    /// The volume is not there any more.
    Missing,
    /// The volume has come without having been created for this plan.
    Exists,
    /// Another one created the volume at the same time.
    Contested,
}

/// The label says that the volume was created for the plan.
pub open spec fn is_owned_by(label: Option<Seq<char>>, restore_plan_id: Seq<char>) -> bool {
    label == Some(restore_plan_id)
}

/// What is done for the volume of a restore.
pub open spec fn volume_plan(
    exists: bool,
    label: Option<Seq<char>>,
    restore_plan_id: Seq<char>,
    create_if_missing: bool,
) -> Result<VolumePlan, VolumeError> {
    if !create_if_missing {
        if exists {
            Ok(VolumePlan::Use)
        } else {
            Err(VolumeError::Missing)
        }
    } else if !exists {
        Ok(VolumePlan::Create)
    } else if is_owned_by(label, restore_plan_id) {
        Ok(VolumePlan::Adopt)
    } else {
        Err(VolumeError::Exists)
    }
}

/// What is done for the volume of a restore. A volume that is to be created is
/// used if it is there only where its label says that it was created for the
/// same plan.
pub fn prepare_restore_volume(
    exists: bool,
    label: &Option<String>,
    restore_plan_id: &str,
    create_if_missing: bool,
) -> (plan: Result<VolumePlan, VolumeError>)
    ensures
        plan == volume_plan(exists, text::held(*label), restore_plan_id@, create_if_missing),
{
    if !create_if_missing {
        if exists {
            Ok(VolumePlan::Use)
        } else {
            Err(VolumeError::Missing)
        }
    } else if !exists {
        Ok(VolumePlan::Create)
    } else if text::is_some_text(label, restore_plan_id) {
        Ok(VolumePlan::Adopt)
    } else {
        Err(VolumeError::Exists)
    }
}

/// Whether the volume that was created is this plan's own.
pub fn check_created_volume(label: &Option<String>, restore_plan_id: &str) -> (outcome: Result<
    (),
    VolumeError,
>)
    ensures
        outcome == if is_owned_by(text::held(*label), restore_plan_id@) {
            Ok(())
        } else {
            Err(VolumeError::Contested)
        },
{
    if text::is_some_text(label, restore_plan_id) {
        Ok(())
    } else {
        Err(VolumeError::Contested)
    }
}

/// The plan that a volume is created for: its own one, or the restore's.
pub fn volume_plan_id(volume_restore_plan_id: &str, journal_id: &str) -> (id: String)
    ensures
        id@ == if volume_restore_plan_id@.len() == 0 {
            journal_id@
        } else {
            volume_restore_plan_id@
        },
{
    if text::chars_of(volume_restore_plan_id).len() == 0 {
        journal_id.to_owned()
    } else {
        volume_restore_plan_id.to_owned()
    }
}

/// What a preflight finds at the destination.
#[derive(Clone, Copy, Debug, PartialEq, Eq, Structural)]
pub enum Destination {
    /// The destination is there and can be looked at.
    Existing,
    /// The stack has no files here; they are created.
    MissingStack,
    /// The volume does not exist; it is created.
    MissingVolume,
}

/// What a preflight finds. The source of a stack may be missing; a volume that
/// Docker lists has to be readable.
pub fn judge_destination(is_volume: bool, volume_listed: bool, discovered: bool) -> (destination:
    Option<Destination>)
    ensures
        destination == if !is_volume {
            if discovered {
                Some(Destination::Existing)
            } else {
                Some(Destination::MissingStack)
            }
        } else if !volume_listed {
            Some(Destination::MissingVolume)
        } else if discovered {
            Some(Destination::Existing)
        } else {
            None
        },
{
    if !is_volume {
        if discovered {
            Some(Destination::Existing)
        } else {
            Some(Destination::MissingStack)
        }
    } else if !volume_listed {
        Some(Destination::MissingVolume)
    } else if discovered {
        Some(Destination::Existing)
    } else {
        None
    }
}

/// The preview of a restore. No container uses a volume that does not exist, so
/// none is stopped for it.
pub fn preflight_restore(
    destination: Destination,
    changes: &PathChanges,
    running: Vec<String>,
) -> (preview: PreflightVykarRestoreResponse)
    ensures
        preview::previews(
            preview,
            in_order(texts(changes.created@)),
            in_order(texts(changes.overwritten@)),
            in_order(texts(changes.deleted@)),
        ),
        preview.destination_exists == (destination == Destination::Existing),
        texts(preview.containers_to_stop@) == if destination == Destination::MissingVolume {
            Seq::empty()
        } else {
            texts(running@)
        },
{
    let mut preview = preview::bounded_restore_preview(
        &changes.created,
        &changes.overwritten,
        &changes.deleted,
    );
    preview.destination_exists = destination == Destination::Existing;
    preview.containers_to_stop =
    if destination == Destination::MissingVolume {
        Vec::new()
    } else {
        running
    };
    assert(destination == Destination::MissingVolume ==> texts(preview.containers_to_stop@)
        =~= Seq::<Seq<char>>::empty());
    preview
}

/// Where the root of a new volume is: the destination of a whole restore, or the
/// root that was found for a selection. There may be nothing to restore, or no
/// root.
pub open spec fn new_volume_root(publish: Seq<RestorePublishPath>, full_restore: bool) -> Option<
    Seq<char>,
> {
    if publish.len() == 0 {
        None
    } else if full_restore {
        Some(publish[0].destination@)
    } else {
        text::held(publish[0].destination_root)
    }
}

/// Where the root of a new volume is.
pub fn find_new_volume_root(publish: &Vec<RestorePublishPath>, full_restore: bool) -> (root: Option<
    String,
>)
    ensures
        text::held(root) == new_volume_root(publish@, full_restore),
{
    if publish.len() == 0 {
        None
    } else if full_restore {
        Some(publish[0].destination.clone())
    } else {
        match &publish[0].destination_root {
            Some(root) => Some(root.clone()),
            None => None,
        }
    }
}

/// The changes that a confirmed preview is compared with, once the containers
/// have stopped: those of a volume that was created for the restore are named
/// inside the volume.
pub fn verify_quiesced_restore_preview(
    expected: &PreflightVykarRestoreResponse,
    changes: PathChanges,
    new_volume: &Option<String>,
    publish: &Vec<RestorePublishPath>,
    full_restore: bool,
    root_is_directory: bool,
    original_running: Vec<String>,
) -> (unchanged: Option<bool>)
    ensures
        if !expected.destination_exists && new_volume is Some {
            match new_volume_root(publish@, full_restore) {
                None => unchanged is None,
                Some(root) => match preview::named_inside(
                    texts(changes.created@),
                    texts(changes.overwritten@),
                    texts(changes.deleted@),
                    root,
                    new_volume.unwrap()@,
                    root_is_directory,
                ) {
                    None => unchanged is None,
                    Some(named) => unchanged matches Some(same) && preview::tells_the_same_as(
                        *expected,
                        named.0,
                        named.1,
                        named.2,
                        texts(original_running@),
                        same,
                    ),
                },
            }
        } else {
            unchanged matches Some(same) && preview::tells_the_same_as(
                *expected,
                texts(changes.created@),
                texts(changes.overwritten@),
                texts(changes.deleted@),
                texts(original_running@),
                same,
            )
        },
{
    match new_volume {
        Some(volume_name) => {
            if !expected.destination_exists {
                let root = match find_new_volume_root(publish, full_restore) {
                    None => {
                        return None;
                    },
                    Some(root) => root,
                };
                return match preview::normalize_created_volume_preview(
                    &changes,
                    root.as_str(),
                    volume_name.as_str(),
                    root_is_directory,
                ) {
                    Err(_) => None,
                    Ok(named) => Some(
                        preview::ensure_quiesced_preview_matches(expected, &named, original_running),
                    ),
                };
            }
        },
        None => {},
    }
    Some(preview::ensure_quiesced_preview_matches(expected, &changes, original_running))
}

/// Whether a volume that was created for a restore is removed again: it is there
/// and still carries the plan of the restore. `found` is the label of the volume,
/// if there is such a volume.
pub fn remove_owned_restore_volume(
    found: &Option<Option<String>>,
    owned: &RestoreOwnedVolume,
) -> (remove: bool)
    ensures
        remove == (found matches Some(label) && is_owned_by(
            text::held(*label),
            owned.restore_plan_id@,
        )),
{
    match found {
        None => false,
        Some(label) => text::is_some_text(label, owned.restore_plan_id.as_str()),
    }
}

// ---------------------------------------------------------------------------
// The transaction
// ---------------------------------------------------------------------------

/// Why a transaction does not begin.
#[derive(Clone, Copy, Debug, PartialEq, Eq, Structural)]
pub enum BeginError {
    /// There is nothing to publish.
    EmptyPlan,
    /// The restore was cancelled.
    Cancelled,
    /// The destination has no parent directory.
    NoParent,
}

/// Where the snapshot is restored to before it is published.
pub open spec fn staging_of(publish: Seq<RestorePublishPath>, journal_id: Seq<char>, cancelled: bool) -> Result<
    Seq<char>,
    BeginError,
> {
    if publish.len() == 0 {
        Err(BeginError::EmptyPlan)
    } else if cancelled {
        Err(BeginError::Cancelled)
    } else {
        match path::parent_of(publish[0].destination@) {
            None => Err(BeginError::NoParent),
            Some(parent) => Ok(path::joined(parent, ".komodo-restore-"@ + journal_id)),
        }
    }
}

/// Where the snapshot is restored to before it is published: next to the first
/// destination.
pub fn begin_transaction(
    publish: &Vec<RestorePublishPath>,
    journal_id: &str,
    cancelled: bool,
) -> (staging: Result<String, BeginError>)
    ensures
        match staging {
            Ok(path) => staging_of(publish@, journal_id@, cancelled) == Ok::<Seq<char>, BeginError>(
                path@,
            ),
            Err(error) => staging_of(publish@, journal_id@, cancelled) == Err::<
                Seq<char>,
                BeginError,
            >(error),
        },
{
    if publish.len() == 0 {
        return Err(BeginError::EmptyPlan);
    }
    if cancelled {
        return Err(BeginError::Cancelled);
    }
    match path::parent(publish[0].destination.as_str()) {
        None => Err(BeginError::NoParent),
        Some(parent) => Ok(
            path::join(
                parent.as_str(),
                text::concat2(".komodo-restore-", journal_id).as_str(),
            ),
        ),
    }
}

/// How the transaction ends if it does not begin: a cancelled one has changed
/// nothing and is as good as put back.
pub fn not_begun(error: BeginError) -> (end: TransactionEnd)
    ensures
        end == if error == BeginError::Cancelled {
            TransactionEnd::Published { rolled_back: true, finalization_pending: false }
        } else {
            TransactionEnd::FailedBeforePublication
        },
{
    match error {
        BeginError::Cancelled => TransactionEnd::Published {
            rolled_back: true,
            finalization_pending: false,
        },
        _ => TransactionEnd::FailedBeforePublication,
    }
}

/// What is done next in a transaction.
#[derive(Clone, Copy, Debug, PartialEq, Eq, Structural)]
pub enum TransactionStage {
    /// See that nothing stands at the staging path, and note it.
    NoteStaging,
    /// Restore the snapshot into the staging path.
    RestoreSnapshot,
    /// Adapt the Compose files of a recovered stack.
    RewriteCompose,
    /// See whether the restore was cancelled.
    CheckCancelled,
    /// Publish what was staged.
    Publish,
    /// Remove what was staged, after a failure or a cancellation.
    CleanStaging { cancelled: bool },
    /// The transaction has ended.
    Ended { end: TransactionEnd },
}

/// What came of a step of a transaction.
#[derive(Clone, Copy, Debug, PartialEq, Eq, Structural)]
pub enum StepOutcome {
    Succeeded,
    Failed,
    /// The files were published, and perhaps put back.
    Published { rolled_back: bool },
    /// The publication failed after it had begun.
    BrokeOff,
}

/// What is done after a step of a transaction.
pub open spec fn next_transaction_stage(
    stage: TransactionStage,
    outcome: StepOutcome,
    defer_finalize: bool,
) -> TransactionStage {
    let ok = outcome == StepOutcome::Succeeded;
    match stage {
        TransactionStage::NoteStaging => if ok {
            TransactionStage::RestoreSnapshot
        } else {
            TransactionStage::Ended { end: TransactionEnd::FailedBeforePublication }
        },
        TransactionStage::RestoreSnapshot => if ok {
            TransactionStage::RewriteCompose
        } else {
            TransactionStage::CleanStaging { cancelled: false }
        },
        TransactionStage::RewriteCompose => if ok {
            TransactionStage::CheckCancelled
        } else {
            TransactionStage::CleanStaging { cancelled: false }
        },
        TransactionStage::CheckCancelled => if ok {
            TransactionStage::Publish
        } else {
            TransactionStage::CleanStaging { cancelled: true }
        },
        TransactionStage::Publish => match outcome {
            StepOutcome::Published { rolled_back } => TransactionStage::Ended {
                end: TransactionEnd::Published {
                    rolled_back,
                    finalization_pending: defer_finalize && !rolled_back,
                },
            },
            StepOutcome::Failed => TransactionStage::CleanStaging { cancelled: false },
            _ => TransactionStage::Ended { end: TransactionEnd::Indeterminate },
        },
        TransactionStage::CleanStaging { cancelled } => TransactionStage::Ended {
            end: if !ok {
                TransactionEnd::StagingCleanupFailed
            } else if cancelled {
                TransactionEnd::Published { rolled_back: true, finalization_pending: false }
            } else {
                TransactionEnd::FailedBeforePublication
            },
        },
        TransactionStage::Ended { end } => stage,
    }
}

/// What is done after a step of a transaction.
pub fn transactional_restore(
    stage: TransactionStage,
    outcome: StepOutcome,
    defer_finalize: bool,
) -> (next: TransactionStage)
    ensures
        next == next_transaction_stage(stage, outcome, defer_finalize),
{
    let ok = outcome == StepOutcome::Succeeded;
    match stage {
        TransactionStage::NoteStaging => if ok {
            TransactionStage::RestoreSnapshot
        } else {
            TransactionStage::Ended { end: TransactionEnd::FailedBeforePublication }
        },
        TransactionStage::RestoreSnapshot => if ok {
            TransactionStage::RewriteCompose
        } else {
            TransactionStage::CleanStaging { cancelled: false }
        },
        TransactionStage::RewriteCompose => if ok {
            TransactionStage::CheckCancelled
        } else {
            TransactionStage::CleanStaging { cancelled: false }
        },
        TransactionStage::CheckCancelled => if ok {
            TransactionStage::Publish
        } else {
            TransactionStage::CleanStaging { cancelled: true }
        },
        TransactionStage::Publish => match outcome {
            StepOutcome::Published { rolled_back } => TransactionStage::Ended {
                end: TransactionEnd::Published {
                    rolled_back,
                    finalization_pending: defer_finalize && !rolled_back,
                },
            },
            StepOutcome::Failed => TransactionStage::CleanStaging { cancelled: false },
            _ => TransactionStage::Ended { end: TransactionEnd::Indeterminate },
        },
        TransactionStage::CleanStaging { cancelled } => TransactionStage::Ended {
            end: if !ok {
                TransactionEnd::StagingCleanupFailed
            } else if cancelled {
                TransactionEnd::Published { rolled_back: true, finalization_pending: false }
            } else {
                TransactionEnd::FailedBeforePublication
            },
        },
        TransactionStage::Ended { end: _ } => stage,
    }
}

/// How a restore ended before its publication, and why.
#[derive(Clone, Debug, PartialEq, Eq)]
pub struct RestoreTransactionResult {
    pub end: TransactionEnd,
    pub message: Option<String>,
}

/// How a restore ended before its publication: with the error that it had, or
/// cancelled if it had none. What was staged may still be there.
pub fn finish_restore_before_publication(error: &Option<String>, cleanup: &Result<(), String>) -> (result:
    RestoreTransactionResult)
    ensures
        match *cleanup {
            Err(cause) => result.end == TransactionEnd::StagingCleanupFailed && text::held(
                result.message,
            ) == Some(
                (match text::held(*error) {
                    Some(reason) => "Restore failed: "@ + reason,
                    None => "Restore was cancelled"@,
                }) + "; restore staging cleanup failed: "@ + cause@,
            ),
            Ok(_) => match text::held(*error) {
                Some(reason) => result.end == TransactionEnd::FailedBeforePublication
                    && text::held(result.message) == Some(reason),
                None => result.end == TransactionEnd::Published {
                    rolled_back: true,
                    finalization_pending: false,
                } && result.message is None,
            },
        },
{
    match cleanup {
        Err(cause) => {
            let reason = match error {
                Some(error) => text::concat2("Restore failed: ", error.as_str()),
                None => "Restore was cancelled".to_owned(),
            };
            RestoreTransactionResult {
                end: TransactionEnd::StagingCleanupFailed,
                message: Some(
                    text::concat3(
                        reason.as_str(),
                        "; restore staging cleanup failed: ",
                        cause.as_str(),
                    ),
                ),
            }
        },
        Ok(_) => match error {
            Some(error) => RestoreTransactionResult {
                end: TransactionEnd::FailedBeforePublication,
                message: Some(error.clone()),
            },
            None => RestoreTransactionResult {
                end: TransactionEnd::Published { rolled_back: true, finalization_pending: false },
                message: None,
            },
        },
    }
}

/// The length of an entry that counts when a restored tree is compared: that of
/// a directory is a matter of its storage.
pub fn restore_verification_len(is_directory: bool, len: u64) -> (counted: u64)
    ensures
        counted == if is_directory {
            0
        } else {
            len
        },
{
    if is_directory {
        0
    } else {
        len
    }
}

// ---------------------------------------------------------------------------
// Laws
// ---------------------------------------------------------------------------

/// How many steps there can be from a stage to the end.
pub open spec fn steps_left(stage: RunStage, facts: RunFacts) -> nat {
    match stage {
        RunStage::Lock => 13 + facts.containers as nat,
        RunStage::CheckRecovery => 12 + facts.containers as nat,
        RunStage::Preflight => 11 + facts.containers as nat,
        RunStage::PrepareVolume => 10 + facts.containers as nat,
        RunStage::Prepare => 9 + facts.containers as nat,
        RunStage::Confirm => 8 + facts.containers as nat,
        RunStage::PersistQuiesce => 7 + facts.containers as nat,
        RunStage::Stop { index } => if index < facts.containers {
            (6 + facts.containers - index) as nat
        } else {
            6
        },
        RunStage::Verify => 5,
        RunStage::Transact => 4,
        RunStage::CleanVolume { reason } => if reason == Reason::StopFailed || reason
            == Reason::Preparation || reason == Reason::ContainersChanged || reason
            == Reason::QuiesceJournal {
            1
        } else {
            3
        },
        RunStage::Restart { reason } => 2,
        RunStage::StopAgain { rolled_back } => 1,
        RunStage::Failed { error } => 0,
        RunStage::Responded { ending } => 0,
    }
}

/// Every restore comes to an end.
pub proof fn restores_end(stage: RunStage, facts: RunFacts, happened: Happened)
    requires
        !run_is_over(stage),
    ensures
        steps_left(next_stage(stage, facts, happened), facts) < steps_left(stage, facts),
{
}

/// No container is stopped before it is noted that it has to be started again.
pub proof fn containers_are_noted_before_they_stop(
    stage: RunStage,
    facts: RunFacts,
    happened: Happened,
)
    requires
        next_stage(stage, facts, happened) is Stop,
    ensures
        happened == Happened::Succeeded,
        stage is PersistQuiesce || stage is Stop,
{
}

/// Files are restored only after the destination has been compared once more with
/// what was confirmed, when all containers had stopped.
pub proof fn restores_follow_the_confirmed_preview(
    stage: RunStage,
    facts: RunFacts,
    happened: Happened,
)
    requires
        next_stage(stage, facts, happened) is Transact,
        !run_is_over(stage),
    ensures
        stage is Verify,
        happened == Happened::Succeeded,
{
}

/// A response that tells of containers that run again tells of no critical
/// error, and one that leaves containers stopped says why or waits for a
/// decision.
pub proof fn responses_tell_about_containers(ending: Ending, told: Told)
    ensures
        response_of(ending, told).containers_restarted.len() > 0 ==> response_of(
            ending,
            told,
        ).critical_error is None,
        response_of(ending, told).complete ==> response_of(ending, told).critical_error is None
            && !response_of(ending, told).rolled_back,
        response_of(ending, told).finalization_pending ==> response_of(ending, told).complete
            && response_of(ending, told).containers_restarted.len() == 0,
        ending == Ending::Indeterminate || ending == Ending::StagingKept || ending
            == Ending::VolumeKept ==> response_of(ending, told).critical_error is Some
            && !response_of(ending, told).rolled_back,
{
}

/// A transaction that is cancelled or fails before its publication leaves nothing
/// staged, or says so.
pub proof fn unpublished_transactions_are_cleaned(
    stage: TransactionStage,
    outcome: StepOutcome,
    defer_finalize: bool,
)
    requires
        stage is RestoreSnapshot || stage is RewriteCompose || stage is CheckCancelled,
        outcome != StepOutcome::Succeeded,
    ensures
        next_transaction_stage(stage, outcome, defer_finalize) is CleanStaging,
        forall|end: StepOutcome|
            end != StepOutcome::Succeeded ==> #[trigger] next_transaction_stage(
                next_transaction_stage(stage, outcome, defer_finalize),
                end,
                defer_finalize,
            ) == (TransactionStage::Ended { end: TransactionEnd::StagingCleanupFailed }),
{
}

/// A restore that may create its volume never writes into one that it did not
/// create.
pub proof fn volumes_are_not_taken_over(
    exists: bool,
    label: Option<Seq<char>>,
    restore_plan_id: Seq<char>,
)
    requires
        volume_plan(exists, label, restore_plan_id, true) is Ok,
        exists,
    ensures
        is_owned_by(label, restore_plan_id),
{
}

/// The stage that a restore has come to after all that happened.
pub open spec fn stage_after(facts: RunFacts, happened: Seq<Happened>) -> RunStage
    decreases happened.len(),
{
    if happened.len() == 0 {
        first_stage(facts)
    } else {
        next_stage(stage_after(facts, happened.drop_last()), facts, happened.last())
    }
}

/// The step was taken on the way, and this came of it.
pub open spec fn came_of(
    facts: RunFacts,
    happened: Seq<Happened>,
    step: RunStage,
    what: Happened,
) -> bool {
    exists|i: int|
        0 <= i < happened.len() && #[trigger] stage_after(facts, happened.take(i)) == step
            && happened[i] == what
}

/// The step was taken on the way, with success.
pub open spec fn succeeded(facts: RunFacts, happened: Seq<Happened>, step: RunStage) -> bool {
    came_of(facts, happened, step, Happened::Succeeded)
}

/// The step was taken on the way, without success.
pub open spec fn went_wrong(facts: RunFacts, happened: Seq<Happened>, step: RunStage) -> bool {
    exists|i: int|
        0 <= i < happened.len() && #[trigger] stage_after(facts, happened.take(i)) == step
            && happened[i] != Happened::Succeeded
}

/// The step was taken on the way.
pub open spec fn was_taken(facts: RunFacts, happened: Seq<Happened>, step: RunStage) -> bool {
    succeeded(facts, happened, step) || went_wrong(facts, happened, step)
}

/// The transaction has ended so on the way.
pub open spec fn transacted(facts: RunFacts, happened: Seq<Happened>, end: TransactionEnd) -> bool {
    came_of(facts, happened, RunStage::Transact, Happened::Ended { end })
}

/// The files were published on the way, and put back or not.
pub open spec fn published(facts: RunFacts, happened: Seq<Happened>, rolled_back: bool) -> bool {
    ||| transacted(
        facts,
        happened,
        TransactionEnd::Published { rolled_back, finalization_pending: false },
    )
    ||| transacted(
        facts,
        happened,
        TransactionEnd::Published { rolled_back, finalization_pending: true },
    )
}

/// A container could not be stopped on the way.
pub open spec fn a_stop_failed(facts: RunFacts, happened: Seq<Happened>) -> bool {
    exists|k: usize| #[trigger] went_wrong(facts, happened, RunStage::Stop { index: k })
}

/// A container was to be stopped on the way.
pub open spec fn a_stop_was_tried(facts: RunFacts, happened: Seq<Happened>) -> bool {
    exists|k: usize| #[trigger] was_taken(facts, happened, RunStage::Stop { index: k })
}

/// Nothing was published on the way, and the confirmed preview no longer held or
/// the transaction failed first.
pub open spec fn nothing_was_published(facts: RunFacts, happened: Seq<Happened>) -> bool {
    ||| went_wrong(facts, happened, RunStage::Verify)
    ||| transacted(facts, happened, TransactionEnd::FailedBeforePublication)
}

proof fn lemma_came_of_grows(facts: RunFacts, happened: Seq<Happened>)
    requires
        happened.len() > 0,
    ensures
        forall|step: RunStage, what: Happened|
            came_of(facts, happened.drop_last(), step, what) ==> #[trigger] came_of(
                facts,
                happened,
                step,
                what,
            ),
        forall|step: RunStage|
            went_wrong(facts, happened.drop_last(), step) ==> #[trigger] went_wrong(
                facts,
                happened,
                step,
            ),
        forall|step: RunStage, what: Happened|
            #[trigger] came_of(facts, happened, step, what) ==> came_of(
                facts,
                happened.drop_last(),
                step,
                what,
            ) || (step == stage_after(facts, happened.drop_last()) && what == happened.last()),
        forall|step: RunStage|
            #[trigger] went_wrong(facts, happened, step) ==> went_wrong(
                facts,
                happened.drop_last(),
                step,
            ) || (step == stage_after(facts, happened.drop_last()) && happened.last()
                != Happened::Succeeded),
        came_of(
            facts,
            happened,
            stage_after(facts, happened.drop_last()),
            happened.last(),
        ),
        happened.last() != Happened::Succeeded ==> went_wrong(
            facts,
            happened,
            stage_after(facts, happened.drop_last()),
        ),
{
    let before = happened.drop_last();
    let n = before.len() as int;
    assert(happened.take(n) =~= before);
    assert forall|i: int| 0 <= i < n implies #[trigger] happened.take(i) == before.take(i) by {
        assert(happened.take(i) =~= before.take(i));
    }
    assert(stage_after(facts, happened.take(n)) == stage_after(facts, before));
    assert forall|step: RunStage, what: Happened| came_of(
        facts,
        before,
        step,
        what,
    ) implies #[trigger] came_of(facts, happened, step, what) by {
        let i = choose|i: int|
            0 <= i < before.len() && #[trigger] stage_after(facts, before.take(i)) == step
                && before[i] == what;
        assert(stage_after(facts, happened.take(i)) == step);
    }
    assert forall|step: RunStage| went_wrong(facts, before, step) implies #[trigger] went_wrong(
        facts,
        happened,
        step,
    ) by {
        let i = choose|i: int|
            0 <= i < before.len() && #[trigger] stage_after(facts, before.take(i)) == step
                && before[i] != Happened::Succeeded;
        assert(stage_after(facts, happened.take(i)) == step);
    }
    assert forall|step: RunStage, what: Happened| #[trigger] came_of(
        facts,
        happened,
        step,
        what,
    ) implies came_of(facts, before, step, what) || (step == stage_after(facts, before) && what
        == happened.last()) by {
        let i = choose|i: int|
            0 <= i < happened.len() && #[trigger] stage_after(facts, happened.take(i)) == step
                && happened[i] == what;
        if i < n {
            assert(stage_after(facts, before.take(i)) == step);
        }
    }
    assert forall|step: RunStage| #[trigger] went_wrong(facts, happened, step) implies went_wrong(
        facts,
        before,
        step,
    ) || (step == stage_after(facts, before) && happened.last() != Happened::Succeeded) by {
        let i = choose|i: int|
            0 <= i < happened.len() && #[trigger] stage_after(facts, happened.take(i)) == step
                && happened[i] != Happened::Succeeded;
        if i < n {
            assert(stage_after(facts, before.take(i)) == step);
        }
    }
}

/// The files of a destination are touched only by a restore that was let in, that
/// still does what was confirmed, and for which every single affected container
/// has been stopped: along every run, the last comparison and the transaction
/// come behind all of that.
pub proof fn files_change_behind_stopped_containers(facts: RunFacts, happened: Seq<Happened>)
    requires
        stage_after(facts, happened) is Verify || stage_after(facts, happened) is Transact,
    ensures
        !facts.cancelled,
        succeeded(facts, happened, RunStage::Lock),
        succeeded(facts, happened, RunStage::CheckRecovery),
        succeeded(facts, happened, RunStage::Preflight),
        facts.volume ==> succeeded(facts, happened, RunStage::PrepareVolume),
        succeeded(facts, happened, RunStage::Prepare),
        succeeded(facts, happened, RunStage::Confirm),
        succeeded(facts, happened, RunStage::PersistQuiesce),
        forall|k: usize|
            k < facts.containers ==> #[trigger] succeeded(
                facts,
                happened,
                RunStage::Stop { index: k },
            ),
        stage_after(facts, happened) is Transact ==> succeeded(facts, happened, RunStage::Verify),
{
    lemma_way_to_the_files(facts, happened);
}

proof fn lemma_way_to_the_files(facts: RunFacts, happened: Seq<Happened>)
    ensures
        ({
            let stage = stage_after(facts, happened);
            let rank = way_rank(stage);
            &&& rank >= 0 ==> !facts.cancelled
            &&& rank > 0 ==> succeeded(facts, happened, RunStage::Lock)
            &&& rank > 1 ==> succeeded(facts, happened, RunStage::CheckRecovery)
            &&& rank > 2 ==> succeeded(facts, happened, RunStage::Preflight)
            &&& rank > 3 && facts.volume ==> succeeded(facts, happened, RunStage::PrepareVolume)
            &&& rank > 4 ==> succeeded(facts, happened, RunStage::Prepare)
            &&& rank > 5 ==> succeeded(facts, happened, RunStage::Confirm)
            &&& rank > 6 ==> succeeded(facts, happened, RunStage::PersistQuiesce)
            &&& rank > 8 ==> succeeded(facts, happened, RunStage::Verify)
            &&& forall|k: usize|
                (stage matches RunStage::Stop { index } && k < index) || (rank > 7 && k
                    < facts.containers) ==> #[trigger] succeeded(
                    facts,
                    happened,
                    RunStage::Stop { index: k },
                )
            &&& stage matches RunStage::Stop { index } ==> index < facts.containers
        }),
    decreases happened.len(),
{
    if happened.len() > 0 {
        let before = happened.drop_last();
        let stage = stage_after(facts, happened);
        lemma_way_to_the_files(facts, before);
        lemma_came_of_grows(facts, happened);
        assert forall|k: usize|
            (stage matches RunStage::Stop { index } && k < index) || (way_rank(stage) > 7 && k
                < facts.containers) implies #[trigger] succeeded(
            facts,
            happened,
            RunStage::Stop { index: k },
        ) by {
            if stage_after(facts, before) != (RunStage::Stop { index: k }) {
                assert(succeeded(facts, before, RunStage::Stop { index: k }));
            }
        }
    }
}

/// How far a stage lies on the way to the files; nothing where it is not on it.
spec fn way_rank(stage: RunStage) -> int {
    match stage {
        RunStage::Lock => 0,
        RunStage::CheckRecovery => 1,
        RunStage::Preflight => 2,
        RunStage::PrepareVolume => 3,
        RunStage::Prepare => 4,
        RunStage::Confirm => 5,
        RunStage::PersistQuiesce => 6,
        RunStage::Stop { .. } => 7,
        RunStage::Verify => 8,
        RunStage::Transact => 9,
        _ => -1,
    }
}

/// Nothing but success, so many times.
pub open spec fn all_well(count: nat) -> Seq<Happened> {
    Seq::new(count, |i: int| Happened::Succeeded)
}

proof fn lemma_all_well(facts: RunFacts, count: nat)
    requires
        count > 0,
    ensures
        stage_after(facts, all_well(count)) == next_stage(
            stage_after(facts, all_well((count - 1) as nat)),
            facts,
            Happened::Succeeded,
        ),
{
    assert(all_well(count).drop_last() =~= all_well((count - 1) as nat));
}

proof fn lemma_all_stop(facts: RunFacts, before: nat, k: nat)
    requires
        stage_after(facts, all_well(before)) is PersistQuiesce,
        k <= facts.containers,
    ensures
        stage_after(facts, all_well(before + 1 + k)) == if k == facts.containers {
            RunStage::Verify
        } else {
            RunStage::Stop { index: k as usize }
        },
    decreases k,
{
    lemma_all_well(facts, before + 1 + k);
    if k > 0 {
        lemma_all_stop(facts, before, (k - 1) as nat);
    }
}

/// A restore whose steps all succeed comes to the transaction, with one stop for
/// each container and no detour.
pub proof fn undisturbed_restores_reach_the_files(facts: RunFacts)
    requires
        !facts.cancelled,
    ensures
        stage_after(
            facts,
            all_well(
                7 + facts.containers as nat + if facts.volume {
                    1nat
                } else {
                    0nat
                },
            ),
        ) == RunStage::Transact,
{
    let extra: nat = if facts.volume {
        1
    } else {
        0
    };
    assert(all_well(0).len() == 0);
    lemma_all_well(facts, 1);
    lemma_all_well(facts, 2);
    lemma_all_well(facts, 3);
    lemma_all_well(facts, 4);
    lemma_all_well(facts, 5);
    if facts.volume {
        lemma_all_well(facts, 6);
    }
    assert(stage_after(facts, all_well(5 + extra)) is PersistQuiesce);
    lemma_all_stop(facts, 5 + extra, facts.containers as nat);
    lemma_all_well(facts, 7 + extra + facts.containers as nat);
}

/// The created volume was to be removed on the way, for this reason.
pub open spec fn cleaned(facts: RunFacts, happened: Seq<Happened>, reason: Reason) -> bool {
    facts.owned ==> was_taken(facts, happened, RunStage::CleanVolume { reason })
}

/// The created volume was removed on the way, for this reason.
pub open spec fn removed(facts: RunFacts, happened: Seq<Happened>, reason: Reason) -> bool {
    facts.owned ==> succeeded(facts, happened, RunStage::CleanVolume { reason })
}

/// What must have happened for a restore to fail so.
pub open spec fn failure_was_met(
    facts: RunFacts,
    happened: Seq<Happened>,
    error: RunError,
) -> bool {
    match error {
        RunError::Cancelled => facts.cancelled,
        RunError::Locked => went_wrong(facts, happened, RunStage::Lock),
        RunError::PendingRecovery => went_wrong(facts, happened, RunStage::CheckRecovery),
        RunError::PreviewChanged => went_wrong(facts, happened, RunStage::Preflight),
        RunError::Volume => facts.volume && went_wrong(facts, happened, RunStage::PrepareVolume),
        RunError::Preparation => {
            &&& went_wrong(facts, happened, RunStage::Prepare)
            &&& cleaned(facts, happened, Reason::Preparation)
        },
        RunError::ContainersChanged => {
            &&& went_wrong(facts, happened, RunStage::Confirm)
            &&& removed(facts, happened, Reason::ContainersChanged)
        },
        RunError::QuiesceJournal => {
            &&& went_wrong(facts, happened, RunStage::PersistQuiesce)
            &&& removed(facts, happened, Reason::QuiesceJournal)
        },
        RunError::VolumeCleanup => {
            &&& facts.owned
            &&& went_wrong(
                facts,
                happened,
                RunStage::CleanVolume { reason: Reason::ContainersChanged },
            ) || went_wrong(
                facts,
                happened,
                RunStage::CleanVolume { reason: Reason::QuiesceJournal },
            )
        },
        RunError::Restart => exists|reason: Reason| #[trigger]
            came_of(facts, happened, RunStage::Restart { reason }, Happened::Failed),
    }
}

/// What must have happened for a restore to be answered so.
pub open spec fn ending_was_met(facts: RunFacts, happened: Seq<Happened>, ending: Ending) -> bool {
    match ending {
        Ending::StopFailed => {
            &&& a_stop_failed(facts, happened)
            &&& was_taken(facts, happened, RunStage::Restart { reason: Reason::StopFailed })
            &&& cleaned(facts, happened, Reason::StopFailed)
        },
        Ending::FailedBeforePublication => {
            &&& nothing_was_published(facts, happened)
            &&& cleaned(facts, happened, Reason::FailedBeforePublication)
            &&& was_taken(
                facts,
                happened,
                RunStage::Restart { reason: Reason::FailedBeforePublication },
            )
        },
        Ending::VolumeKept => {
            &&& published(facts, happened, true)
            &&& facts.owned
            &&& went_wrong(
                facts,
                happened,
                RunStage::CleanVolume { reason: Reason::RolledBack },
            )
        },
        Ending::Pending => {
            ||| transacted(
                facts,
                happened,
                TransactionEnd::Published { rolled_back: false, finalization_pending: true },
            )
            ||| !facts.owned && transacted(
                facts,
                happened,
                TransactionEnd::Published { rolled_back: true, finalization_pending: true },
            )
        },
        Ending::StagingKept => transacted(facts, happened, TransactionEnd::StagingCleanupFailed),
        Ending::Indeterminate => {
            ||| transacted(facts, happened, TransactionEnd::Indeterminate)
            ||| came_of(facts, happened, RunStage::Transact, Happened::Succeeded)
            ||| came_of(facts, happened, RunStage::Transact, Happened::Failed)
            ||| came_of(facts, happened, RunStage::Transact, Happened::SomeFailed)
        },
        Ending::Restarted { rolled_back } => if rolled_back {
            &&& published(facts, happened, true)
            &&& removed(facts, happened, Reason::RolledBack)
            &&& succeeded(facts, happened, RunStage::Restart { reason: Reason::RolledBack })
        } else {
            &&& transacted(
                facts,
                happened,
                TransactionEnd::Published { rolled_back: false, finalization_pending: false },
            )
            &&& succeeded(facts, happened, RunStage::Restart { reason: Reason::Published })
        },
        Ending::RestartFailed { rolled_back } => if rolled_back {
            &&& published(facts, happened, true)
            &&& removed(facts, happened, Reason::RolledBack)
            &&& went_wrong(facts, happened, RunStage::Restart { reason: Reason::RolledBack })
            &&& was_taken(facts, happened, RunStage::StopAgain { rolled_back })
        } else {
            &&& transacted(
                facts,
                happened,
                TransactionEnd::Published { rolled_back: false, finalization_pending: false },
            )
            &&& went_wrong(facts, happened, RunStage::Restart { reason: Reason::Published })
            &&& was_taken(facts, happened, RunStage::StopAgain { rolled_back })
        },
    }
}

spec fn way_of_cleaning(facts: RunFacts, happened: Seq<Happened>, reason: Reason) -> bool {
    &&& facts.owned
    &&& match reason {
        Reason::Preparation => went_wrong(facts, happened, RunStage::Prepare),
        Reason::ContainersChanged => went_wrong(facts, happened, RunStage::Confirm),
        Reason::QuiesceJournal => went_wrong(facts, happened, RunStage::PersistQuiesce),
        Reason::StopFailed => a_stop_failed(facts, happened) && was_taken(
            facts,
            happened,
            RunStage::Restart { reason: Reason::StopFailed },
        ),
        Reason::FailedBeforePublication => nothing_was_published(facts, happened),
        Reason::RolledBack => published(facts, happened, true),
        Reason::Published => false,
    }
}

spec fn way_of_restart(facts: RunFacts, happened: Seq<Happened>, reason: Reason) -> bool {
    match reason {
        Reason::StopFailed => a_stop_failed(facts, happened),
        Reason::FailedBeforePublication => nothing_was_published(facts, happened) && cleaned(
            facts,
            happened,
            Reason::FailedBeforePublication,
        ),
        Reason::RolledBack => published(facts, happened, true) && removed(
            facts,
            happened,
            Reason::RolledBack,
        ),
        Reason::Published => transacted(
            facts,
            happened,
            TransactionEnd::Published { rolled_back: false, finalization_pending: false },
        ),
        _ => false,
    }
}

spec fn way_was_true(facts: RunFacts, happened: Seq<Happened>, stage: RunStage) -> bool {
    match stage {
        RunStage::Failed { error } => failure_was_met(facts, happened, error),
        RunStage::Responded { ending } => ending_was_met(facts, happened, ending),
        RunStage::CleanVolume { reason } => way_of_cleaning(facts, happened, reason),
        RunStage::Restart { reason } => way_of_restart(facts, happened, reason),
        RunStage::StopAgain { rolled_back } => if rolled_back {
            way_of_restart(facts, happened, Reason::RolledBack) && went_wrong(
                facts,
                happened,
                RunStage::Restart { reason: Reason::RolledBack },
            )
        } else {
            way_of_restart(facts, happened, Reason::Published) && went_wrong(
                facts,
                happened,
                RunStage::Restart { reason: Reason::Published },
            )
        },
        RunStage::PrepareVolume => facts.volume,
        _ => true,
    }
}

proof fn lemma_truth_stays(facts: RunFacts, happened: Seq<Happened>, stage: RunStage)
    requires
        happened.len() > 0,
        way_was_true(facts, happened.drop_last(), stage),
    ensures
        way_was_true(facts, happened, stage),
{
    let before = happened.drop_last();
    lemma_came_of_grows(facts, happened);
    if a_stop_failed(facts, before) {
        let k = choose|k: usize| #[trigger]
            went_wrong(facts, before, RunStage::Stop { index: k });
        assert(went_wrong(facts, happened, RunStage::Stop { index: k }));
    }
    if stage == (RunStage::Failed { error: RunError::Restart }) {
        let reason = choose|reason: Reason| #[trigger]
            came_of(facts, before, RunStage::Restart { reason }, Happened::Failed);
        assert(came_of(facts, happened, RunStage::Restart { reason }, Happened::Failed));
    }
}

proof fn lemma_way_is_true(facts: RunFacts, happened: Seq<Happened>)
    ensures
        way_was_true(facts, happened, stage_after(facts, happened)),
    decreases happened.len(),
{
    if happened.len() > 0 {
        let before = happened.drop_last();
        let step = stage_after(facts, before);
        let stage = stage_after(facts, happened);
        lemma_way_is_true(facts, before);
        lemma_came_of_grows(facts, happened);
        lemma_truth_stays(facts, happened, step);
        match step {
            RunStage::Stop { index } => {
                assert(stage is Restart ==> went_wrong(facts, happened, step));
            },
            RunStage::Restart { reason } => {
                assert(stage is Failed ==> came_of(
                    facts,
                    happened,
                    RunStage::Restart { reason },
                    Happened::Failed,
                ));
            },
            _ => {},
        }
    }
}

/// A restore is answered with what really came about: it fails for a step that
/// failed, it is complete only if its files were published and every container
/// was started again, and it is called rolled back or unpublished only if it was.
/// A volume that was created for it is removed whenever nothing stays published.
pub proof fn restores_tell_how_they_ended(facts: RunFacts, happened: Seq<Happened>)
    ensures
        stage_after(facts, happened) matches RunStage::Failed { error } ==> failure_was_met(
            facts,
            happened,
            error,
        ),
        stage_after(facts, happened) matches RunStage::Responded { ending } ==> ending_was_met(
            facts,
            happened,
            ending,
        ),
{
    lemma_way_is_true(facts, happened);
}

proof fn lemma_no_early_stops(facts: RunFacts, happened: Seq<Happened>)
    ensures
        ({
            let stage = stage_after(facts, happened);
            let early = match stage {
                RunStage::CleanVolume { reason } => reason == Reason::Preparation || reason
                    == Reason::ContainersChanged || reason == Reason::QuiesceJournal,
                RunStage::Failed { error } => error != RunError::Restart,
                _ => 0 <= way_rank(stage) < 7,
            };
            early ==> forall|k: usize|
                !#[trigger] was_taken(facts, happened, RunStage::Stop { index: k })
        }),
    decreases happened.len(),
{
    if happened.len() > 0 {
        let before = happened.drop_last();
        lemma_no_early_stops(facts, before);
        lemma_came_of_grows(facts, happened);
        lemma_way_is_true(facts, before);
        assert forall|k: usize| #[trigger]
            was_taken(facts, happened, RunStage::Stop { index: k }) implies was_taken(
            facts,
            before,
            RunStage::Stop { index: k },
        ) || stage_after(facts, before) == (RunStage::Stop { index: k }) by {}
    }
}

/// No container is left behind: once a restore has set about stopping them, it
/// ends only when they were to be started again, or with an answer that says that
/// they stay stopped.
pub proof fn stopped_containers_are_not_forgotten(facts: RunFacts, happened: Seq<Happened>)
    requires
        a_stop_was_tried(facts, happened),
        run_is_over(stage_after(facts, happened)),
    ensures
        ({
            ||| exists|reason: Reason| #[trigger]
                was_taken(facts, happened, RunStage::Restart { reason })
            ||| stage_after(facts, happened) == RunStage::Responded { ending: Ending::Pending }
            ||| stage_after(facts, happened) == RunStage::Responded { ending: Ending::StagingKept }
            ||| stage_after(facts, happened) == RunStage::Responded { ending: Ending::Indeterminate }
            ||| stage_after(facts, happened) == RunStage::Responded { ending: Ending::VolumeKept }
        }),
{
    lemma_way_is_true(facts, happened);
    lemma_no_early_stops(facts, happened);
    match stage_after(facts, happened) {
        RunStage::Failed { error } => {
            if error == RunError::Restart {
                let reason = choose|reason: Reason| #[trigger]
                    came_of(facts, happened, RunStage::Restart { reason }, Happened::Failed);
                let i = choose|i: int|
                    0 <= i < happened.len() && #[trigger] stage_after(facts, happened.take(i)) == (
                    RunStage::Restart { reason }) && happened[i] == Happened::Failed;
                assert(went_wrong(facts, happened, RunStage::Restart { reason }));
                assert(was_taken(facts, happened, RunStage::Restart { reason }));
            } else {
                let k = choose|k: usize| #[trigger]
                    was_taken(facts, happened, RunStage::Stop { index: k });
                assert(false);
            }
        },
        RunStage::Responded { ending } => {
            assert(was_taken(facts, happened, RunStage::Restart { reason: Reason::StopFailed })
                || was_taken(
                facts,
                happened,
                RunStage::Restart { reason: Reason::FailedBeforePublication },
            ) || was_taken(facts, happened, RunStage::Restart { reason: Reason::RolledBack })
                || was_taken(facts, happened, RunStage::Restart { reason: Reason::Published })
                || ending == Ending::Pending || ending == Ending::StagingKept || ending
                == Ending::Indeterminate || ending == Ending::VolumeKept);
        },
        _ => {},
    }
}

/// The stage that a transaction has come to after all that came of its steps.
pub open spec fn transaction_after(defer_finalize: bool, outcomes: Seq<StepOutcome>) -> TransactionStage
    decreases outcomes.len(),
{
    if outcomes.len() == 0 {
        TransactionStage::NoteStaging
    } else {
        next_transaction_stage(
            transaction_after(defer_finalize, outcomes.drop_last()),
            outcomes.last(),
            defer_finalize,
        )
    }
}

/// The step was taken on the way, and this came of it.
#[verifier::opaque]
pub open spec fn outcome_of(
    defer_finalize: bool,
    outcomes: Seq<StepOutcome>,
    step: TransactionStage,
    what: StepOutcome,
) -> bool {
    exists|i: int|
        0 <= i < outcomes.len() && #[trigger] transaction_after(defer_finalize, outcomes.take(i))
            == step && outcomes[i] == what
}

/// The step was taken on the way, without success.
#[verifier::opaque]
pub open spec fn no_success_of(
    defer_finalize: bool,
    outcomes: Seq<StepOutcome>,
    step: TransactionStage,
) -> bool {
    exists|i: int|
        0 <= i < outcomes.len() && #[trigger] transaction_after(defer_finalize, outcomes.take(i))
            == step && outcomes[i] != StepOutcome::Succeeded
}

proof fn lemma_outcomes_grow(defer_finalize: bool, outcomes: Seq<StepOutcome>)
    requires
        outcomes.len() > 0,
    ensures
        forall|step: TransactionStage, what: StepOutcome|
            outcome_of(defer_finalize, outcomes.drop_last(), step, what) ==> #[trigger] outcome_of(
                defer_finalize,
                outcomes,
                step,
                what,
            ),
        forall|step: TransactionStage|
            no_success_of(defer_finalize, outcomes.drop_last(), step) ==> #[trigger] no_success_of(
                defer_finalize,
                outcomes,
                step,
            ),
        outcome_of(
            defer_finalize,
            outcomes,
            transaction_after(defer_finalize, outcomes.drop_last()),
            outcomes.last(),
        ),
        outcomes.last() != StepOutcome::Succeeded ==> no_success_of(
            defer_finalize,
            outcomes,
            transaction_after(defer_finalize, outcomes.drop_last()),
        ),
{
    reveal(outcome_of);
    reveal(no_success_of);
    let before = outcomes.drop_last();
    let n = before.len() as int;
    assert(outcomes.take(n) =~= before);
    assert(transaction_after(defer_finalize, outcomes.take(n)) == transaction_after(
        defer_finalize,
        before,
    ));
    assert forall|step: TransactionStage, what: StepOutcome| outcome_of(
        defer_finalize,
        before,
        step,
        what,
    ) implies #[trigger] outcome_of(defer_finalize, outcomes, step, what) by {
        let i = choose|i: int|
            0 <= i < before.len() && #[trigger] transaction_after(defer_finalize, before.take(i))
                == step && before[i] == what;
        assert(outcomes.take(i) =~= before.take(i));
        assert(transaction_after(defer_finalize, outcomes.take(i)) == step);
    }
    assert forall|step: TransactionStage| no_success_of(
        defer_finalize,
        before,
        step,
    ) implies #[trigger] no_success_of(defer_finalize, outcomes, step) by {
        let i = choose|i: int|
            0 <= i < before.len() && #[trigger] transaction_after(defer_finalize, before.take(i))
                == step && before[i] != StepOutcome::Succeeded;
        assert(outcomes.take(i) =~= before.take(i));
        assert(transaction_after(defer_finalize, outcomes.take(i)) == step);
    }
}

/// Everything that has to come before the publication has succeeded on the way.
pub open spec fn publication_was_prepared(defer_finalize: bool, outcomes: Seq<StepOutcome>) -> bool {
    &&& outcome_of(
        defer_finalize,
        outcomes,
        TransactionStage::NoteStaging,
        StepOutcome::Succeeded,
    )
    &&& outcome_of(
        defer_finalize,
        outcomes,
        TransactionStage::RestoreSnapshot,
        StepOutcome::Succeeded,
    )
    &&& outcome_of(
        defer_finalize,
        outcomes,
        TransactionStage::RewriteCompose,
        StepOutcome::Succeeded,
    )
    &&& outcome_of(
        defer_finalize,
        outcomes,
        TransactionStage::CheckCancelled,
        StepOutcome::Succeeded,
    )
}

/// What must have happened for a transaction to be at this stage.
pub open spec fn transaction_was_met(
    defer_finalize: bool,
    outcomes: Seq<StepOutcome>,
    stage: TransactionStage,
) -> bool {
    match stage {
        TransactionStage::NoteStaging => true,
        TransactionStage::RestoreSnapshot => outcome_of(
            defer_finalize,
            outcomes,
            TransactionStage::NoteStaging,
            StepOutcome::Succeeded,
        ),
        TransactionStage::RewriteCompose => {
            &&& outcome_of(
                defer_finalize,
                outcomes,
                TransactionStage::NoteStaging,
                StepOutcome::Succeeded,
            )
            &&& outcome_of(
                defer_finalize,
                outcomes,
                TransactionStage::RestoreSnapshot,
                StepOutcome::Succeeded,
            )
        },
        TransactionStage::CheckCancelled => {
            &&& outcome_of(
                defer_finalize,
                outcomes,
                TransactionStage::NoteStaging,
                StepOutcome::Succeeded,
            )
            &&& outcome_of(
                defer_finalize,
                outcomes,
                TransactionStage::RestoreSnapshot,
                StepOutcome::Succeeded,
            )
            &&& outcome_of(
                defer_finalize,
                outcomes,
                TransactionStage::RewriteCompose,
                StepOutcome::Succeeded,
            )
        },
        TransactionStage::Publish => publication_was_prepared(defer_finalize, outcomes),
        TransactionStage::CleanStaging { cancelled } => if cancelled {
            no_success_of(defer_finalize, outcomes, TransactionStage::CheckCancelled)
        } else {
            ||| no_success_of(defer_finalize, outcomes, TransactionStage::RestoreSnapshot)
            ||| no_success_of(defer_finalize, outcomes, TransactionStage::RewriteCompose)
            ||| outcome_of(
                defer_finalize,
                outcomes,
                TransactionStage::Publish,
                StepOutcome::Failed,
            )
        },
        TransactionStage::Ended { end } => match end {
            TransactionEnd::Published { rolled_back, finalization_pending } => {
                ||| {
                    &&& publication_was_prepared(defer_finalize, outcomes)
                    &&& outcome_of(
                        defer_finalize,
                        outcomes,
                        TransactionStage::Publish,
                        StepOutcome::Published { rolled_back },
                    )
                    &&& finalization_pending == (defer_finalize && !rolled_back)
                }
                ||| {
                    &&& rolled_back
                    &&& !finalization_pending
                    &&& no_success_of(
                        defer_finalize,
                        outcomes,
                        TransactionStage::CheckCancelled,
                    )
                    &&& outcome_of(
                        defer_finalize,
                        outcomes,
                        TransactionStage::CleanStaging { cancelled: true },
                        StepOutcome::Succeeded,
                    )
                }
            },
            TransactionEnd::FailedBeforePublication => {
                ||| no_success_of(defer_finalize, outcomes, TransactionStage::NoteStaging)
                ||| {
                    &&& no_success_of(defer_finalize, outcomes, TransactionStage::RestoreSnapshot)
                        || no_success_of(defer_finalize, outcomes, TransactionStage::RewriteCompose)
                        || outcome_of(
                        defer_finalize,
                        outcomes,
                        TransactionStage::Publish,
                        StepOutcome::Failed,
                    )
                    &&& outcome_of(
                        defer_finalize,
                        outcomes,
                        TransactionStage::CleanStaging { cancelled: false },
                        StepOutcome::Succeeded,
                    )
                }
            },
            TransactionEnd::StagingCleanupFailed => {
                ||| no_success_of(
                    defer_finalize,
                    outcomes,
                    TransactionStage::CleanStaging { cancelled: false },
                )
                ||| no_success_of(
                    defer_finalize,
                    outcomes,
                    TransactionStage::CleanStaging { cancelled: true },
                )
            },
            TransactionEnd::Indeterminate => {
                ||| outcome_of(
                    defer_finalize,
                    outcomes,
                    TransactionStage::Publish,
                    StepOutcome::BrokeOff,
                )
                ||| outcome_of(
                    defer_finalize,
                    outcomes,
                    TransactionStage::Publish,
                    StepOutcome::Succeeded,
                )
            },
        },
    }
}

/// A transaction ends with what really came about. Files are published only behind
/// the note of the staging path, the whole snapshot, the adapted Compose files and
/// the last look for a cancellation; it waits for a decision only if one was asked
/// for and nothing was put back; and it is told to have changed nothing only if
/// what was staged is gone.
pub proof fn transactions_tell_how_they_ended(defer_finalize: bool, outcomes: Seq<StepOutcome>)
    ensures
        transaction_was_met(
            defer_finalize,
            outcomes,
            transaction_after(defer_finalize, outcomes),
        ),
    decreases outcomes.len(),
{
    if outcomes.len() > 0 {
        let before = outcomes.drop_last();
        transactions_tell_how_they_ended(defer_finalize, before);
        lemma_met_stays(defer_finalize, outcomes, transaction_after(defer_finalize, before));
        lemma_met_goes_on(
            defer_finalize,
            outcomes,
            transaction_after(defer_finalize, before),
            outcomes.last(),
        );
    }
}

proof fn lemma_met_stays(
    defer_finalize: bool,
    outcomes: Seq<StepOutcome>,
    stage: TransactionStage,
)
    requires
        outcomes.len() > 0,
        transaction_was_met(defer_finalize, outcomes.drop_last(), stage),
    ensures
        transaction_was_met(defer_finalize, outcomes, stage),
        outcome_of(
            defer_finalize,
            outcomes,
            transaction_after(defer_finalize, outcomes.drop_last()),
            outcomes.last(),
        ),
        outcomes.last() != StepOutcome::Succeeded ==> no_success_of(
            defer_finalize,
            outcomes,
            transaction_after(defer_finalize, outcomes.drop_last()),
        ),
{
    lemma_outcomes_grow(defer_finalize, outcomes);
}

proof fn lemma_met_goes_on(
    defer_finalize: bool,
    outcomes: Seq<StepOutcome>,
    step: TransactionStage,
    last: StepOutcome,
)
    requires
        transaction_was_met(defer_finalize, outcomes, step),
        outcome_of(defer_finalize, outcomes, step, last),
        last != StepOutcome::Succeeded ==> no_success_of(defer_finalize, outcomes, step),
    ensures
        transaction_was_met(
            defer_finalize,
            outcomes,
            next_transaction_stage(step, last, defer_finalize),
        ),
{
}

/// A transaction whose steps all succeed publishes its files, and puts the decision
/// off just where it is asked to.
pub proof fn undisturbed_transactions_publish(defer_finalize: bool, rolled_back: bool)
    ensures
        transaction_after(
            defer_finalize,
            seq![
                StepOutcome::Succeeded,
                StepOutcome::Succeeded,
                StepOutcome::Succeeded,
                StepOutcome::Succeeded,
            ],
        ) == TransactionStage::Publish,
        transaction_after(
            defer_finalize,
            seq![
                StepOutcome::Succeeded,
                StepOutcome::Succeeded,
                StepOutcome::Succeeded,
                StepOutcome::Succeeded,
                StepOutcome::Published { rolled_back },
            ],
        ) == (TransactionStage::Ended {
            end: TransactionEnd::Published {
                rolled_back,
                finalization_pending: defer_finalize && !rolled_back,
            },
        }),
{
    let one = seq![StepOutcome::Succeeded];
    let two = seq![StepOutcome::Succeeded, StepOutcome::Succeeded];
    let three = seq![StepOutcome::Succeeded, StepOutcome::Succeeded, StepOutcome::Succeeded];
    let four = seq![
        StepOutcome::Succeeded,
        StepOutcome::Succeeded,
        StepOutcome::Succeeded,
        StepOutcome::Succeeded,
    ];
    let five = seq![
        StepOutcome::Succeeded,
        StepOutcome::Succeeded,
        StepOutcome::Succeeded,
        StepOutcome::Succeeded,
        StepOutcome::Published { rolled_back },
    ];
    assert(one.drop_last().len() == 0);
    assert(transaction_after(defer_finalize, one.drop_last()) is NoteStaging);
    assert(transaction_after(defer_finalize, one) is RestoreSnapshot);
    assert(two.drop_last() =~= one);
    assert(transaction_after(defer_finalize, two) is RewriteCompose);
    assert(three.drop_last() =~= two);
    assert(transaction_after(defer_finalize, three) is CheckCancelled);
    assert(four.drop_last() =~= three);
    assert(five.drop_last() =~= four);
}

/// What a restore answers follows from its ending: it is complete exactly when its
/// files stay published, it waits for a decision exactly when one is put off, and
/// the containers are told exactly when all of them run again and nothing is left
/// behind. Whatever leaves containers stopped without a decision tells why.
pub proof fn responses_follow_their_endings(ending: Ending, told: Told)
    ensures
        ({
            let response = response_of(ending, told);
            &&& response.complete <==> ending == Ending::Pending || ending == Ending::Restarted {
                rolled_back: false,
            }
            &&& response.finalization_pending <==> ending == Ending::Pending
            &&& response.critical_error is None <==> ending == Ending::Pending
                || ending is Restarted || ((ending == Ending::StopFailed || ending
                == Ending::FailedBeforePublication) && told.cleanup_error is None
                && told.restart_errors@.len() == 0)
            &&& response.rolled_back <==> ending == (Ending::Restarted { rolled_back: true })
                || ending == (Ending::RestartFailed { rolled_back: true }) || ((ending
                == Ending::StopFailed || ending == Ending::FailedBeforePublication)
                && told.cleanup_error is None)
            &&& response.containers_restarted == if response.critical_error is None && ending
                != Ending::Pending {
                texts(told.restarted@)
            } else {
                Seq::empty()
            }
        }),
{
}

/// The path of a volume goes to the same place below the mountpoint: a whole
/// restore to the mountpoint itself, a selected path to where it lies in the
/// volume, and one that lies elsewhere nowhere.
pub proof fn volume_paths_go_below_the_mountpoint(
    destination: Seq<char>,
    volume_name: Seq<char>,
    mountpoint: Seq<char>,
)
    ensures
        resolved_destination(destination, volume_name, mountpoint, true) == Some(mountpoint),
        resolved_destination(destination, volume_name, mountpoint, false) is Some
            <==> path::is_below(destination, preview::logical_root(volume_name)),
        path::stripped(destination, preview::logical_root(volume_name)) matches Some(relative)
            ==> resolved_destination(destination, volume_name, mountpoint, false) == Some(
            path::joined(mountpoint, relative),
        ),
{
}

/// A volume is created only where it may be and there is none, and one that is
/// there is used only where none is to be created or where it was created for this
/// very plan.
pub proof fn volumes_are_created_or_their_own(
    exists: bool,
    label: Option<Seq<char>>,
    restore_plan_id: Seq<char>,
    create_if_missing: bool,
)
    ensures
        volume_plan(exists, label, restore_plan_id, create_if_missing) == Ok::<
            VolumePlan,
            VolumeError,
        >(VolumePlan::Create) <==> create_if_missing && !exists,
        volume_plan(exists, label, restore_plan_id, create_if_missing) == Ok::<
            VolumePlan,
            VolumeError,
        >(VolumePlan::Adopt) <==> create_if_missing && exists && label == Some(restore_plan_id),
        volume_plan(exists, label, restore_plan_id, create_if_missing) == Ok::<
            VolumePlan,
            VolumeError,
        >(VolumePlan::Use) <==> !create_if_missing && exists,
{
}

} // verus!
