//! The course of an operation that has been admitted, and of undo and redo.

use vstd::prelude::*;

use crate::file_manager::actions;
use crate::file_manager::journal::JournalHistorySide;
use crate::file_manager::journal::JournalRecord;
use crate::file_manager::journal::JournalTransition;
use crate::file_manager::limits;
use crate::file_manager::plans::FileManagerCommitResponse;
use crate::file_manager::snapshots;
use crate::text;
use crate::text::texts;

verus! {

// ---------------------------------------------------------------------------
// Carrying out a plan
// ---------------------------------------------------------------------------

/// What is known of an operation once it has been prepared.
#[derive(Clone, Copy, Debug, PartialEq, Eq, Structural)]
pub struct CommitFacts {
    /// The operation is carried out by changing names only.
    pub by_name_only: bool,
    /// The operation copies.
    pub copies: bool,
    /// The journal holds actions.
    pub acted: bool,
    /// The journal is kept once the operation has been carried out.
    pub retains: bool,
}

/// What is done next for an operation.
#[derive(Clone, Copy, Debug, PartialEq, Eq, Structural)]
pub enum CommitStage {
    /// See whether the operation was cancelled.
    Starting,
    /// Open the root and find out how the operation is carried out.
    Preparing,
    /// See whether there is space for a copy by name.
    ReservingSpace,
    /// Compare the root with the plan.
    VerifyingNames,
    /// Open a journal of actions.
    JournalingNames,
    /// Carry out the actions.
    ApplyingNames,
    /// Roll the actions back.
    RollingBackNames,
    /// Retire the journal of actions that were rolled back.
    RetiringNames,
    /// See whether the operation was cancelled, and finish the journal.
    ClosingNames,
    /// Compare the root with the plan.
    VerifyingTrees,
    /// See whether there is space for the operation and its journal.
    MeasuringSpace,
    /// Copy what the operation changes into a journal.
    Snapshotting,
    /// See whether the operation was cancelled.
    CheckingSnapshots,
    /// Measure the operation's work.
    MeasuringWork,
    /// Compare the root with the plan once more.
    VerifyingAgain,
    /// Retire a journal that nothing was changed under.
    RetiringUnused,
    /// Carry out the operation.
    ApplyingTrees,
    /// See whether the operation was cancelled, and finish the journal.
    ClosingTrees,
    /// Put the snapshots back.
    RestoringSnapshots,
    /// Retire the journal whose snapshots were put back.
    RetiringSnapshots,
    /// Register the journal in the history.
    Registering,
    /// Take the journal out of the history and open the root to roll back.
    Unregistering,
    /// Roll the actions of an unregistered journal back.
    RollingBackUnregistered,
    /// Retire the journal of actions that were rolled back.
    RetiringUnregistered,
    /// The operation has been carried out; its journal is kept.
    Kept,
    /// The operation has been carried out; its journal is cleaned up.
    CleanedUp,
    /// The operation failed. Its journal is retained for recovery, or is not
    /// needed.
    Failed { retained: bool },
}

/// The operation has ended.
pub open spec fn has_ended(stage: CommitStage) -> bool {
    stage is Kept || stage is CleanedUp || stage is Failed
}

/// What is done when a stage has succeeded.
pub open spec fn after_success(stage: CommitStage, facts: CommitFacts) -> CommitStage {
    match stage {
        CommitStage::Starting => CommitStage::Preparing,
        CommitStage::Preparing => if !facts.by_name_only {
            CommitStage::VerifyingTrees
        } else if facts.copies {
            CommitStage::ReservingSpace
        } else {
            CommitStage::VerifyingNames
        },
        CommitStage::ReservingSpace => CommitStage::VerifyingNames,
        CommitStage::VerifyingNames => CommitStage::JournalingNames,
        CommitStage::JournalingNames => CommitStage::ApplyingNames,
        CommitStage::ApplyingNames => CommitStage::ClosingNames,
        CommitStage::RollingBackNames => CommitStage::RetiringNames,
        CommitStage::RetiringNames => CommitStage::Failed { retained: false },
        CommitStage::ClosingNames => if facts.retains {
            CommitStage::Registering
        } else {
            CommitStage::CleanedUp
        },
        CommitStage::VerifyingTrees => CommitStage::MeasuringSpace,
        CommitStage::MeasuringSpace => CommitStage::Snapshotting,
        CommitStage::Snapshotting => CommitStage::CheckingSnapshots,
        CommitStage::CheckingSnapshots => CommitStage::MeasuringWork,
        CommitStage::MeasuringWork => CommitStage::VerifyingAgain,
        CommitStage::VerifyingAgain => CommitStage::ApplyingTrees,
        CommitStage::RetiringUnused => CommitStage::Failed { retained: false },
        CommitStage::ApplyingTrees => CommitStage::ClosingTrees,
        CommitStage::ClosingTrees => if facts.retains {
            CommitStage::Registering
        } else {
            CommitStage::CleanedUp
        },
        CommitStage::RestoringSnapshots => CommitStage::RetiringSnapshots,
        CommitStage::RetiringSnapshots => CommitStage::Failed { retained: false },
        CommitStage::Registering => CommitStage::Kept,
        CommitStage::Unregistering => if facts.acted {
            CommitStage::RollingBackUnregistered
        } else {
            CommitStage::RestoringSnapshots
        },
        CommitStage::RollingBackUnregistered => CommitStage::RetiringUnregistered,
        CommitStage::RetiringUnregistered => CommitStage::Failed { retained: false },
        ended => ended,
    }
}

/// What is done when a stage has failed.
pub open spec fn after_failure(stage: CommitStage) -> CommitStage {
    match stage {
        CommitStage::ApplyingNames => CommitStage::RollingBackNames,
        CommitStage::CheckingSnapshots => CommitStage::RetiringUnused,
        CommitStage::MeasuringWork => CommitStage::RetiringUnused,
        CommitStage::VerifyingAgain => CommitStage::RetiringUnused,
        CommitStage::ApplyingTrees => CommitStage::RestoringSnapshots,
        CommitStage::ClosingTrees => CommitStage::RestoringSnapshots,
        CommitStage::Registering => CommitStage::Unregistering,
        CommitStage::RollingBackNames => CommitStage::Failed { retained: true },
        CommitStage::RestoringSnapshots => CommitStage::Failed { retained: true },
        CommitStage::Unregistering => CommitStage::Failed { retained: true },
        CommitStage::RollingBackUnregistered => CommitStage::Failed { retained: true },
        CommitStage::RetiringUnregistered => CommitStage::Failed { retained: true },
        CommitStage::Kept => CommitStage::Kept,
        CommitStage::CleanedUp => CommitStage::CleanedUp,
        CommitStage::Failed { retained } => CommitStage::Failed { retained },
        _ => CommitStage::Failed { retained: false },
    }
}

/// What is done next for an operation, once a stage has succeeded or failed.
pub fn commit(stage: CommitStage, facts: CommitFacts, succeeded: bool) -> (next: CommitStage)
    ensures
        succeeded ==> next == after_success(stage, facts),
        !succeeded ==> next == after_failure(stage),
{
    if !succeeded {
        return match stage {
            CommitStage::ApplyingNames => CommitStage::RollingBackNames,
            CommitStage::CheckingSnapshots
            | CommitStage::MeasuringWork
            | CommitStage::VerifyingAgain => CommitStage::RetiringUnused,
            CommitStage::ApplyingTrees
            | CommitStage::ClosingTrees => CommitStage::RestoringSnapshots,
            CommitStage::Registering => CommitStage::Unregistering,
            CommitStage::RollingBackNames
            | CommitStage::RestoringSnapshots
            | CommitStage::Unregistering
            | CommitStage::RollingBackUnregistered
            | CommitStage::RetiringUnregistered => CommitStage::Failed { retained: true },
            CommitStage::Kept => CommitStage::Kept,
            CommitStage::CleanedUp => CommitStage::CleanedUp,
            CommitStage::Failed { retained } => CommitStage::Failed { retained },
            _ => CommitStage::Failed { retained: false },
        };
    }
    match stage {
        CommitStage::Starting => CommitStage::Preparing,
        CommitStage::Preparing => if !facts.by_name_only {
            CommitStage::VerifyingTrees
        } else if facts.copies {
            CommitStage::ReservingSpace
        } else {
            CommitStage::VerifyingNames
        },
        CommitStage::ReservingSpace => CommitStage::VerifyingNames,
        CommitStage::VerifyingNames => CommitStage::JournalingNames,
        CommitStage::JournalingNames => CommitStage::ApplyingNames,
        CommitStage::ApplyingNames => CommitStage::ClosingNames,
        CommitStage::RollingBackNames => CommitStage::RetiringNames,
        CommitStage::ClosingNames | CommitStage::ClosingTrees => if facts.retains {
            CommitStage::Registering
        } else {
            CommitStage::CleanedUp
        },
        CommitStage::VerifyingTrees => CommitStage::MeasuringSpace,
        CommitStage::MeasuringSpace => CommitStage::Snapshotting,
        CommitStage::Snapshotting => CommitStage::CheckingSnapshots,
        CommitStage::CheckingSnapshots => CommitStage::MeasuringWork,
        CommitStage::MeasuringWork => CommitStage::VerifyingAgain,
        CommitStage::VerifyingAgain => CommitStage::ApplyingTrees,
        CommitStage::ApplyingTrees => CommitStage::ClosingTrees,
        CommitStage::RestoringSnapshots => CommitStage::RetiringSnapshots,
        CommitStage::Registering => CommitStage::Kept,
        CommitStage::Unregistering => if facts.acted {
            CommitStage::RollingBackUnregistered
        } else {
            CommitStage::RestoringSnapshots
        },
        CommitStage::RollingBackUnregistered => CommitStage::RetiringUnregistered,
        CommitStage::RetiringNames
        | CommitStage::RetiringUnused
        | CommitStage::RetiringSnapshots
        | CommitStage::RetiringUnregistered => CommitStage::Failed { retained: false },
        CommitStage::Kept => CommitStage::Kept,
        CommitStage::CleanedUp => CommitStage::CleanedUp,
        CommitStage::Failed { retained } => CommitStage::Failed { retained },
    }
}

/// How far a stage lies along the course of an operation.
pub open spec fn stage_rank(stage: CommitStage) -> nat {
    match stage {
        CommitStage::Starting => 0,
        CommitStage::Preparing => 1,
        CommitStage::ReservingSpace => 2,
        CommitStage::VerifyingNames => 3,
        CommitStage::JournalingNames => 4,
        CommitStage::ApplyingNames => 5,
        CommitStage::ClosingNames => 6,
        CommitStage::VerifyingTrees => 2,
        CommitStage::MeasuringSpace => 3,
        CommitStage::Snapshotting => 4,
        CommitStage::CheckingSnapshots => 5,
        CommitStage::MeasuringWork => 6,
        CommitStage::VerifyingAgain => 7,
        CommitStage::ApplyingTrees => 8,
        CommitStage::ClosingTrees => 9,
        CommitStage::Registering => 10,
        CommitStage::Unregistering => 11,
        CommitStage::RollingBackNames => 12,
        CommitStage::RollingBackUnregistered => 12,
        CommitStage::RestoringSnapshots => 12,
        CommitStage::RetiringNames => 13,
        CommitStage::RetiringUnused => 13,
        CommitStage::RetiringSnapshots => 13,
        CommitStage::RetiringUnregistered => 13,
        CommitStage::Kept => 14,
        CommitStage::CleanedUp => 14,
        CommitStage::Failed { .. } => 14,
    }
}

/// Every operation ends: each stage leads further along, whatever happens in
/// it.
pub proof fn operations_end(stage: CommitStage, facts: CommitFacts)
    requires
        !has_ended(stage),
    ensures
        stage_rank(after_success(stage, facts)) > stage_rank(stage),
        stage_rank(after_failure(stage)) > stage_rank(stage),
        stage_rank(stage) < 14,
{
}

/// What may have been changed in the root when a stage is reached.
#[derive(Clone, Copy, Debug, PartialEq, Eq, Structural)]
pub enum Reach {
    /// Nothing has been changed, or everything has been put back.
    Untouched,
    /// Something may have been changed; a journal tells how to put it back.
    Journaled,
}

/// What may have been changed in the root when a stage is left.
pub open spec fn reach_after(before: Reach, stage: CommitStage, succeeded: bool) -> Reach {
    match stage {
        CommitStage::ApplyingNames => Reach::Journaled,
        CommitStage::ApplyingTrees => Reach::Journaled,
        CommitStage::RollingBackNames => if succeeded {
            Reach::Untouched
        } else {
            before
        },
        CommitStage::RestoringSnapshots => if succeeded {
            Reach::Untouched
        } else {
            before
        },
        CommitStage::RollingBackUnregistered => if succeeded {
            Reach::Untouched
        } else {
            before
        },
        _ => before,
    }
}

/// What may have been changed in the root fits the stage.
pub open spec fn reach_fits(reach: Reach, stage: CommitStage) -> bool {
    match stage {
        CommitStage::ClosingNames => true,
        CommitStage::ClosingTrees => true,
        CommitStage::Registering => true,
        CommitStage::Unregistering => true,
        CommitStage::RollingBackNames => true,
        CommitStage::RollingBackUnregistered => true,
        CommitStage::RestoringSnapshots => true,
        CommitStage::Kept => true,
        CommitStage::CleanedUp => true,
        CommitStage::Failed { retained } => retained || reach == Reach::Untouched,
        _ => reach == Reach::Untouched,
    }
}

/// A failed operation leaves the root as it was, or retains the journal that
/// puts it back. The one exception is an operation by name whose journal could
/// not be closed: its journal stays on disk for the next start.
pub proof fn failed_operations_are_undone_or_retained(
    reach: Reach,
    stage: CommitStage,
    facts: CommitFacts,
    succeeded: bool,
)
    requires
        reach_fits(reach, stage),
        !(stage is ClosingNames && !succeeded),
    ensures
        reach_fits(
            reach_after(reach, stage, succeeded),
            if succeeded {
                after_success(stage, facts)
            } else {
                after_failure(stage)
            },
        ),
{
}

// ---------------------------------------------------------------------------
// Undo and redo
// ---------------------------------------------------------------------------

/// A step of undoing or redoing an operation.
#[derive(Clone, Copy, Debug, PartialEq, Eq, Structural)]
pub enum HistoryStep {
    /// Roll the journal's actions back.
    RollBackActions,
    /// Retire the journal.
    Retire,
    /// Note durably that the transition has begun.
    Begin(JournalTransition),
    /// Undo the journal's actions.
    UndoActions,
    /// Redo the journal's actions.
    RedoActions,
    /// See whether the journal's file system has space for what stands at the
    /// snapshotted paths.
    ReserveJournal,
    /// See whether the root's file system has space for what is put back.
    ReserveTarget,
    /// Compare the paths with what the operation left.
    VerifyAfter,
    /// Compare the paths with what the undo left.
    VerifyBefore,
    /// Copy what stands at the snapshotted paths, for redo.
    CaptureAfter,
    /// Put back what stood at the paths before the operation.
    RestoreBefore,
    /// Put back what stood at the paths after the operation.
    RestoreAfter,
    /// Note the revisions that the undo left.
    NoteBefore,
    /// Note the revisions that the redo left.
    NoteAfter,
    /// Note durably that the transition has ended on the given side.
    Complete(JournalHistorySide),
}

/// The steps that undo an operation, or recover from one that did not end.
pub open spec fn undo_steps(by_name: bool, recovery: bool) -> Seq<HistoryStep> {
    if by_name && recovery {
        seq![HistoryStep::RollBackActions, HistoryStep::Retire]
    } else if by_name {
        seq![
            HistoryStep::Begin(JournalTransition::Undo),
            HistoryStep::UndoActions,
            HistoryStep::Complete(JournalHistorySide::Redo),
        ]
    } else if recovery {
        seq![HistoryStep::ReserveTarget, HistoryStep::RestoreBefore, HistoryStep::Retire]
    } else {
        seq![
            HistoryStep::ReserveJournal,
            HistoryStep::VerifyAfter,
            HistoryStep::CaptureAfter,
            HistoryStep::Begin(JournalTransition::Undo),
            HistoryStep::ReserveTarget,
            HistoryStep::RestoreBefore,
            HistoryStep::NoteBefore,
            HistoryStep::Complete(JournalHistorySide::Redo),
        ]
    }
}

/// The steps that undo the operation of a journal, or recover from one that did
/// not end. The first step that fails is the last one.
pub fn undo(record: &JournalRecord) -> (steps: Vec<HistoryStep>)
    ensures
        steps@ == undo_steps(record.actions@.len() > 0, record.recovery),
{
    let mut steps: Vec<HistoryStep> = Vec::new();
    if record.actions.len() > 0 {
        if record.recovery {
            steps.push(HistoryStep::RollBackActions);
            steps.push(HistoryStep::Retire);
        } else {
            steps.push(HistoryStep::Begin(JournalTransition::Undo));
            steps.push(HistoryStep::UndoActions);
            steps.push(HistoryStep::Complete(JournalHistorySide::Redo));
        }
    } else if record.recovery {
        steps.push(HistoryStep::ReserveTarget);
        steps.push(HistoryStep::RestoreBefore);
        steps.push(HistoryStep::Retire);
    } else {
        steps.push(HistoryStep::ReserveJournal);
        steps.push(HistoryStep::VerifyAfter);
        steps.push(HistoryStep::CaptureAfter);
        steps.push(HistoryStep::Begin(JournalTransition::Undo));
        steps.push(HistoryStep::ReserveTarget);
        steps.push(HistoryStep::RestoreBefore);
        steps.push(HistoryStep::NoteBefore);
        steps.push(HistoryStep::Complete(JournalHistorySide::Redo));
    }
    assert(steps@ =~= undo_steps(record.actions@.len() > 0, record.recovery));
    steps
}

/// The steps that redo an operation.
pub open spec fn redo_steps(by_name: bool) -> Seq<HistoryStep> {
    if by_name {
        seq![
            HistoryStep::Begin(JournalTransition::Redo),
            HistoryStep::RedoActions,
            HistoryStep::Complete(JournalHistorySide::Undo),
        ]
    } else {
        seq![
            HistoryStep::ReserveTarget,
            HistoryStep::VerifyBefore,
            HistoryStep::Begin(JournalTransition::Redo),
            HistoryStep::RestoreAfter,
            HistoryStep::NoteAfter,
            HistoryStep::Complete(JournalHistorySide::Undo),
        ]
    }
}

/// The steps that redo the operation of a journal. The first step that fails is
/// the last one.
pub fn redo(record: &JournalRecord) -> (steps: Vec<HistoryStep>)
    ensures
        steps@ == redo_steps(record.actions@.len() > 0),
{
    let mut steps: Vec<HistoryStep> = Vec::new();
    if record.actions.len() > 0 {
        steps.push(HistoryStep::Begin(JournalTransition::Redo));
        steps.push(HistoryStep::RedoActions);
        steps.push(HistoryStep::Complete(JournalHistorySide::Undo));
    } else {
        steps.push(HistoryStep::ReserveTarget);
        steps.push(HistoryStep::VerifyBefore);
        steps.push(HistoryStep::Begin(JournalTransition::Redo));
        steps.push(HistoryStep::RestoreAfter);
        steps.push(HistoryStep::NoteAfter);
        steps.push(HistoryStep::Complete(JournalHistorySide::Undo));
    }
    assert(steps@ =~= redo_steps(record.actions@.len() > 0));
    steps
}

/// The step changes entries of the root.
pub open spec fn changes_root(step: HistoryStep) -> bool {
    step is RollBackActions || step is UndoActions || step is RedoActions || step is RestoreBefore
        || step is RestoreAfter
}

/// Whatever an undo or redo changes is announced first: a transition is noted
/// durably before the root changes, unless the journal is a recovery journal
/// already.
pub proof fn changes_are_announced(by_name: bool, i: int)
    ensures
        0 <= i < undo_steps(by_name, false).len() && changes_root(undo_steps(by_name, false)[i])
            ==> exists|j: int|
            0 <= j < i && #[trigger] undo_steps(by_name, false)[j] == HistoryStep::Begin(
                JournalTransition::Undo,
            ),
        0 <= i < redo_steps(by_name).len() && changes_root(redo_steps(by_name)[i]) ==> exists|
            j: int,
        |
            0 <= j < i && #[trigger] redo_steps(by_name)[j] == HistoryStep::Begin(
                JournalTransition::Redo,
            ),
{
    if by_name {
        assert(undo_steps(by_name, false)[0] == HistoryStep::Begin(JournalTransition::Undo));
        assert(redo_steps(by_name)[0] == HistoryStep::Begin(JournalTransition::Redo));
    } else {
        assert(undo_steps(by_name, false)[3] == HistoryStep::Begin(JournalTransition::Undo));
        assert(redo_steps(by_name)[2] == HistoryStep::Begin(JournalTransition::Redo));
    }
}

/// A snapshotted operation is undone only if its paths are as it left them, and
/// redone only if they are as the undo left them.
pub proof fn snapshots_are_verified_before_changes(i: int)
    ensures
        0 <= i < undo_steps(false, false).len() && changes_root(undo_steps(false, false)[i]) ==> i
            > 1 && undo_steps(false, false)[1] == HistoryStep::VerifyAfter,
        0 <= i < redo_steps(false).len() && changes_root(redo_steps(false)[i]) ==> i > 1
            && redo_steps(false)[1] == HistoryStep::VerifyBefore,
{
}

/// The space that a step needs, in bytes: what is moved, and the reserve.
pub fn reserved_bytes(bytes: u64) -> (required: u64)
    ensures
        required == limits::saturating_sum(bytes, limits::MINIMUM_FREE_BYTES),
{
    bytes.saturating_add(limits::MINIMUM_FREE_BYTES)
}

/// What becomes of the journal after an undo or redo.
#[derive(Clone, Copy, Debug, PartialEq, Eq, Structural)]
pub enum Afterwards {
    /// It is put back into the history, on the side that its record names.
    PutBack,
    /// It is gone: the operation was recovered from.
    Gone,
    /// It can be redone.
    ToRedo,
    /// It can be undone.
    ToUndo,
}

/// What becomes of the journal after an undo.
pub fn after_undo(record: &JournalRecord, succeeded: bool) -> (afterwards: Afterwards)
    ensures
        afterwards == if !succeeded {
            Afterwards::PutBack
        } else if record.recovery {
            Afterwards::Gone
        } else {
            Afterwards::ToRedo
        },
{
    if !succeeded {
        Afterwards::PutBack
    } else if record.recovery {
        Afterwards::Gone
    } else {
        Afterwards::ToRedo
    }
}

/// What becomes of the journal after a redo.
pub fn after_redo(succeeded: bool) -> (afterwards: Afterwards)
    ensures
        afterwards == if succeeded {
            Afterwards::ToUndo
        } else {
            Afterwards::PutBack
        },
{
    if succeeded {
        Afterwards::ToUndo
    } else {
        Afterwards::PutBack
    }
}

/// Why an undo or redo is refused.
#[derive(Clone, Copy, Debug, PartialEq, Eq, Structural)]
pub enum HistoryError {
    Unconfirmed,
    ReadOnly,
}

/// Whether an undo or redo is admitted.
pub fn admit_history(confirmed: bool, read_only: bool) -> (outcome: Result<(), HistoryError>)
    ensures
        outcome == if !confirmed {
            Err(HistoryError::Unconfirmed)
        } else if read_only {
            Err(HistoryError::ReadOnly)
        } else {
            Ok(())
        },
{
    if !confirmed {
        Err(HistoryError::Unconfirmed)
    } else if read_only {
        Err(HistoryError::ReadOnly)
    } else {
        Ok(())
    }
}

/// The paths of the snapshots, in order.
pub open spec fn snapshot_paths(record: JournalRecord) -> Seq<Seq<char>> {
    record.snapshots@.map_values(|snapshot: crate::file_manager::journal::JournalSnapshot|
        snapshot.path@)
}

fn paths_of_snapshots(record: &JournalRecord) -> (paths: Vec<String>)
    ensures
        texts(paths@) == snapshot_paths(*record),
{
    let mut paths: Vec<String> = Vec::new();
    for i in 0..record.snapshots.len()
        invariant
            paths@.len() == i,
            forall|k: int| 0 <= k < i ==> (#[trigger] paths@[k])@ == record.snapshots@[k].path@,
    {
        paths.push(record.snapshots[i].path.clone());
    }
    assert(texts(paths@) =~= snapshot_paths(*record));
    paths
}

/// What a caller is told about an undo or redo that has begun: the paths of its
/// snapshots, or those that its actions name.
pub fn history_response(record: &JournalRecord, operation_id: &str, redoing: bool) -> (response:
    FileManagerCommitResponse)
    ensures
        response.operation_id@ == operation_id@,
        response.undoable == (redoing || !record.recovery),
        record.actions@.len() == 0 ==> texts(response.affected_paths@) == snapshot_paths(*record),
        record.actions@.len() > 0 ==> text::strictly_sorted(texts(response.affected_paths@))
            && forall|path: Seq<char>|
            texts(response.affected_paths@).contains(path) <==> exists|i: int|
                0 <= i < record.actions@.len() && actions::names_path(
                    actions::kind_of((#[trigger] record.actions@[i]).kind),
                    path,
                ),
{
    let affected_paths = if record.actions.len() == 0 {
        paths_of_snapshots(record)
    } else {
        actions::action_paths(record)
    };
    FileManagerCommitResponse {
        operation_id: operation_id.to_owned(),
        affected_paths,
        undoable: redoing || !record.recovery,
    }
}

/// Whether the path of the snapshot at `index` is copied for redo: something
/// stood there after the operation.
pub fn captures_after(record: &JournalRecord, index: usize) -> (captures: bool)
    requires
        index < record.snapshots@.len(),
    ensures
        captures == snapshots::existed_after(
            record.after_revisions@,
            record.snapshots@[index as int].path@,
        ),
{
    snapshots::stood_after(&record.after_revisions, record.snapshots[index].path.as_str())
}

/// The stage that an operation has come to after its steps succeeded or failed.
pub open spec fn commit_stage_after(facts: CommitFacts, outcomes: Seq<bool>) -> CommitStage
    decreases outcomes.len(),
{
    if outcomes.len() == 0 {
        CommitStage::Starting
    } else {
        let before = commit_stage_after(facts, outcomes.drop_last());
        if outcomes.last() {
            after_success(before, facts)
        } else {
            after_failure(before)
        }
    }
}

/// The step was taken on the way, with success or without.
#[verifier::opaque]
pub open spec fn was_taken(
    facts: CommitFacts,
    outcomes: Seq<bool>,
    step: CommitStage,
    well: bool,
) -> bool {
    exists|i: int|
        0 <= i < outcomes.len() && commit_stage_after(facts, #[trigger] outcomes.take(i)) == step
            && outcomes[i] == well
}

proof fn lemma_was_taken(facts: CommitFacts, outcomes: Seq<bool>)
    requires
        outcomes.len() > 0,
    ensures
        was_taken(
            facts,
            outcomes,
            commit_stage_after(facts, outcomes.drop_last()),
            outcomes.last(),
        ),
        forall|step: CommitStage, well: bool| #[trigger]
            was_taken(facts, outcomes.drop_last(), step, well) ==> was_taken(
                facts,
                outcomes,
                step,
                well,
            ),
{
    reveal(was_taken);
    let before = outcomes.drop_last();
    let last = outcomes.len() - 1;
    assert(outcomes.take(last) =~= before);
    assert(commit_stage_after(facts, outcomes.take(last)) == commit_stage_after(facts, before));
    assert forall|step: CommitStage, well: bool| #[trigger]
        was_taken(facts, before, step, well) implies was_taken(facts, outcomes, step, well) by {
        let i = choose|i: int|
            0 <= i < before.len() && commit_stage_after(facts, #[trigger] before.take(i)) == step
                && before[i] == well;
        assert(outcomes.take(i) =~= before.take(i));
        assert(commit_stage_after(facts, outcomes.take(i)) == step);
    }
}

/// The root was compared with the plan and a journal was opened, by names alone.
pub open spec fn names_are_prepared(facts: CommitFacts, outcomes: Seq<bool>) -> bool {
    &&& facts.by_name_only
    &&& facts.copies ==> was_taken(facts, outcomes, CommitStage::ReservingSpace, true)
    &&& was_taken(facts, outcomes, CommitStage::VerifyingNames, true)
    &&& was_taken(facts, outcomes, CommitStage::JournalingNames, true)
}

/// There is space, what is changed was copied into a journal, and the root was
/// compared with the plan before and after that.
pub open spec fn trees_are_prepared(facts: CommitFacts, outcomes: Seq<bool>) -> bool {
    &&& !facts.by_name_only
    &&& was_taken(facts, outcomes, CommitStage::VerifyingTrees, true)
    &&& was_taken(facts, outcomes, CommitStage::MeasuringSpace, true)
    &&& was_taken(facts, outcomes, CommitStage::Snapshotting, true)
    &&& was_taken(facts, outcomes, CommitStage::CheckingSnapshots, true)
    &&& was_taken(facts, outcomes, CommitStage::MeasuringWork, true)
    &&& was_taken(facts, outcomes, CommitStage::VerifyingAgain, true)
}

/// The operation was carried out and its journal finished.
pub open spec fn was_applied(facts: CommitFacts, outcomes: Seq<bool>) -> bool {
    ||| names_are_prepared(facts, outcomes) && was_taken(
        facts,
        outcomes,
        CommitStage::ApplyingNames,
        true,
    ) && was_taken(facts, outcomes, CommitStage::ClosingNames, true)
    ||| trees_are_prepared(facts, outcomes) && was_taken(
        facts,
        outcomes,
        CommitStage::ApplyingTrees,
        true,
    ) && was_taken(facts, outcomes, CommitStage::ClosingTrees, true)
}

/// What must have gone before a stage.
pub open spec fn has_come_to(facts: CommitFacts, outcomes: Seq<bool>, stage: CommitStage) -> bool {
    match stage {
        CommitStage::ReservingSpace => facts.by_name_only,
        CommitStage::VerifyingNames => facts.by_name_only && (facts.copies ==> was_taken(
            facts,
            outcomes,
            CommitStage::ReservingSpace,
            true,
        )),
        CommitStage::JournalingNames => facts.by_name_only && (facts.copies ==> was_taken(
            facts,
            outcomes,
            CommitStage::ReservingSpace,
            true,
        )) && was_taken(facts, outcomes, CommitStage::VerifyingNames, true),
        CommitStage::ApplyingNames => names_are_prepared(facts, outcomes),
        CommitStage::RollingBackNames => was_taken(
            facts,
            outcomes,
            CommitStage::ApplyingNames,
            false,
        ),
        CommitStage::RetiringNames => was_taken(
            facts,
            outcomes,
            CommitStage::RollingBackNames,
            true,
        ),
        CommitStage::ClosingNames => names_are_prepared(facts, outcomes) && was_taken(
            facts,
            outcomes,
            CommitStage::ApplyingNames,
            true,
        ),
        CommitStage::VerifyingTrees => !facts.by_name_only,
        CommitStage::MeasuringSpace => !facts.by_name_only && was_taken(
            facts,
            outcomes,
            CommitStage::VerifyingTrees,
            true,
        ),
        CommitStage::Snapshotting => !facts.by_name_only && was_taken(
            facts,
            outcomes,
            CommitStage::VerifyingTrees,
            true,
        ) && was_taken(facts, outcomes, CommitStage::MeasuringSpace, true),
        CommitStage::CheckingSnapshots => !facts.by_name_only && was_taken(
            facts,
            outcomes,
            CommitStage::VerifyingTrees,
            true,
        ) && was_taken(facts, outcomes, CommitStage::MeasuringSpace, true) && was_taken(
            facts,
            outcomes,
            CommitStage::Snapshotting,
            true,
        ),
        CommitStage::MeasuringWork => !facts.by_name_only && was_taken(
            facts,
            outcomes,
            CommitStage::VerifyingTrees,
            true,
        ) && was_taken(facts, outcomes, CommitStage::MeasuringSpace, true) && was_taken(
            facts,
            outcomes,
            CommitStage::Snapshotting,
            true,
        ) && was_taken(facts, outcomes, CommitStage::CheckingSnapshots, true),
        CommitStage::VerifyingAgain => !facts.by_name_only && was_taken(
            facts,
            outcomes,
            CommitStage::VerifyingTrees,
            true,
        ) && was_taken(facts, outcomes, CommitStage::MeasuringSpace, true) && was_taken(
            facts,
            outcomes,
            CommitStage::Snapshotting,
            true,
        ) && was_taken(facts, outcomes, CommitStage::CheckingSnapshots, true) && was_taken(
            facts,
            outcomes,
            CommitStage::MeasuringWork,
            true,
        ),
        CommitStage::ApplyingTrees => trees_are_prepared(facts, outcomes),
        CommitStage::ClosingTrees => trees_are_prepared(facts, outcomes) && was_taken(
            facts,
            outcomes,
            CommitStage::ApplyingTrees,
            true,
        ),
        CommitStage::RestoringSnapshots => was_taken(
            facts,
            outcomes,
            CommitStage::ApplyingTrees,
            false,
        ) || was_taken(facts, outcomes, CommitStage::ClosingTrees, false) || (was_taken(
            facts,
            outcomes,
            CommitStage::Unregistering,
            true,
        ) && !facts.acted),
        CommitStage::Registering => facts.retains && was_applied(facts, outcomes),
        CommitStage::Unregistering => was_taken(facts, outcomes, CommitStage::Registering, false),
        CommitStage::RollingBackUnregistered => facts.acted && was_taken(
            facts,
            outcomes,
            CommitStage::Registering,
            false,
        ),
        CommitStage::Kept => facts.retains && was_applied(facts, outcomes) && was_taken(
            facts,
            outcomes,
            CommitStage::Registering,
            true,
        ),
        CommitStage::CleanedUp => !facts.retains && was_applied(facts, outcomes),
        CommitStage::Failed { retained: true } => was_taken(
            facts,
            outcomes,
            CommitStage::RollingBackNames,
            false,
        ) || was_taken(facts, outcomes, CommitStage::RestoringSnapshots, false) || was_taken(
            facts,
            outcomes,
            CommitStage::Unregistering,
            false,
        ) || was_taken(facts, outcomes, CommitStage::RollingBackUnregistered, false) || was_taken(
            facts,
            outcomes,
            CommitStage::RetiringUnregistered,
            false,
        ),
        _ => true,
    }
}

/// Nothing is changed before the root was compared with the plan and a journal was
/// written. An operation has been carried out only once its changes were made and
/// its journal finished, and registered if it is kept. Changes are rolled back only
/// where making, finishing or registering them failed, and a journal is retained for
/// recovery only where rolling back or retiring it failed.
pub proof fn operations_tell_how_they_ended(facts: CommitFacts, outcomes: Seq<bool>)
    ensures
        has_come_to(facts, outcomes, commit_stage_after(facts, outcomes)),
    decreases outcomes.len(),
{
    if outcomes.len() > 0 {
        operations_tell_how_they_ended(facts, outcomes.drop_last());
        lemma_was_taken(facts, outcomes);
    }
}

/// An operation that nothing goes wrong with is carried out, and its journal is kept
/// or cleaned up as it should be.
pub proof fn undisturbed_operations_are_carried_out(facts: CommitFacts, outcomes: Seq<bool>)
    requires
        forall|i: int| 0 <= i < outcomes.len() ==> #[trigger] outcomes[i],
        outcomes.len() >= 11,
    ensures
        commit_stage_after(facts, outcomes) == if facts.retains {
            CommitStage::Kept
        } else {
            CommitStage::CleanedUp
        },
    decreases outcomes.len(),
{
    let before = outcomes.drop_last();
    assert(outcomes[outcomes.len() - 1]);
    assert forall|i: int| 0 <= i < before.len() implies #[trigger] before[i] by {
        assert(outcomes[i]);
    }
    if outcomes.len() > 11 {
        undisturbed_operations_are_carried_out(facts, before);
    } else {
        assert(outcomes[0] && outcomes[1] && outcomes[2] && outcomes[3] && outcomes[4]
            && outcomes[5] && outcomes[6] && outcomes[7] && outcomes[8] && outcomes[9]);
        reveal_with_fuel(commit_stage_after, 12);
    }
}

/// Undoing and redoing compare the paths with what was left, and note durably what
/// they are about to do, before they change anything; they end by noting on which
/// side the operation then stands. An interrupted operation is rolled back and its
/// journal retired.
pub proof fn histories_are_walked_with_care(by_name: bool)
    ensures
        undo_steps(by_name, false).last() == HistoryStep::Complete(JournalHistorySide::Redo),
        redo_steps(by_name).last() == HistoryStep::Complete(JournalHistorySide::Undo),
        undo_steps(by_name, true).last() == HistoryStep::Retire,
        exists|i: int|
            0 <= i < undo_steps(by_name, false).len() && #[trigger] undo_steps(by_name, false)[i]
                == if by_name {
                HistoryStep::UndoActions
            } else {
                HistoryStep::RestoreBefore
            },
        exists|i: int|
            0 <= i < redo_steps(by_name).len() && #[trigger] redo_steps(by_name)[i] == if by_name {
                HistoryStep::RedoActions
            } else {
                HistoryStep::RestoreAfter
            },
        exists|i: int|
            0 <= i < undo_steps(by_name, true).len() && #[trigger] undo_steps(by_name, true)[i]
                == if by_name {
                HistoryStep::RollBackActions
            } else {
                HistoryStep::RestoreBefore
            },
        !by_name ==> exists|i: int, j: int, k: int|
            {
                &&& 0 <= i < j < k < undo_steps(false, false).len()
                &&& #[trigger] undo_steps(false, false)[i] == HistoryStep::VerifyAfter
                &&& #[trigger] undo_steps(false, false)[j] == HistoryStep::CaptureAfter
                &&& #[trigger] undo_steps(false, false)[k] == HistoryStep::RestoreBefore
            },
        !by_name ==> exists|i: int, k: int|
            {
                &&& 0 <= i < k < redo_steps(false).len()
                &&& #[trigger] redo_steps(false)[i] == HistoryStep::VerifyBefore
                &&& #[trigger] redo_steps(false)[k] == HistoryStep::RestoreAfter
            },
        forall|i: int|
            0 <= i < undo_steps(by_name, false).len() ==> #[trigger] undo_steps(by_name, false)[i]
                != HistoryStep::RedoActions && undo_steps(by_name, false)[i]
                != HistoryStep::RestoreAfter,
        forall|i: int|
            0 <= i < redo_steps(by_name).len() ==> #[trigger] redo_steps(by_name)[i]
                != HistoryStep::UndoActions && redo_steps(by_name)[i]
                != HistoryStep::RestoreBefore,
{
    if by_name {
        assert(undo_steps(true, false)[1] == HistoryStep::UndoActions);
        assert(redo_steps(true)[1] == HistoryStep::RedoActions);
        assert(undo_steps(true, true)[0] == HistoryStep::RollBackActions);
    } else {
        let steps = undo_steps(false, false);
        assert(steps[1] == HistoryStep::VerifyAfter);
        assert(steps[2] == HistoryStep::CaptureAfter);
        assert(steps[5] == HistoryStep::RestoreBefore);
        assert(redo_steps(false)[1] == HistoryStep::VerifyBefore);
        assert(redo_steps(false)[3] == HistoryStep::RestoreAfter);
        assert(undo_steps(false, true)[1] == HistoryStep::RestoreBefore);
    }
}

} // verus!
