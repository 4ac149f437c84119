//! The decision over a deferred publication, and recovery at startup.

use vstd::prelude::*;

use crate::backup::publication;
use crate::backup::publication::EntryStep;
use crate::backup::receipts::BackupCompletionReceipt;
use crate::backup::receipts::FinalizeVykarRestore;
use crate::backup::receipts::FinalizeVykarRestoreResponse;
use crate::backup::receipts::finalized_cleanly;
use crate::backup::restore_journal;
use crate::backup::restore_journal::RestoreJournal;
use crate::outside;
use crate::text;
use crate::text::texts;

verus! {

/// Why a publication is not finalized.
#[derive(Clone, Copy, Debug, PartialEq, Eq, Structural)]
pub enum FinalizeError {
    /// The identity of the journal is invalid.
    InvalidJournalId,
    /// The dispatch of the restore is not told by a UUID.
    InvalidDispatch,
    /// There is no publication to decide.
    NoPublication,
    /// The opposite decision has been carried out.
    OppositeDecision,
    /// The commit is durable and cannot be taken back.
    CommitDurable,
    /// A fenced dispatch owns no journal.
    FencedDispatch,
    /// The journal is gone but other work of the restore is not.
    UnreconciledWork,
    /// The publication is finalized but other work of the restore is not.
    UnreconciledChildren,
}

/// What has to be done to the files of a journal.
#[derive(Clone, Copy, Debug, PartialEq, Eq, Structural)]
pub enum FileWork {
    /// Nothing: it has been done.
    Done,
    /// Record the commit, then discard what is aside and what is staged.
    Commit,
    /// Roll every entry back, last first, then discard what is staged, and
    /// remove the volume that was created for the restore.
    RollBack,
}

/// What a decision finds.
#[derive(Clone, Debug, PartialEq, Eq)]
pub enum Finalization {
    /// The journal is gone and its removal had been asked for.
    Gone(FinalizeVykarRestoreResponse),
    /// The files need this work; the containers come after it.
    Work(FileWork),
}

/// Why a request for a decision is not taken up.
pub open spec fn admission_refusal(request: FinalizeVykarRestore) -> Option<FinalizeError> {
    if !restore_journal::is_journal_id(request.journal_id@) {
        Some(FinalizeError::InvalidJournalId)
    } else if outside::uuid_of(request.restore_operation_id@) is None {
        Some(FinalizeError::InvalidDispatch)
    } else {
        None
    }
}

/// Whether a request for a decision is taken up.
pub fn admit_finalization(request: &FinalizeVykarRestore) -> (outcome: Result<(), FinalizeError>)
    ensures
        outcome == match admission_refusal(*request) {
            Some(error) => Err(error),
            None => Ok(()),
        },
{
    let dispatch = outside::parse_uuid(request.restore_operation_id.as_str());
    admit_identities(request.journal_id.as_str(), &dispatch)
}

/// Whether a request is taken up, by its journal and by the UUID that tells the
/// dispatch of the restore, if one does.
pub fn admit_identities(journal_id: &str, dispatch: &Option<String>) -> (outcome: Result<
    (),
    FinalizeError,
>)
    ensures
        outcome == if !restore_journal::is_journal_id(journal_id@) {
            Err(FinalizeError::InvalidJournalId)
        } else if *dispatch is None {
            Err(FinalizeError::InvalidDispatch)
        } else {
            Ok(())
        },
{
    if !restore_journal::validate_restore_journal_id(journal_id) {
        return Err(FinalizeError::InvalidJournalId);
    }
    match dispatch {
        None => Err(FinalizeError::InvalidDispatch),
        Some(_) => Ok(()),
    }
}

/// Why a decision is refused.
pub open spec fn finalize_refusal(
    journal: Option<RestoreJournal>,
    commit: bool,
    acknowledge: bool,
) -> Option<FinalizeError> {
    match journal {
        None => if acknowledge {
            None
        } else {
            Some(FinalizeError::NoPublication)
        },
        Some(held) => if held.finalized {
            if held.committed != commit {
                Some(FinalizeError::OppositeDecision)
            } else {
                None
            }
        } else if !commit && held.committed {
            Some(FinalizeError::CommitDurable)
        } else {
            None
        },
    }
}

/// The work that an accepted decision leaves for the files.
pub open spec fn file_work(journal: RestoreJournal, commit: bool) -> FileWork {
    if journal.finalized {
        FileWork::Done
    } else if commit {
        FileWork::Commit
    } else {
        FileWork::RollBack
    }
}

/// Decides what has to be done to the files of a publication.
pub fn finalize_restore_publication(
    journal: Option<&RestoreJournal>,
    commit: bool,
    acknowledge: bool,
) -> (outcome: Result<Finalization, FinalizeError>)
    ensures
        match outcome {
            Err(error) => finalize_refusal(
                crate::backup::receipts::deref_option(journal),
                commit,
                acknowledge,
            ) == Some(error),
            Ok(found) => {
                &&& finalize_refusal(
                    crate::backup::receipts::deref_option(journal),
                    commit,
                    acknowledge,
                ) is None
                &&& match journal {
                    None => found matches Finalization::Gone(response) && response@
                        == finalized_cleanly(!commit, Seq::empty()),
                    Some(held) => found == Finalization::Work(file_work(*held, commit)),
                }
            },
        },
{
    match journal {
        None => if acknowledge {
            Ok(Finalization::Gone(FinalizeVykarRestoreResponse::clean(!commit)))
        } else {
            Err(FinalizeError::NoPublication)
        },
        Some(held) => if held.finalized {
            if held.committed != commit {
                Err(FinalizeError::OppositeDecision)
            } else {
                Ok(Finalization::Work(FileWork::Done))
            }
        } else if commit {
            Ok(Finalization::Work(FileWork::Commit))
        } else if held.committed {
            Err(FinalizeError::CommitDurable)
        } else {
            Ok(Finalization::Work(FileWork::RollBack))
        },
    }
}

/// The journal once the work on its files has been done. The commit is made
/// durable before the work begins, so a crash in between is finished later.
pub fn mark_finalized(journal: RestoreJournal, commit: bool) -> (after: RestoreJournal)
    ensures
        after == (RestoreJournal {
            committed: journal.committed || (commit && !journal.finalized),
            finalized: true,
            ..journal
        }),
{
    let mut after = journal;
    if commit && !after.finalized {
        after.committed = true;
    }
    after.finalized = true;
    after
}

/// The error of a finalization whose containers do not all run again.
pub const RESTART_FAILED: &'static str = "Restore was finalized but affected containers could not all be restarted: ";

/// How a finalization ends.
#[derive(Clone, Debug, PartialEq, Eq)]
pub struct Conclusion {
    pub response: FinalizeVykarRestoreResponse,
    /// Record that the containers run again.
    pub mark_completed: bool,
    /// Remove the journal: the outcome has been taken over.
    pub remove_journal: bool,
}

/// Ends a finalization whose files are settled. `restart` is what became of
/// the containers; it is nothing where they run already.
pub fn conclude_finalization(
    commit: bool,
    acknowledge: bool,
    restart: Option<(Vec<String>, Vec<String>)>,
) -> (end: Conclusion)
    ensures
        match restart {
            None => {
                &&& end.response@ == finalized_cleanly(!commit, Seq::empty())
                &&& !end.mark_completed
                &&& end.remove_journal == acknowledge
            },
            Some((restarted, errors)) => if errors@.len() == 0 {
                &&& end.response@ == finalized_cleanly(!commit, texts(restarted@))
                &&& end.mark_completed
                &&& end.remove_journal == acknowledge
            } else {
                &&& !end.response.complete
                &&& end.response.rolled_back == !commit
                &&& end.response.containers_restarted@.len() == 0
                &&& end.response.critical_error matches Some(text) && text@ == RESTART_FAILED@
                    + text::separated(texts(errors@), "; "@)
                &&& !end.mark_completed
                &&& !end.remove_journal
            },
        },
{
    match restart {
        None => Conclusion {
            response: FinalizeVykarRestoreResponse::clean(!commit),
            mark_completed: false,
            remove_journal: acknowledge,
        },
        Some((restarted, errors)) => if errors.len() == 0 {
            Conclusion {
                response: FinalizeVykarRestoreResponse {
                    complete: true,
                    rolled_back: !commit,
                    containers_restarted: restarted,
                    critical_error: None,
                },
                mark_completed: true,
                remove_journal: acknowledge,
            }
        } else {
            let joined = text::join_texts(&errors, "; ");
            Conclusion {
                response: FinalizeVykarRestoreResponse {
                    complete: false,
                    rolled_back: !commit,
                    containers_restarted: Vec::new(),
                    critical_error: Some(text::concat2(RESTART_FAILED, joined.as_str())),
                },
                mark_completed: false,
                remove_journal: false,
            }
        },
    }
}

/// A decision that has been carried out stands: the opposite one is refused,
/// and the same one again finds no work.
pub proof fn decisions_are_final(
    journal: RestoreJournal,
    commit: bool,
    acknowledge: bool,
    later: bool,
    later_acknowledge: bool,
)
    requires
        finalize_refusal(Some(journal), commit, acknowledge) is None,
    ensures
        ({
            let after = RestoreJournal {
                committed: journal.committed || (commit && !journal.finalized),
                finalized: true,
                ..journal
            };
            &&& later != commit ==> finalize_refusal(Some(after), later, later_acknowledge) == Some(
                FinalizeError::OppositeDecision,
            )
            &&& later == commit ==> finalize_refusal(Some(after), later, later_acknowledge) is None
                && file_work(after, later) == FileWork::Done
        }),
{
}

/// Once a commit is durable, a crash before its work is done cannot turn it
/// into a rollback.
pub proof fn durable_commits_are_not_rolled_back(journal: RestoreJournal, acknowledge: bool)
    requires
        journal.committed,
    ensures
        finalize_refusal(Some(journal), false, acknowledge) is Some,
{
}

// ---------------------------------------------------------------------------
// The finalization of a tracked restore
// ---------------------------------------------------------------------------

/// Where the outcome of a tracked finalization comes from.
#[derive(Clone, Copy, Debug, PartialEq, Eq, Structural)]
pub enum OutcomeSource {
    /// The journal is there: carry the decision out.
    Journal,
    /// The journal is gone: the original receipt has to prove the outcome.
    Origin,
}

/// Decides where the outcome of a tracked finalization comes from.
pub fn run_finalize_restore(
    journal_exists: bool,
    origin: &BackupCompletionReceipt,
    pending: bool,
) -> (source: Result<OutcomeSource, FinalizeError>)
    ensures
        source == (if journal_exists {
            if origin.kind_model() is None {
                Err::<OutcomeSource, FinalizeError>(FinalizeError::FencedDispatch)
            } else {
                Ok::<OutcomeSource, FinalizeError>(OutcomeSource::Journal)
            }
        } else if pending {
            Err::<OutcomeSource, FinalizeError>(FinalizeError::UnreconciledWork)
        } else {
            Ok::<OutcomeSource, FinalizeError>(OutcomeSource::Origin)
        }),
{
    if journal_exists {
        if origin.kind().is_none() {
            return Err(FinalizeError::FencedDispatch);
        }
        return Ok(OutcomeSource::Journal);
    }
    if pending {
        return Err(FinalizeError::UnreconciledWork);
    }
    Ok(OutcomeSource::Origin)
}

/// What follows an outcome.
#[derive(Clone, Copy, Debug, PartialEq, Eq, Structural)]
pub enum AfterOutcome {
    /// Give the outcome back as it is.
    Return,
    /// Record the proof in both receipts, then give the outcome back.
    Prove,
    /// Record the proof in both receipts, then remove the journal.
    ProveAndRemove,
}

/// Decides what follows the outcome of a tracked finalization. The journal is
/// removed only behind the proof.
pub fn after_finalization(
    outcome: &FinalizeVykarRestoreResponse,
    pending: bool,
    acknowledge: bool,
) -> (next: Result<AfterOutcome, FinalizeError>)
    ensures
        next == (if !outcome.complete || outcome.critical_error is Some {
            Ok::<AfterOutcome, FinalizeError>(AfterOutcome::Return)
        } else if pending {
            Err::<AfterOutcome, FinalizeError>(FinalizeError::UnreconciledChildren)
        } else if acknowledge {
            Ok::<AfterOutcome, FinalizeError>(AfterOutcome::ProveAndRemove)
        } else {
            Ok::<AfterOutcome, FinalizeError>(AfterOutcome::Prove)
        }),
{
    if !outcome.complete || outcome.critical_error.is_some() {
        Ok(AfterOutcome::Return)
    } else if pending {
        Err(FinalizeError::UnreconciledChildren)
    } else if acknowledge {
        Ok(AfterOutcome::ProveAndRemove)
    } else {
        Ok(AfterOutcome::Prove)
    }
}

// ---------------------------------------------------------------------------
// Startup
// ---------------------------------------------------------------------------

/// What a restart does with a journal that it finds.
#[derive(Clone, Copy, Debug, PartialEq, Eq, Structural)]
pub enum JournalRecovery {
    /// The decision is not taken here: touch neither files nor containers.
    LeaveUndecided,
    /// Finish what is open of a decided deferred publication and keep the
    /// journal as its receipt.
    FinishDeferred { files: FileWork, containers: bool },
    /// Discard what is aside and what is staged, and remove the journal.
    FinishCommit,
    /// Roll back, discard what is staged, remove the volume that was created
    /// for the restore, and remove the journal.
    RollBack,
}

/// What a restart does with a journal.
pub open spec fn recovery_of(journal: RestoreJournal) -> JournalRecovery {
    if journal.deferred {
        if !journal.committed && !journal.finalized {
            JournalRecovery::LeaveUndecided
        } else {
            JournalRecovery::FinishDeferred {
                files: if journal.finalized {
                    FileWork::Done
                } else {
                    FileWork::Commit
                },
                containers: !journal.completed,
            }
        }
    } else if journal.committed {
        JournalRecovery::FinishCommit
    } else {
        JournalRecovery::RollBack
    }
}

/// Decides what a restart does with a journal.
pub fn recover_restore_journal(journal: &RestoreJournal) -> (recovery: JournalRecovery)
    ensures
        recovery == recovery_of(*journal),
{
    if journal.deferred {
        if !journal.committed && !journal.finalized {
            return JournalRecovery::LeaveUndecided;
        }
        return JournalRecovery::FinishDeferred {
            files: if journal.finalized {
                FileWork::Done
            } else {
                FileWork::Commit
            },
            containers: !journal.completed,
        };
    }
    if journal.committed {
        JournalRecovery::FinishCommit
    } else {
        JournalRecovery::RollBack
    }
}

/// Whether a restart restarts the containers of a quiesce journal: those of a
/// deferred restore wait for its decision.
pub fn restarts_containers(journal_id: &str, deferred_ids: &Vec<String>) -> (restart: bool)
    ensures
        restart == !texts(deferred_ids@).contains(journal_id@),
{
    !text::contains_text(deferred_ids, journal_id)
}

/// A journal that a restart finds.
#[derive(Clone, Debug, PartialEq, Eq)]
pub struct FoundJournal {
    pub id: String,
    pub journal: RestoreJournal,
}

/// What a restart does with the journals that it finds.
#[derive(Clone, Debug, PartialEq, Eq)]
pub struct StartupPlan {
    /// What is done with each journal.
    pub recoveries: Vec<JournalRecovery>,
    /// The deferred restores, whose containers are not started here.
    pub deferred_ids: Vec<String>,
}

/// The identities of the deferred restores.
pub open spec fn deferred_among(found: Seq<FoundJournal>) -> Seq<Seq<char>>
    decreases found.len(),
{
    if found.len() == 0 {
        Seq::empty()
    } else if found.last().journal.deferred {
        deferred_among(found.drop_last()).push(found.last().id@)
    } else {
        deferred_among(found.drop_last())
    }
}

/// What a restart does with the journals that it finds.
pub fn recover_restore_journals(found: &Vec<FoundJournal>) -> (plan: StartupPlan)
    ensures
        plan.recoveries@.len() == found@.len(),
        forall|i: int|
            0 <= i < found@.len() ==> #[trigger] plan.recoveries@[i] == recovery_of(
                found@[i].journal,
            ),
        texts(plan.deferred_ids@) == deferred_among(found@),
{
    let mut recoveries: Vec<JournalRecovery> = Vec::new();
    let mut deferred_ids: Vec<String> = Vec::new();
    assert(found@.take(0) =~= Seq::<FoundJournal>::empty());
    assert(texts(deferred_ids@) =~= Seq::<Seq<char>>::empty());
    for i in 0..found.len()
        invariant
            recoveries@.len() == i,
            forall|k: int|
                0 <= k < i ==> #[trigger] recoveries@[k] == recovery_of(found@[k].journal),
            texts(deferred_ids@) == deferred_among(found@.take(i as int)),
    {
        let ghost before = texts(deferred_ids@);
        assert(found@.take(i + 1).drop_last() =~= found@.take(i as int));
        assert(found@.take(i + 1).last() == found@[i as int]);
        recoveries.push(recover_restore_journal(&found[i].journal));
        if found[i].journal.deferred {
            deferred_ids.push(found[i].id.clone());
            assert(texts(deferred_ids@) =~= before.push(found@[i as int].id@));
        }
    }
    assert(found@.take(found@.len() as int) =~= found@);
    StartupPlan { recoveries, deferred_ids }
}

/// Startup leaves an undecided deferred publication alone, and rolls back no
/// publication whose commit is durable.
pub proof fn startup_respects_decisions(journal: RestoreJournal)
    ensures
        journal.deferred && !journal.committed && !journal.finalized ==> recovery_of(journal)
            == JournalRecovery::LeaveUndecided,
        journal.committed ==> recovery_of(journal) != JournalRecovery::RollBack,
        recovery_of(journal) == JournalRecovery::RollBack ==> !journal.deferred
            && !journal.committed,
{
}

/// The steps on each entry that a commit leaves to do: what is aside goes, and
/// so does what may still be staged.
pub fn commit_entry_steps() -> (steps: Vec<EntryStep>)
    ensures
        steps@ == publication::discard_steps(true),
{
    publication::discard_rollback(true)
}

/// A recovery journal is one whose file name ends in `.json`. While any is
/// left, no new backup or restore may begin.
pub fn ensure_recovery_directories_empty(extensions: &Vec<Option<String>>) -> (blocking: Option<
    usize,
>)
    ensures
        match blocking {
            Some(i) => i < extensions@.len() && is_json(extensions@[i as int]) && forall|j: int|
                0 <= j < i ==> !is_json(#[trigger] extensions@[j]),
            None => forall|j: int| 0 <= j < extensions@.len() ==> !is_json(#[trigger] extensions@[j]),
        },
{
    for i in 0..extensions.len()
        invariant
            forall|j: int| 0 <= j < i ==> !is_json(#[trigger] extensions@[j]),
    {
        if text::is_some_text(&extensions[i], "json") {
            return Some(i);
        }
    }
    None
}

/// The extension of a journal's file name.
pub open spec fn is_json(extension: Option<String>) -> bool {
    extension matches Some(text) && text@ == "json"@
}

/// The files of a restore that has not been finalized are treated as was decided: a
/// commit keeps them and a refusal rolls them back. Once it has been, nothing is
/// left to do, and a decision is turned down only for the opposite one.
pub proof fn files_follow_the_decision(journal: RestoreJournal, commit: bool, acknowledge: bool)
    ensures
        !journal.finalized && commit ==> finalize_refusal(Some(journal), commit, acknowledge)
            is None && file_work(journal, commit) == FileWork::Commit,
        !journal.finalized && !commit && !journal.committed ==> finalize_refusal(
            Some(journal),
            commit,
            acknowledge,
        ) is None && file_work(journal, commit) == FileWork::RollBack,
        journal.finalized ==> file_work(journal, commit) == FileWork::Done,
        journal.finalized && journal.committed == commit ==> finalize_refusal(
            Some(journal),
            commit,
            acknowledge,
        ) is None,
        journal.finalized && journal.committed != commit ==> finalize_refusal(
            Some(journal),
            commit,
            acknowledge,
        ) is Some,
        finalize_refusal(None, commit, acknowledge) is None <==> acknowledge,
{
}

/// A restart carries on with what was begun: a restore that decides itself is
/// finished if its commit is durable and rolled back if it is not, and a deferred
/// one whose commit is durable is committed, with its containers started again
/// unless they already run.
pub proof fn restarts_carry_on(journal: RestoreJournal)
    ensures
        !journal.deferred && journal.committed ==> recovery_of(journal)
            == JournalRecovery::FinishCommit,
        !journal.deferred && !journal.committed ==> recovery_of(journal)
            == JournalRecovery::RollBack,
        journal.deferred && journal.committed && !journal.finalized ==> recovery_of(journal) == (
        JournalRecovery::FinishDeferred { files: FileWork::Commit, containers: !journal.completed }),
        journal.deferred && journal.finalized ==> recovery_of(journal) == (
        JournalRecovery::FinishDeferred { files: FileWork::Done, containers: !journal.completed }),
{
}

/// The restores whose containers are left stopped at a restart are just the
/// deferred ones.
pub proof fn deferred_restores_are_told(found: Seq<FoundJournal>, id: Seq<char>)
    ensures
        deferred_among(found).contains(id) <==> exists|i: int|
            0 <= i < found.len() && (#[trigger] found[i]).id@ == id && found[i].journal.deferred,
    decreases found.len(),
{
    let all = deferred_among(found);
    if found.len() > 0 {
        let rest = found.drop_last();
        let n = rest.len() as int;
        let before = deferred_among(rest);
        deferred_restores_are_told(rest, id);
        if before.contains(id) {
            let k = before.index_of(id);
            assert(all[k] == id);
            let i = choose|i: int|
                0 <= i < rest.len() && (#[trigger] rest[i]).id@ == id && rest[i].journal.deferred;
            assert(found[i] == rest[i]);
        } else if all.contains(id) {
            let k = all.index_of(id);
            if k < before.len() {
                assert(before[k] == id);
            }
            assert(found[n].id@ == id);
        }
        if exists|i: int|
            0 <= i < found.len() && (#[trigger] found[i]).id@ == id && found[i].journal.deferred {
            let i = choose|i: int|
                0 <= i < found.len() && (#[trigger] found[i]).id@ == id && found[i].journal.deferred;
            if i < n {
                assert(rest[i] == found[i]);
            } else {
                assert(all[before.len() as int] == id);
            }
        }
    }
}

/// A decision is let in exactly when its journal has a proper identity and it names
/// the dispatch that it decides.
pub proof fn decisions_name_what_they_decide(request: FinalizeVykarRestore)
    ensures
        admission_refusal(request) is None <==> restore_journal::is_journal_id(request.journal_id@)
            && outside::uuid_of(request.restore_operation_id@) is Some,
{
}

} // verus!
