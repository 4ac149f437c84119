//! Receipts of dispatched operations.
//!
//! Every operation that is dispatched to this agent leaves a durable receipt
//! under its identity. The receipt answers whether the operation may start,
//! replays its result, and is never removed, so that a delayed request cannot
//! start the operation a second time.

use vstd::prelude::*;

use crate::backup::restore_journal::RestoreJournal;
use crate::backup::restore_run;
use crate::outside;
use crate::path;
use crate::text;
use crate::text::texts;

verus! {

fn clone_opt_text(text: &Option<String>) -> (copy: Option<String>)
    ensures
        copy == *text,
{
    match text {
        Some(held) => Some(held.clone()),
        None => None,
    }
}

/// How far a dispatched operation has come.
#[derive(Clone, Copy, Debug, PartialEq, Eq, Structural)]
pub enum VykarBackupCompletionState {
    Unknown,
    Running,
    Prepared,
    RecoveryRequired,
    Complete,
}

/// What one repository stored.
#[derive(Clone, Debug, PartialEq, Eq)]
pub struct VykarBackupRepositoryResult {
    pub complete: bool,
    pub partial: bool,
    pub files: u64,
    pub original_size: u64,
    pub stored_size: u64,
    pub error: Option<String>,
}

/// The result of one backup.
#[derive(Clone, Debug, PartialEq, Eq)]
pub struct RunVykarBackupResponse {
    pub excluded: Option<String>,
    pub primary: VykarBackupRepositoryResult,
    pub mirror: Option<VykarBackupRepositoryResult>,
    pub stopped_containers: Vec<String>,
    pub restarted_containers: Vec<String>,
    pub restart_errors: Vec<String>,
}

/// The result of one task of a batch.
#[derive(Clone, Debug, PartialEq, Eq)]
pub struct VykarBackupTaskResult {
    pub source_label: String,
    pub result: RunVykarBackupResponse,
}

/// The result of a batch of backups.
#[derive(Clone, Debug, PartialEq, Eq)]
pub struct RunVykarBackupBatchResponse {
    pub results: Vec<VykarBackupTaskResult>,
    pub discovery_errors: Vec<String>,
    pub restart_errors: Vec<String>,
}

/// The result of a restore.
#[derive(Clone, Debug, PartialEq, Eq)]
pub struct TransactionalVykarRestoreResponse {
    pub complete: bool,
    pub rolled_back: bool,
    pub finalization_pending: bool,
    pub containers_restarted: Vec<String>,
    pub critical_error: Option<String>,
}

/// A restore result as a value.
pub struct RestoreModel {
    pub complete: bool,
    pub rolled_back: bool,
    pub finalization_pending: bool,
    pub containers_restarted: Seq<Seq<char>>,
    pub critical_error: Option<Seq<char>>,
}

impl View for TransactionalVykarRestoreResponse {
    type V = RestoreModel;

    open spec fn view(&self) -> RestoreModel {
        RestoreModel {
            complete: self.complete,
            rolled_back: self.rolled_back,
            finalization_pending: self.finalization_pending,
            containers_restarted: texts(self.containers_restarted@),
            critical_error: text::held(self.critical_error),
        }
    }
}

/// The result of the finalization of a restore.
#[derive(Clone, Debug, PartialEq, Eq)]
pub struct FinalizeVykarRestoreResponse {
    pub complete: bool,
    pub rolled_back: bool,
    pub containers_restarted: Vec<String>,
    pub critical_error: Option<String>,
}

/// A finalization result as a value.
pub struct FinalizeModel {
    pub complete: bool,
    pub rolled_back: bool,
    pub containers_restarted: Seq<Seq<char>>,
    pub critical_error: Option<Seq<char>>,
}

impl View for FinalizeVykarRestoreResponse {
    type V = FinalizeModel;

    open spec fn view(&self) -> FinalizeModel {
        FinalizeModel {
            complete: self.complete,
            rolled_back: self.rolled_back,
            containers_restarted: texts(self.containers_restarted@),
            critical_error: text::held(self.critical_error),
        }
    }
}

/// A finalization that went through without an error.
pub open spec fn finalized_cleanly(rolled_back: bool, restarted: Seq<Seq<char>>) -> FinalizeModel {
    FinalizeModel {
        complete: true,
        rolled_back,
        containers_restarted: restarted,
        critical_error: None,
    }
}

impl FinalizeVykarRestoreResponse {
    /// The same result once more.
    pub fn duplicate(&self) -> (copy: FinalizeVykarRestoreResponse)
        ensures
            copy@ == self@,
    {
        FinalizeVykarRestoreResponse {
            complete: self.complete,
            rolled_back: self.rolled_back,
            containers_restarted: text::clone_texts(&self.containers_restarted),
            critical_error: clone_opt_text(&self.critical_error),
        }
    }

    /// A finalization that restarted nothing and met no error.
    pub fn clean(rolled_back: bool) -> (response: FinalizeVykarRestoreResponse)
        ensures
            response@ == finalized_cleanly(rolled_back, Seq::empty()),
    {
        let containers_restarted: Vec<String> = Vec::new();
        assert(texts(containers_restarted@) =~= Seq::<Seq<char>>::empty());
        FinalizeVykarRestoreResponse {
            complete: true,
            rolled_back,
            containers_restarted,
            critical_error: None,
        }
    }
}

/// What a receipt says of its operation's result.
#[derive(Clone, Debug, PartialEq, Eq)]
pub struct VykarBackupCompletion {
    pub state: VykarBackupCompletionState,
    pub result: Option<RunVykarBackupResponse>,
    pub batch_result: Option<RunVykarBackupBatchResponse>,
    pub restore_result: Option<TransactionalVykarRestoreResponse>,
    pub finalize_restore_result: Option<FinalizeVykarRestoreResponse>,
    pub error: Option<String>,
}

impl VykarBackupCompletion {
    /// The completion holds no result of any kind.
    pub open spec fn no_result(self) -> bool {
        &&& self.result is None
        &&& self.batch_result is None
        &&& self.restore_result is None
        &&& self.finalize_restore_result is None
    }

    /// A completion in the given state that holds neither result nor error.
    pub fn empty(state: VykarBackupCompletionState) -> (completion: VykarBackupCompletion)
        ensures
            completion.state == state,
            completion.no_result(),
            completion.error is None,
    {
        VykarBackupCompletion {
            state,
            result: None,
            batch_result: None,
            restore_result: None,
            finalize_restore_result: None,
            error: None,
        }
    }

    /// A completion in the given state that holds only an error.
    pub fn failed(state: VykarBackupCompletionState, error: &str) -> (completion:
        VykarBackupCompletion)
        ensures
            completion.state == state,
            completion.no_result(),
            text::held(completion.error) == Some(error@),
    {
        let mut completion = VykarBackupCompletion::empty(state);
        completion.error = Some(error.to_owned());
        completion
    }
}

// ---------------------------------------------------------------------------
// Ends and their replays
// ---------------------------------------------------------------------------

/// The result of a run that went through.
pub open spec fn result_of<R>(ended: Result<R, String>) -> Option<R> {
    match ended {
        Ok(result) => Some(result),
        Err(_) => None,
    }
}

/// The error of a run that did not.
pub open spec fn error_of<R>(ended: Result<R, String>) -> Option<String> {
    match ended {
        Ok(_) => None,
        Err(error) => Some(error),
    }
}

/// The two runs ended alike.
pub open spec fn ended_alike<R>(one: Result<R, String>, other: Result<R, String>) -> bool {
    &&& result_of(one) == result_of(other)
    &&& text::held(error_of(one)) == text::held(error_of(other))
}

/// The replay of what a receipt holds: its result, or else its error, or else
/// that it holds neither.
pub open spec fn replays<R>(
    result: Option<R>,
    error: Option<String>,
    nothing: Seq<char>,
    replayed: Result<R, String>,
) -> bool {
    match replayed {
        Ok(told) => result == Some(told),
        Err(told) => result is None && told@ == match error {
            Some(held) => held@,
            None => nothing,
        },
    }
}

fn replay<R>(result: Option<R>, error: Option<String>, nothing: &str) -> (replayed: Result<
    R,
    String,
>)
    ensures
        replays(result, error, nothing@, replayed),
{
    match result {
        Some(held) => Ok(held),
        None => match error {
            Some(held) => Err(held),
            None => Err(nothing.to_owned()),
        },
    }
}

/// The completion of a backup that has ended.
pub open spec fn ended_backup(
    ended: Result<RunVykarBackupResponse, String>,
) -> VykarBackupCompletion {
    VykarBackupCompletion {
        state: VykarBackupCompletionState::Complete,
        result: result_of(ended),
        batch_result: None,
        restore_result: None,
        finalize_restore_result: None,
        error: error_of(ended),
    }
}

/// The completion of a batch that has ended.
pub open spec fn ended_batch(
    ended: Result<RunVykarBackupBatchResponse, String>,
) -> VykarBackupCompletion {
    VykarBackupCompletion {
        state: VykarBackupCompletionState::Complete,
        result: None,
        batch_result: result_of(ended),
        restore_result: None,
        finalize_restore_result: None,
        error: error_of(ended),
    }
}

/// The completion of a restore that has ended: it is prepared where its
/// decision is deferred, and it waits for recovery where a journal of it does.
pub open spec fn ended_restore(
    ended: Result<TransactionalVykarRestoreResponse, String>,
    has_pending_journals: bool,
) -> VykarBackupCompletion {
    VykarBackupCompletion {
        state: restore_run::restored_state(
            ended matches Ok(result) && result.finalization_pending,
            has_pending_journals,
        ),
        result: None,
        batch_result: None,
        restore_result: result_of(ended),
        finalize_restore_result: None,
        error: error_of(ended),
    }
}

/// The completion of a finalization that has ended.
pub open spec fn ended_finalization(
    ended: Result<FinalizeVykarRestoreResponse, String>,
    has_pending_journals: bool,
) -> VykarBackupCompletion {
    VykarBackupCompletion {
        state: restore_run::restored_state(false, has_pending_journals),
        result: None,
        batch_result: None,
        restore_result: None,
        finalize_restore_result: result_of(ended),
        error: error_of(ended),
    }
}

impl VykarBackupCompletion {
    /// The completion of a backup that has ended.
    pub fn of_backup(ended: Result<RunVykarBackupResponse, String>) -> (completion:
        VykarBackupCompletion)
        ensures
            completion == ended_backup(ended),
    {
        let mut completion = VykarBackupCompletion::empty(VykarBackupCompletionState::Complete);
        match ended {
            Ok(result) => {
                completion.result = Some(result);
            },
            Err(error) => {
                completion.error = Some(error);
            },
        }
        completion
    }

    /// The completion of a batch that has ended.
    pub fn of_batch(ended: Result<RunVykarBackupBatchResponse, String>) -> (completion:
        VykarBackupCompletion)
        ensures
            completion == ended_batch(ended),
    {
        let mut completion = VykarBackupCompletion::empty(VykarBackupCompletionState::Complete);
        match ended {
            Ok(result) => {
                completion.batch_result = Some(result);
            },
            Err(error) => {
                completion.error = Some(error);
            },
        }
        completion
    }

    /// The completion of a restore that has ended.
    pub fn of_restore(
        ended: Result<TransactionalVykarRestoreResponse, String>,
        has_pending_journals: bool,
    ) -> (completion: VykarBackupCompletion)
        ensures
            completion == ended_restore(ended, has_pending_journals),
    {
        let deferred: bool = match &ended {
            Ok(result) => result.finalization_pending,
            Err(_) => false,
        };
        let mut completion = VykarBackupCompletion::empty(
            restore_run::restore_completion_state(deferred, has_pending_journals),
        );
        match ended {
            Ok(result) => {
                completion.restore_result = Some(result);
            },
            Err(error) => {
                completion.error = Some(error);
            },
        }
        completion
    }

    /// The completion of a finalization that has ended.
    pub fn of_finalization(
        ended: Result<FinalizeVykarRestoreResponse, String>,
        has_pending_journals: bool,
    ) -> (completion: VykarBackupCompletion)
        ensures
            completion == ended_finalization(ended, has_pending_journals),
    {
        let mut completion = VykarBackupCompletion::empty(
            restore_run::restore_completion_state(false, has_pending_journals),
        );
        match ended {
            Ok(result) => {
                completion.finalize_restore_result = Some(result);
            },
            Err(error) => {
                completion.error = Some(error);
            },
        }
        completion
    }

    /// What a second dispatch of a backup is answered.
    pub fn replay_backup(self) -> (replayed: Result<RunVykarBackupResponse, String>)
        ensures
            replays(
                self.result,
                self.error,
                "Backup dispatch has no replayable result"@,
                replayed,
            ),
    {
        replay(self.result, self.error, "Backup dispatch has no replayable result")
    }

    /// What a second dispatch of a batch is answered.
    pub fn replay_batch(self) -> (replayed: Result<RunVykarBackupBatchResponse, String>)
        ensures
            replays(
                self.batch_result,
                self.error,
                "Backup dispatch has no replayable batch result"@,
                replayed,
            ),
    {
        replay(self.batch_result, self.error, "Backup dispatch has no replayable batch result")
    }

    /// What a second dispatch of a restore is answered.
    pub fn replay_restore(self) -> (replayed: Result<TransactionalVykarRestoreResponse, String>)
        ensures
            replays(
                self.restore_result,
                self.error,
                "Restore dispatch has no replayable result"@,
                replayed,
            ),
    {
        replay(self.restore_result, self.error, "Restore dispatch has no replayable result")
    }

    /// What a second dispatch of a finalization is answered.
    pub fn replay_finalization(self) -> (replayed: Result<FinalizeVykarRestoreResponse, String>)
        ensures
            replays(
                self.finalize_restore_result,
                self.error,
                "Restore finalization has no replayable result"@,
                replayed,
            ),
    {
        replay(
            self.finalize_restore_result,
            self.error,
            "Restore finalization has no replayable result",
        )
    }
}

/// What a run ended with is what its replay tells, its result as well as its
/// error.
pub proof fn replays_tell_how_a_run_ended<R>(
    ended: Result<R, String>,
    nothing: Seq<char>,
    replayed: Result<R, String>,
)
    requires
        replays(result_of(ended), error_of(ended), nothing, replayed),
    ensures
        ended_alike(ended, replayed),
{
}

/// What was dispatched.
#[derive(Clone, Debug, PartialEq, Eq)]
pub enum BackupDispatchKind {
    Backup,
    BackupBatch,
    Restore { journal_id: String, deferred: bool },
    FinalizeRestore {
        journal_id: String,
        restore_operation_id: String,
        commit: bool,
        acknowledge: bool,
    },
}

/// What was dispatched, as a value.
pub enum DispatchModel {
    Backup,
    BackupBatch,
    Restore { journal_id: Seq<char>, deferred: bool },
    FinalizeRestore {
        journal_id: Seq<char>,
        restore_operation_id: Seq<char>,
        commit: bool,
        acknowledge: bool,
    },
}

impl View for BackupDispatchKind {
    type V = DispatchModel;

    open spec fn view(&self) -> DispatchModel {
        match *self {
            BackupDispatchKind::Backup => DispatchModel::Backup,
            BackupDispatchKind::BackupBatch => DispatchModel::BackupBatch,
            BackupDispatchKind::Restore { journal_id, deferred } => DispatchModel::Restore {
                journal_id: journal_id@,
                deferred,
            },
            BackupDispatchKind::FinalizeRestore {
                journal_id,
                restore_operation_id,
                commit,
                acknowledge,
            } => DispatchModel::FinalizeRestore {
                journal_id: journal_id@,
                restore_operation_id: restore_operation_id@,
                commit,
                acknowledge,
            },
        }
    }
}

impl BackupDispatchKind {
    /// The same kind once more.
    pub fn duplicate(&self) -> (copy: BackupDispatchKind)
        ensures
            copy@ == self@,
    {
        match self {
            BackupDispatchKind::Backup => BackupDispatchKind::Backup,
            BackupDispatchKind::BackupBatch => BackupDispatchKind::BackupBatch,
            BackupDispatchKind::Restore { journal_id, deferred } => BackupDispatchKind::Restore {
                journal_id: journal_id.clone(),
                deferred: *deferred,
            },
            BackupDispatchKind::FinalizeRestore {
                journal_id,
                restore_operation_id,
                commit,
                acknowledge,
            } => BackupDispatchKind::FinalizeRestore {
                journal_id: journal_id.clone(),
                restore_operation_id: restore_operation_id.clone(),
                commit: *commit,
                acknowledge: *acknowledge,
            },
        }
    }

    /// Whether two kinds agree in everything.
    pub fn agrees(&self, other: &BackupDispatchKind) -> (equal: bool)
        ensures
            equal == (self@ == other@),
    {
        match (self, other) {
            (BackupDispatchKind::Backup, BackupDispatchKind::Backup) => true,
            (BackupDispatchKind::BackupBatch, BackupDispatchKind::BackupBatch) => true,
            (
                BackupDispatchKind::Restore { journal_id: a, deferred: b },
                BackupDispatchKind::Restore { journal_id: c, deferred: d },
            ) => text::same(a.as_str(), c.as_str()) && *b == *d,
            (
                BackupDispatchKind::FinalizeRestore {
                    journal_id: a,
                    restore_operation_id: b,
                    commit: c,
                    acknowledge: d,
                },
                BackupDispatchKind::FinalizeRestore {
                    journal_id: e,
                    restore_operation_id: f,
                    commit: g,
                    acknowledge: h,
                },
            ) => text::same(a.as_str(), e.as_str()) && text::same(b.as_str(), f.as_str()) && *c
                == *g && *d == *h,
            _ => false,
        }
    }
}

/// The durable receipt of a dispatched operation.
#[derive(Clone, Debug, PartialEq, Eq)]
pub struct BackupCompletionReceipt {
    /// Who dispatched the operation.
    pub core: String,
    /// The run that the operation belongs to.
    pub run_id: String,
    /// Written by older agents in place of `kind`.
    pub batch: Option<bool>,
    /// What was dispatched; nothing when the identity was fenced before use.
    pub kind: Option<BackupDispatchKind>,
    /// Proof of a finalization, kept when its journal is gone.
    pub finalized: Option<FinalizeVykarRestoreResponse>,
    pub completion: VykarBackupCompletion,
}

impl BackupCompletionReceipt {
    /// What was dispatched under the receipt's identity.
    pub open spec fn kind_model(self) -> Option<DispatchModel> {
        match self.kind {
            Some(kind) => Some(kind@),
            None => match self.batch {
                Some(true) => Some(DispatchModel::BackupBatch),
                Some(false) => Some(DispatchModel::Backup),
                None => None,
            },
        }
    }

    /// The receipts speak of the same dispatch.
    pub open spec fn same_identity(self, other: BackupCompletionReceipt) -> bool {
        &&& self.core@ == other.core@
        &&& self.run_id@ == other.run_id@
        &&& self.kind_model() == other.kind_model()
    }

    /// The receipt belongs to this core and this run.
    pub open spec fn owned_by(self, core: Seq<char>, run_id: Seq<char>) -> bool {
        self.core@ == core && self.run_id@ == run_id
    }

    /// What was dispatched under the receipt's identity.
    pub fn kind(&self) -> (kind: Option<BackupDispatchKind>)
        ensures
            match kind {
                Some(held) => self.kind_model() == Some(held@),
                None => self.kind_model() is None,
            },
    {
        match &self.kind {
            Some(kind) => Some(kind.duplicate()),
            None => match self.batch {
                Some(true) => Some(BackupDispatchKind::BackupBatch),
                Some(false) => Some(BackupDispatchKind::Backup),
                None => None,
            },
        }
    }
}

/// Why a receipt does not allow what was asked.
#[derive(Clone, Copy, Debug, PartialEq, Eq, Structural)]
pub enum ReceiptError {
    /// The dispatch names no core or no run.
    MissingIdentity,
    /// The operation's identity is no UUID.
    InvalidOperation,
    /// The receipt belongs to another core or run.
    ForeignOwner,
    /// The identity was used for something else.
    DifferentKind,
    /// The operation has been started and has not ended.
    AlreadyRunning,
    /// The receipt should be there and is not.
    Disappeared,
    /// The receipt is not the one of a running operation.
    NotRunning,
    /// The original dispatch is not named.
    UntrackedOrigin,
    /// The original dispatch has left no receipt.
    UnclaimedOrigin,
    /// The receipt is not the one of the restore to be finalized.
    DifferentOrigin,
    /// The original restore still runs.
    RunningOrigin,
    /// There is no receipt to prove the outcome.
    NoOriginProof,
    /// The receipt does not prove an outcome.
    NoFinalizationProof,
    /// The receipt proves another outcome, or none.
    NoMatchingOutcome,
}

/// The path of an operation's receipt.
pub open spec fn receipt_path_of(directory: Seq<char>, canonical: Seq<char>) -> Seq<char> {
    path::joined(directory, canonical + ".json"@)
}

/// Where the receipt of an operation is kept.
pub fn backup_completion_path(directory: &str, operation_id: &str) -> (path: Result<
    String,
    ReceiptError,
>)
    ensures
        match path {
            Ok(text) => outside::uuid_of(operation_id@) is Some && text@ == receipt_path_of(
                directory@,
                outside::uuid_of(operation_id@)->Some_0,
            ),
            Err(error) => outside::uuid_of(operation_id@) is None && error
                == ReceiptError::InvalidOperation,
        },
{
    match outside::parse_uuid(operation_id) {
        Some(canonical) => Ok(path::join(directory, text::concat2(canonical.as_str(), ".json").as_str())),
        None => Err(ReceiptError::InvalidOperation),
    }
}

/// Whether the receipt belongs to this core and this run.
pub fn check_backup_completion_owner(
    receipt: &BackupCompletionReceipt,
    core: &str,
    run_id: &str,
) -> (outcome: Result<(), ReceiptError>)
    ensures
        outcome is Ok <==> receipt.owned_by(core@, run_id@),
        outcome matches Err(error) ==> error == ReceiptError::ForeignOwner,
{
    if !text::same(receipt.core.as_str(), core) || !text::same(receipt.run_id.as_str(), run_id) {
        return Err(ReceiptError::ForeignOwner);
    }
    Ok(())
}

// ---------------------------------------------------------------------------
// Starting
// ---------------------------------------------------------------------------

/// The answer to a dispatch.
#[derive(Clone, Debug, PartialEq, Eq)]
pub enum Claim {
    /// The operation has been here before: this is what became of it.
    Replay(VykarBackupCompletion),
    /// The operation may start once this receipt is durable.
    Start(BackupCompletionReceipt),
}

/// Why a dispatch is refused.
pub open spec fn claim_refusal(
    existing: Option<BackupCompletionReceipt>,
    core: Seq<char>,
    run_id: Seq<char>,
    kind: DispatchModel,
) -> Option<ReceiptError> {
    if core.len() == 0 || run_id.len() == 0 {
        Some(ReceiptError::MissingIdentity)
    } else {
        match existing {
            None => None,
            Some(receipt) => if !receipt.owned_by(core, run_id) {
                Some(ReceiptError::ForeignOwner)
            } else if receipt.kind_model() is Some && receipt.kind_model() != Some(kind) {
                Some(ReceiptError::DifferentKind)
            } else if receipt.completion.state == VykarBackupCompletionState::Unknown
                || receipt.completion.state == VykarBackupCompletionState::Running {
                Some(ReceiptError::AlreadyRunning)
            } else {
                None
            },
        }
    }
}

/// The receipt that an operation starts with.
pub open spec fn is_starting_receipt(
    receipt: BackupCompletionReceipt,
    core: Seq<char>,
    run_id: Seq<char>,
    kind: DispatchModel,
) -> bool {
    &&& receipt.owned_by(core, run_id)
    &&& receipt.kind_model() == Some(kind)
    &&& receipt.finalized is None
    &&& receipt.completion.state == VykarBackupCompletionState::Running
    &&& receipt.completion.no_result()
    &&& receipt.completion.error is None
}

/// The claim answers the dispatch: a refusal, the replay of what is there, or
/// the receipt to start with where nothing is there.
pub open spec fn answers_claim(
    existing: Option<BackupCompletionReceipt>,
    core: Seq<char>,
    run_id: Seq<char>,
    kind: DispatchModel,
    claim: Result<Claim, ReceiptError>,
) -> bool {
    match claim {
        Err(error) => claim_refusal(existing, core, run_id, kind) == Some(error),
        Ok(Claim::Replay(completion)) => {
            &&& claim_refusal(existing, core, run_id, kind) is None
            &&& existing matches Some(receipt) && receipt.completion == completion
        },
        Ok(Claim::Start(receipt)) => {
            &&& claim_refusal(existing, core, run_id, kind) is None
            &&& existing is None
            &&& is_starting_receipt(receipt, core, run_id, kind)
        },
    }
}

/// Decides what a dispatch does, given the receipt that its identity has left.
pub fn claim_dispatch_completion(
    existing: Option<BackupCompletionReceipt>,
    core: &str,
    run_id: &str,
    kind: BackupDispatchKind,
) -> (claim: Result<Claim, ReceiptError>)
    ensures
        answers_claim(existing, core@, run_id@, kind@, claim),
{
    if core.is_empty() || run_id.is_empty() {
        return Err(ReceiptError::MissingIdentity);
    }
    match existing {
        Some(receipt) => {
            match check_backup_completion_owner(&receipt, core, run_id) {
                Err(error) => {
                    return Err(error);
                },
                Ok(()) => {},
            }
            match receipt.kind() {
                Some(held) => {
                    if !held.agrees(&kind) {
                        return Err(ReceiptError::DifferentKind);
                    }
                },
                None => {},
            }
            match receipt.completion.state {
                VykarBackupCompletionState::Unknown | VykarBackupCompletionState::Running => Err(
                    ReceiptError::AlreadyRunning,
                ),
                _ => Ok(Claim::Replay(receipt.completion)),
            }
        },
        None => Ok(
            Claim::Start(
                BackupCompletionReceipt {
                    core: core.to_owned(),
                    run_id: run_id.to_owned(),
                    batch: None,
                    kind: Some(kind),
                    finalized: None,
                    completion: VykarBackupCompletion::empty(VykarBackupCompletionState::Running),
                },
            ),
        ),
    }
}

/// What a batch or a single backup is dispatched as.
pub open spec fn backup_kind(batch: bool) -> DispatchModel {
    if batch {
        DispatchModel::BackupBatch
    } else {
        DispatchModel::Backup
    }
}

/// Decides what the dispatch of a backup does.
pub fn claim_backup_completion(
    existing: Option<BackupCompletionReceipt>,
    core: &str,
    run_id: &str,
    batch: bool,
) -> (claim: Result<Claim, ReceiptError>)
    ensures
        answers_claim(existing, core@, run_id@, backup_kind(batch), claim),
{
    claim_dispatch_completion(
        existing,
        core,
        run_id,
        if batch {
            BackupDispatchKind::BackupBatch
        } else {
            BackupDispatchKind::Backup
        },
    )
}

// ---------------------------------------------------------------------------
// Ending and asking
// ---------------------------------------------------------------------------

/// Why the end of an operation cannot be recorded.
pub open spec fn finish_refusal(
    existing: Option<BackupCompletionReceipt>,
    core: Seq<char>,
    run_id: Seq<char>,
) -> Option<ReceiptError> {
    match existing {
        None => Some(ReceiptError::Disappeared),
        Some(receipt) => if !receipt.owned_by(core, run_id) {
            Some(ReceiptError::ForeignOwner)
        } else if receipt.completion.state != VykarBackupCompletionState::Running {
            Some(ReceiptError::NotRunning)
        } else {
            None
        },
    }
}

/// Records the end of a running operation.
pub fn finish_backup_completion(
    existing: Option<BackupCompletionReceipt>,
    core: &str,
    run_id: &str,
    completion: VykarBackupCompletion,
) -> (receipt: Result<BackupCompletionReceipt, ReceiptError>)
    ensures
        match receipt {
            Err(error) => finish_refusal(existing, core@, run_id@) == Some(error),
            Ok(after) => {
                &&& finish_refusal(existing, core@, run_id@) is None
                &&& existing matches Some(before) && before.same_identity(after) && before.finalized
                    == after.finalized
                &&& after.completion == completion
            },
        },
{
    match existing {
        None => Err(ReceiptError::Disappeared),
        Some(mut receipt) => {
            match check_backup_completion_owner(&receipt, core, run_id) {
                Err(error) => {
                    return Err(error);
                },
                Ok(()) => {},
            }
            match receipt.completion.state {
                VykarBackupCompletionState::Running => {
                    receipt.completion = completion;
                    Ok(receipt)
                },
                _ => Err(ReceiptError::NotRunning),
            }
        },
    }
}

/// A question about an operation.
#[derive(Clone, Debug, PartialEq, Eq)]
pub struct GetVykarBackupCompletion {
    pub operation_id: String,
    pub run_id: String,
    /// Fence the identity if the operation has never been dispatched.
    pub cancel_if_unknown: bool,
    /// The result has been taken over; it need not be kept.
    pub acknowledge: bool,
}

/// The answer to a question about an operation.
#[derive(Clone, Debug, PartialEq, Eq)]
pub struct CompletionAnswer {
    pub response: VykarBackupCompletion,
    /// The receipt to make durable before the answer is given.
    pub store: Option<BackupCompletionReceipt>,
}

/// The error that a fenced identity replays.
pub const FENCED: &'static str = "Backup dispatch was fenced before it started";

/// The error that an acknowledged operation replays.
pub const ACKNOWLEDGED: &'static str = "Backup completion was already acknowledged";

/// The completion of a fenced identity.
pub open spec fn is_fenced(completion: VykarBackupCompletion) -> bool {
    &&& completion.state == VykarBackupCompletionState::Complete
    &&& completion.no_result()
    &&& text::held(completion.error) == Some(FENCED@)
}

/// The completion that is kept once its result has been acknowledged.
pub open spec fn is_acknowledged(completion: VykarBackupCompletion) -> bool {
    &&& completion.state == VykarBackupCompletionState::Complete
    &&& completion.no_result()
    &&& text::held(completion.error) == Some(ACKNOWLEDGED@)
}

fn acknowledged(receipt: BackupCompletionReceipt) -> (after: BackupCompletionReceipt)
    requires
        receipt.completion.state == VykarBackupCompletionState::Complete,
    ensures
        receipt.same_identity(after),
        after.finalized == receipt.finalized,
        is_acknowledged(after.completion),
{
    let mut after = receipt;
    after.completion = VykarBackupCompletion::failed(
        VykarBackupCompletionState::Complete,
        ACKNOWLEDGED,
    );
    after
}

/// Answers a question about an operation, given the receipt that it has left.
///
/// An unknown operation can be fenced: the answer then leaves a receipt that no
/// later dispatch can pass. An acknowledged result is dropped from its receipt,
/// but the receipt itself stays.
pub fn query_backup_completion(
    existing: Option<BackupCompletionReceipt>,
    request: &GetVykarBackupCompletion,
    core: &str,
) -> (answer: Result<CompletionAnswer, ReceiptError>)
    ensures
        match answer {
            Err(error) => error == ReceiptError::ForeignOwner && (existing matches Some(receipt)
                && !receipt.owned_by(core@, request.run_id@)),
            Ok(given) => match existing {
                Some(before) => {
                    &&& before.owned_by(core@, request.run_id@)
                    &&& given.response == before.completion
                    &&& given.store is Some <==> request.acknowledge && before.completion.state
                        == VykarBackupCompletionState::Complete
                    &&& given.store matches Some(after) ==> before.same_identity(after)
                        && after.finalized == before.finalized && is_acknowledged(after.completion)
                },
                None => if request.cancel_if_unknown {
                    &&& is_fenced(given.response)
                    &&& given.store matches Some(after) && after.owned_by(core@, request.run_id@)
                        && after.kind_model() is None && after.finalized is None && (
                    if request.acknowledge {
                        is_acknowledged(after.completion)
                    } else {
                        is_fenced(after.completion)
                    })
                } else {
                    &&& given.store is None
                    &&& given.response.state == VykarBackupCompletionState::Unknown
                    &&& given.response.no_result()
                    &&& given.response.error is None
                },
            },
        },
{
    match existing {
        None => {
            if request.cancel_if_unknown {
                let receipt = BackupCompletionReceipt {
                    core: core.to_owned(),
                    run_id: request.run_id.clone(),
                    batch: None,
                    kind: None,
                    finalized: None,
                    completion: VykarBackupCompletion::failed(
                        VykarBackupCompletionState::Complete,
                        FENCED,
                    ),
                };
                let response = VykarBackupCompletion::failed(
                    VykarBackupCompletionState::Complete,
                    FENCED,
                );
                let store = if request.acknowledge {
                    acknowledged(receipt)
                } else {
                    receipt
                };
                Ok(CompletionAnswer { response, store: Some(store) })
            } else {
                Ok(
                    CompletionAnswer {
                        response: VykarBackupCompletion::empty(
                            VykarBackupCompletionState::Unknown,
                        ),
                        store: None,
                    },
                )
            }
        },
        Some(receipt) => {
            match check_backup_completion_owner(&receipt, core, request.run_id.as_str()) {
                Err(error) => {
                    return Err(error);
                },
                Ok(()) => {},
            }
            match receipt.completion.state {
                VykarBackupCompletionState::Complete => {
                    if request.acknowledge {
                        let mut kept = receipt;
                        let mut response = VykarBackupCompletion::failed(
                            VykarBackupCompletionState::Complete,
                            ACKNOWLEDGED,
                        );
                        std::mem::swap(&mut response, &mut kept.completion);
                        Ok(CompletionAnswer { response, store: Some(kept) })
                    } else {
                        Ok(CompletionAnswer { response: receipt.completion, store: None })
                    }
                },
                _ => Ok(CompletionAnswer { response: receipt.completion, store: None }),
            }
        },
    }
}

// ---------------------------------------------------------------------------
// Finalizing a restore
// ---------------------------------------------------------------------------

/// The request to commit or roll back a deferred restore.
#[derive(Clone, Debug, PartialEq, Eq)]
pub struct FinalizeVykarRestore {
    pub operation_id: String,
    pub run_id: String,
    /// The dispatch of the restore that is decided.
    pub restore_operation_id: String,
    pub journal_id: String,
    pub commit: bool,
    pub acknowledge: bool,
}

/// Why a receipt gives no authority over the restore that is to be finalized.
pub open spec fn origin_refusal(
    existing: Option<BackupCompletionReceipt>,
    request: FinalizeVykarRestore,
    core: Seq<char>,
) -> Option<ReceiptError> {
    if request.restore_operation_id@.len() == 0 {
        Some(ReceiptError::UntrackedOrigin)
    } else {
        match existing {
            None => Some(ReceiptError::UnclaimedOrigin),
            Some(receipt) => if !receipt.owned_by(core, request.run_id@) {
                Some(ReceiptError::ForeignOwner)
            } else if !(match receipt.kind_model() {
                Some(DispatchModel::Restore { journal_id, .. }) => journal_id
                    == request.journal_id@,
                None => receipt.completion.state == VykarBackupCompletionState::Complete,
                _ => false,
            }) {
                Some(ReceiptError::DifferentOrigin)
            } else if receipt.completion.state == VykarBackupCompletionState::Unknown
                || receipt.completion.state == VykarBackupCompletionState::Running {
                Some(ReceiptError::RunningOrigin)
            } else {
                None
            },
        }
    }
}

/// Checks that the receipt of the original dispatch gives authority over the
/// restore that is to be finalized.
pub fn restore_origin_receipt(
    existing: Option<BackupCompletionReceipt>,
    request: &FinalizeVykarRestore,
    core: &str,
) -> (origin: Result<BackupCompletionReceipt, ReceiptError>)
    ensures
        match origin {
            Err(error) => origin_refusal(existing, *request, core@) == Some(error),
            Ok(receipt) => origin_refusal(existing, *request, core@) is None && existing == Some(
                receipt,
            ),
        },
{
    if request.restore_operation_id.as_str().is_empty() {
        return Err(ReceiptError::UntrackedOrigin);
    }
    match existing {
        None => Err(ReceiptError::UnclaimedOrigin),
        Some(receipt) => {
            match check_backup_completion_owner(&receipt, core, request.run_id.as_str()) {
                Err(error) => {
                    return Err(error);
                },
                Ok(()) => {},
            }
            let matching = match receipt.kind() {
                Some(BackupDispatchKind::Restore { journal_id, .. }) => text::same(
                    journal_id.as_str(),
                    request.journal_id.as_str(),
                ),
                None => match receipt.completion.state {
                    VykarBackupCompletionState::Complete => true,
                    _ => false,
                },
                _ => false,
            };
            if !matching {
                return Err(ReceiptError::DifferentOrigin);
            }
            match receipt.completion.state {
                VykarBackupCompletionState::Unknown | VykarBackupCompletionState::Running => Err(
                    ReceiptError::RunningOrigin,
                ),
                _ => Ok(receipt),
            }
        },
    }
}

/// The finalization is proof of the decision.
pub open spec fn proves_decision(finalized: FinalizeVykarRestoreResponse, commit: bool) -> bool {
    finalized.complete && finalized.critical_error is None && finalized.rolled_back != commit
}

/// The restore ended in a way that amounts to the decision.
pub open spec fn amounts_to_decision(
    restored: TransactionalVykarRestoreResponse,
    commit: bool,
) -> bool {
    &&& !restored.finalization_pending
    &&& restored.critical_error is None
    &&& (commit && restored.complete && !restored.rolled_back) || (!commit && restored.rolled_back)
}

/// The outcome that the original dispatch's receipt proves.
pub open spec fn outcome_from_origin(
    origin: Option<BackupCompletionReceipt>,
    commit: bool,
) -> Result<FinalizeModel, ReceiptError> {
    match origin {
        None => Err(ReceiptError::NoOriginProof),
        Some(receipt) => if receipt.completion.state != VykarBackupCompletionState::Complete {
            Err(ReceiptError::NoFinalizationProof)
        } else if receipt.finalized is Some && proves_decision(receipt.finalized->Some_0, commit) {
            Ok(receipt.finalized->Some_0@)
        } else if receipt.completion.restore_result is Some && amounts_to_decision(
            receipt.completion.restore_result->Some_0,
            commit,
        ) {
            Ok(
                finalized_cleanly(
                    !commit,
                    receipt.completion.restore_result->Some_0@.containers_restarted,
                ),
            )
        } else if receipt.kind_model() is None && !commit {
            Ok(finalized_cleanly(true, Seq::empty()))
        } else {
            Err(ReceiptError::NoMatchingOutcome)
        },
    }
}

fn decision_is_proved(finalized: &FinalizeVykarRestoreResponse, commit: bool) -> (proved: bool)
    ensures
        proved == proves_decision(*finalized, commit),
{
    finalized.complete && finalized.critical_error.is_none() && finalized.rolled_back != commit
}

/// The outcome of a restore whose journal is gone, as far as the receipt of the
/// original dispatch proves it.
pub fn finalization_from_origin(origin: Option<&BackupCompletionReceipt>, commit: bool) -> (outcome:
    Result<FinalizeVykarRestoreResponse, ReceiptError>)
    ensures
        match outcome {
            Ok(response) => outcome_from_origin(
                match origin {
                    Some(receipt) => Some(*receipt),
                    None => None,
                },
                commit,
            ) == Ok::<FinalizeModel, ReceiptError>(response@),
            Err(error) => outcome_from_origin(
                match origin {
                    Some(receipt) => Some(*receipt),
                    None => None,
                },
                commit,
            ) == Err::<FinalizeModel, ReceiptError>(error),
        },
{
    let receipt = match origin {
        None => {
            return Err(ReceiptError::NoOriginProof);
        },
        Some(receipt) => receipt,
    };
    match receipt.completion.state {
        VykarBackupCompletionState::Complete => {},
        _ => {
            return Err(ReceiptError::NoFinalizationProof);
        },
    }
    match &receipt.finalized {
        Some(finalized) => {
            if decision_is_proved(finalized, commit) {
                return Ok(finalized.duplicate());
            }
        },
        None => {},
    }
    match &receipt.completion.restore_result {
        Some(restored) => {
            if !restored.finalization_pending && restored.critical_error.is_none() && ((commit
                && restored.complete && !restored.rolled_back) || (!commit
                && restored.rolled_back)) {
                return Ok(
                    FinalizeVykarRestoreResponse {
                        complete: true,
                        rolled_back: !commit,
                        containers_restarted: text::clone_texts(&restored.containers_restarted),
                        critical_error: None,
                    },
                );
            }
        },
        None => {},
    }
    if receipt.kind().is_none() && !commit {
        return Ok(FinalizeVykarRestoreResponse::clean(true));
    }
    Err(ReceiptError::NoMatchingOutcome)
}

/// A receipt proves at most one of the two decisions, provided that what it
/// holds of the restore and of its finalization does not contradict itself.
pub proof fn origin_proves_one_decision(origin: BackupCompletionReceipt)
    requires
        origin.finalized is Some && origin.completion.restore_result is Some
            && origin.finalized->Some_0.complete ==> origin.finalized->Some_0.rolled_back
            == origin.completion.restore_result->Some_0.rolled_back,
        origin.kind_model() is None ==> origin.finalized is None
            && origin.completion.restore_result is None,
    ensures
        outcome_from_origin(Some(origin), true) is Ok ==> outcome_from_origin(
            Some(origin),
            false,
        ) is Err,
{
}

/// A fenced identity can be rolled back and never committed.
pub proof fn fenced_restores_cannot_be_committed(origin: BackupCompletionReceipt)
    requires
        origin.kind_model() is None,
        origin.finalized is None,
        is_fenced(origin.completion) || is_acknowledged(origin.completion),
    ensures
        outcome_from_origin(Some(origin), true) is Err,
        outcome_from_origin(Some(origin), false) == Ok::<FinalizeModel, ReceiptError>(
            finalized_cleanly(true, Seq::empty()),
        ),
{
}

/// Why the proof of a finalization cannot be recorded.
pub open spec fn proof_refusal(
    dispatch: Option<BackupCompletionReceipt>,
    origin: Option<BackupCompletionReceipt>,
    request: FinalizeVykarRestore,
    core: Seq<char>,
) -> Option<ReceiptError> {
    match finish_refusal(dispatch, core, request.run_id@) {
        Some(error) => Some(error),
        None => if request.restore_operation_id@.len() == 0 {
            None
        } else {
            match origin {
                None => Some(ReceiptError::Disappeared),
                Some(receipt) => if receipt.owned_by(core, request.run_id@) {
                    None
                } else {
                    Some(ReceiptError::ForeignOwner)
                },
            }
        },
    }
}

/// The two receipts that hold the proof of a finalization.
#[derive(Clone, Debug, PartialEq, Eq)]
pub struct FinalizationProof {
    pub dispatch: BackupCompletionReceipt,
    /// The original restore's receipt; nothing where it is not named.
    pub origin: Option<BackupCompletionReceipt>,
}

/// The restore result that a finalization amounts to.
pub open spec fn restored_as(finalized: FinalizeModel) -> RestoreModel {
    RestoreModel {
        complete: !finalized.rolled_back,
        rolled_back: finalized.rolled_back,
        finalization_pending: false,
        containers_restarted: finalized.containers_restarted,
        critical_error: None,
    }
}

/// The receipt holds this finalization as its proof.
pub open spec fn holds_proof(receipt: BackupCompletionReceipt, finalized: FinalizeModel) -> bool {
    receipt.finalized matches Some(held) && held@ == finalized
}

/// Puts the proof of a finalization into the receipt of the finalization and
/// into the one of the original restore, before the journal may be removed.
pub fn persist_finalization_proof(
    dispatch: Option<BackupCompletionReceipt>,
    origin: Option<BackupCompletionReceipt>,
    request: &FinalizeVykarRestore,
    core: &str,
    finalized: &FinalizeVykarRestoreResponse,
) -> (proof_receipts: Result<FinalizationProof, ReceiptError>)
    ensures
        match proof_receipts {
            Err(error) => proof_refusal(dispatch, origin, *request, core@) == Some(error),
            Ok(stored) => {
                &&& proof_refusal(dispatch, origin, *request, core@) is None
                &&& dispatch matches Some(before) && before.same_identity(stored.dispatch)
                    && stored.dispatch.completion == before.completion
                &&& holds_proof(stored.dispatch, finalized@)
                &&& stored.origin is Some <==> request.restore_operation_id@.len() > 0
                &&& stored.origin matches Some(after) ==> {
                    &&& origin matches Some(before) && before.same_identity(after)
                    &&& holds_proof(after, finalized@)
                    &&& after.completion.state == VykarBackupCompletionState::Complete
                    &&& after.completion.restore_result matches Some(restored) && restored@
                        == restored_as(finalized@)
                    &&& after.completion.result is None
                    &&& after.completion.batch_result is None
                    &&& after.completion.finalize_restore_result is None
                    &&& after.completion.error is None
                }
            },
        },
{
    let mut dispatch_receipt = match dispatch {
        None => {
            return Err(ReceiptError::Disappeared);
        },
        Some(receipt) => receipt,
    };
    match check_backup_completion_owner(&dispatch_receipt, core, request.run_id.as_str()) {
        Err(error) => {
            return Err(error);
        },
        Ok(()) => {},
    }
    match dispatch_receipt.completion.state {
        VykarBackupCompletionState::Running => {},
        _ => {
            return Err(ReceiptError::NotRunning);
        },
    }
    dispatch_receipt.finalized = Some(finalized.duplicate());
    if request.restore_operation_id.as_str().is_empty() {
        return Ok(FinalizationProof { dispatch: dispatch_receipt, origin: None });
    }
    let mut origin_receipt = match origin {
        None => {
            return Err(ReceiptError::Disappeared);
        },
        Some(receipt) => receipt,
    };
    match check_backup_completion_owner(&origin_receipt, core, request.run_id.as_str()) {
        Err(error) => {
            return Err(error);
        },
        Ok(()) => {},
    }
    origin_receipt.finalized = Some(finalized.duplicate());
    let mut completion = VykarBackupCompletion::empty(VykarBackupCompletionState::Complete);
    completion.restore_result = Some(
        TransactionalVykarRestoreResponse {
            complete: !finalized.rolled_back,
            rolled_back: finalized.rolled_back,
            finalization_pending: false,
            containers_restarted: text::clone_texts(&finalized.containers_restarted),
            critical_error: None,
        },
    );
    origin_receipt.completion = completion;
    Ok(FinalizationProof { dispatch: dispatch_receipt, origin: Some(origin_receipt) })
}

/// Once a clean finalization has been proved to the original receipt, the same
/// decision can be read from that receipt again, and the opposite one cannot.
pub proof fn proof_survives_the_journal(
    after: BackupCompletionReceipt,
    finalized: FinalizeVykarRestoreResponse,
)
    requires
        finalized.complete,
        finalized.critical_error is None,
        holds_proof(after, finalized@),
        after.completion.state == VykarBackupCompletionState::Complete,
        after.kind_model() is Some,
        after.completion.restore_result matches Some(restored) ==> restored@ == restored_as(
            finalized@,
        ),
    ensures
        outcome_from_origin(Some(after), !finalized.rolled_back) == Ok::<
            FinalizeModel,
            ReceiptError,
        >(finalized@),
        outcome_from_origin(Some(after), finalized.rolled_back) is Err,
{
    assert(after.finalized->Some_0@ == finalized@);
}

// ---------------------------------------------------------------------------
// Starting up again
// ---------------------------------------------------------------------------

/// What a restart says of an interrupted backup.
pub const BACKUP_INTERRUPTED: &'static str = "Backup worker restarted; operation interrupted and container recovery completed";

/// What a restart says of a restore whose publication is undecided.
pub const RESTORE_UNRESOLVED: &'static str = "Restore worker restarted with an unresolved publication; guarded Core reconciliation is required";

/// What a restart says of a prepared restore whose journal is gone.
pub const RESTORE_LOST: &'static str = "Prepared restore journal disappeared without a durable finalization outcome";

/// What a restart says of a restore that was interrupted.
pub const RESTORE_UNKNOWN: &'static str = "Restore worker restarted; journal and container recovery completed, but the interrupted restore outcome is not known";

/// What a restart says of a finalization whose journal is pending.
pub const FINALIZE_PENDING: &'static str = "Restore finalization requires guarded journal reconciliation";

/// What a restart says of a finalization that nothing proves.
pub const FINALIZE_UNPROVED: &'static str = "Missing restore journal has no durable matching finalization proof";

/// The completion is the earlier one, marked as in need of recovery.
pub open spec fn needs_recovery(
    before: VykarBackupCompletion,
    after: VykarBackupCompletion,
    reason: Seq<char>,
) -> bool {
    &&& after.state == VykarBackupCompletionState::RecoveryRequired
    &&& text::held(after.error) == Some(reason)
    &&& after.result == before.result
    &&& after.batch_result == before.batch_result
    &&& after.restore_result == before.restore_result
    &&& after.finalize_restore_result == before.finalize_restore_result
}

/// The completion is over and holds only an error.
pub open spec fn is_over_with(after: VykarBackupCompletion, reason: Seq<char>) -> bool {
    &&& after.state == VykarBackupCompletionState::Complete
    &&& after.no_result()
    &&& text::held(after.error) == Some(reason)
}

/// The journal's work is done.
pub open spec fn is_settled(journal: Option<RestoreJournal>) -> bool {
    journal matches Some(held) && held.finalized && held.completed
}

/// The outcome of a finalization that its receipt, its journal or the original
/// receipt proves.
pub open spec fn proved_outcome(
    receipt: BackupCompletionReceipt,
    journal: Option<RestoreJournal>,
    original: Option<BackupCompletionReceipt>,
    journal_id: Seq<char>,
    commit: bool,
) -> Option<FinalizeModel> {
    if receipt.finalized is Some && proves_decision(receipt.finalized->Some_0, commit) {
        Some(receipt.finalized->Some_0@)
    } else if is_settled(journal) && journal->Some_0.committed == commit {
        Some(finalized_cleanly(!commit, Seq::empty()))
    } else if original is Some && original->Some_0.owned_by(receipt.core@, receipt.run_id@) && (
    match original->Some_0.kind_model() {
        Some(DispatchModel::Restore { journal_id: held, .. }) => held == journal_id,
        None => true,
        _ => false,
    }) {
        match outcome_from_origin(original, commit) {
            Ok(outcome) => Some(outcome),
            Err(_) => None,
        }
    } else {
        None
    }
}

/// What a restart makes of the completion of an operation that had not ended.
pub open spec fn is_recovered(
    receipt: BackupCompletionReceipt,
    journal: Option<RestoreJournal>,
    pending: bool,
    original: Option<BackupCompletionReceipt>,
    after: VykarBackupCompletion,
) -> bool {
    let before = receipt.completion;
    match receipt.kind_model() {
        Some(DispatchModel::Restore { deferred, .. }) => if pending {
            if before.state == VykarBackupCompletionState::Prepared {
                after == before
            } else {
                needs_recovery(before, after, RESTORE_UNRESOLVED@)
            }
        } else if is_settled(journal) {
            &&& after.state == VykarBackupCompletionState::Complete
            &&& after.error is None
            &&& after.result is None
            &&& after.batch_result is None
            &&& after.finalize_restore_result is None
            &&& after.restore_result matches Some(restored) && restored@ == (RestoreModel {
                complete: journal->Some_0.committed,
                rolled_back: !journal->Some_0.committed,
                finalization_pending: false,
                containers_restarted: Seq::empty(),
                critical_error: None,
            })
        } else if deferred && (before.state == VykarBackupCompletionState::Prepared || before.state
            == VykarBackupCompletionState::RecoveryRequired) {
            needs_recovery(before, after, RESTORE_LOST@)
        } else {
            is_over_with(after, RESTORE_UNKNOWN@)
        },
        Some(DispatchModel::FinalizeRestore { journal_id, commit, .. }) => if pending {
            needs_recovery(before, after, FINALIZE_PENDING@)
        } else {
            match proved_outcome(receipt, journal, original, journal_id, commit) {
                Some(outcome) => {
                    &&& after.state == VykarBackupCompletionState::Complete
                    &&& after.error is None
                    &&& after.result is None
                    &&& after.batch_result is None
                    &&& after.restore_result is None
                    &&& after.finalize_restore_result matches Some(held) && held@ == outcome
                },
                None => needs_recovery(before, after, FINALIZE_UNPROVED@),
            }
        },
        _ => is_over_with(after, BACKUP_INTERRUPTED@),
    }
}

fn recovery_required(before: VykarBackupCompletion, reason: &str) -> (after: VykarBackupCompletion)
    ensures
        needs_recovery(before, after, reason@),
{
    let mut after = before;
    after.state = VykarBackupCompletionState::RecoveryRequired;
    after.error = Some(reason.to_owned());
    after
}

fn settled(journal: Option<&RestoreJournal>) -> (done: bool)
    ensures
        done == (journal matches Some(held) && held.finalized && held.completed),
{
    match journal {
        Some(held) => held.finalized && held.completed,
        None => false,
    }
}

fn prove_finalization(
    receipt: &BackupCompletionReceipt,
    journal: Option<&RestoreJournal>,
    original: Option<&BackupCompletionReceipt>,
    journal_id: &str,
    commit: bool,
) -> (outcome: Option<FinalizeVykarRestoreResponse>)
    ensures
        match outcome {
            Some(response) => proved_outcome(
                *receipt,
                deref_option(journal),
                deref_option(original),
                journal_id@,
                commit,
            ) == Some(response@),
            None => proved_outcome(
                *receipt,
                deref_option(journal),
                deref_option(original),
                journal_id@,
                commit,
            ) is None,
        },
{
    match &receipt.finalized {
        Some(finalized) => {
            if decision_is_proved(finalized, commit) {
                return Some(finalized.duplicate());
            }
        },
        None => {},
    }
    match journal {
        Some(held) => {
            if held.finalized && held.completed && held.committed == commit {
                return Some(FinalizeVykarRestoreResponse::clean(!commit));
            }
        },
        None => {},
    }
    match original {
        Some(held) => {
            let owned = text::same(held.core.as_str(), receipt.core.as_str()) && text::same(
                held.run_id.as_str(),
                receipt.run_id.as_str(),
            );
            let matching = match held.kind() {
                Some(BackupDispatchKind::Restore { journal_id: id, .. }) => text::same(
                    id.as_str(),
                    journal_id,
                ),
                None => true,
                _ => false,
            };
            if owned && matching {
                match finalization_from_origin(Some(held), commit) {
                    Ok(outcome) => Some(outcome),
                    Err(_) => None,
                }
            } else {
                None
            }
        },
        None => None,
    }
}

/// An optional reference as an optional value.
pub open spec fn deref_option<T>(value: Option<&T>) -> Option<T> {
    match value {
        Some(held) => Some(*held),
        None => None,
    }
}

/// Works out, after a restart, what became of an operation that had not ended.
///
/// `pending` says that journals of the restore still wait for recovery, and
/// `original` is the receipt of the restore that a finalization decided.
pub fn recovered_dispatch_completion(
    receipt: BackupCompletionReceipt,
    journal: Option<&RestoreJournal>,
    pending: bool,
    original: Option<&BackupCompletionReceipt>,
) -> (recovered: BackupCompletionReceipt)
    ensures
        receipt.same_identity(recovered),
        recovered.finalized == receipt.finalized,
        is_recovered(
            receipt,
            deref_option(journal),
            pending,
            deref_option(original),
            recovered.completion,
        ),
{
    let mut recovered = receipt;
    match recovered.kind() {
        Some(BackupDispatchKind::Restore { deferred, .. }) => {
            if pending {
                match recovered.completion.state {
                    VykarBackupCompletionState::Prepared => {},
                    _ => {
                        recovered.completion = recovery_required(
                            recovered.completion,
                            RESTORE_UNRESOLVED,
                        );
                    },
                }
                return recovered;
            }
            if settled(journal) {
                let committed = match journal {
                    Some(held) => held.committed,
                    None => false,
                };
                let containers_restarted: Vec<String> = Vec::new();
                assert(texts(containers_restarted@) =~= Seq::<Seq<char>>::empty());
                let mut completion = VykarBackupCompletion::empty(
                    VykarBackupCompletionState::Complete,
                );
                completion.restore_result = Some(
                    TransactionalVykarRestoreResponse {
                        complete: committed,
                        rolled_back: !committed,
                        finalization_pending: false,
                        containers_restarted,
                        critical_error: None,
                    },
                );
                recovered.completion = completion;
                return recovered;
            }
            let waiting = match recovered.completion.state {
                VykarBackupCompletionState::Prepared
                | VykarBackupCompletionState::RecoveryRequired => true,
                _ => false,
            };
            if deferred && waiting {
                recovered.completion = recovery_required(recovered.completion, RESTORE_LOST);
            } else {
                recovered.completion = VykarBackupCompletion::failed(
                    VykarBackupCompletionState::Complete,
                    RESTORE_UNKNOWN,
                );
            }
            recovered
        },
        Some(BackupDispatchKind::FinalizeRestore { journal_id, commit, .. }) => {
            if pending {
                recovered.completion = recovery_required(recovered.completion, FINALIZE_PENDING);
                return recovered;
            }
            match prove_finalization(&recovered, journal, original, journal_id.as_str(), commit) {
                Some(outcome) => {
                    let mut completion = VykarBackupCompletion::empty(
                        VykarBackupCompletionState::Complete,
                    );
                    completion.finalize_restore_result = Some(outcome);
                    recovered.completion = completion;
                },
                None => {
                    recovered.completion = recovery_required(
                        recovered.completion,
                        FINALIZE_UNPROVED,
                    );
                },
            }
            recovered
        },
        _ => {
            recovered.completion = VykarBackupCompletion::failed(
                VykarBackupCompletionState::Complete,
                BACKUP_INTERRUPTED,
            );
            recovered
        },
    }
}

/// What is read before a receipt is recovered.
#[derive(Clone, Debug, PartialEq, Eq)]
pub struct RecoveryReading {
    /// The journal of the restore.
    pub journal_id: Option<String>,
    /// The receipt of the restore that is finalized.
    pub origin_id: Option<String>,
}

/// What is read before a receipt is recovered: the journal of a restore, and the
/// receipt of the restore that a finalization names.
pub fn recovery_reading(receipt: &BackupCompletionReceipt) -> (reading: RecoveryReading)
    ensures
        match receipt.kind_model() {
            Some(DispatchModel::Restore { journal_id, .. }) => text::held(reading.journal_id)
                == Some(journal_id) && reading.origin_id is None,
            Some(DispatchModel::FinalizeRestore { journal_id, restore_operation_id, .. }) => {
                &&& text::held(reading.journal_id) == Some(journal_id)
                &&& text::held(reading.origin_id) == if restore_operation_id.len() == 0 {
                    None
                } else {
                    Some(restore_operation_id)
                }
            },
            _ => reading.journal_id is None && reading.origin_id is None,
        },
{
    match receipt.kind() {
        Some(BackupDispatchKind::Restore { journal_id, deferred: _ }) => RecoveryReading {
            journal_id: Some(journal_id),
            origin_id: None,
        },
        Some(
            BackupDispatchKind::FinalizeRestore {
                journal_id,
                restore_operation_id,
                commit: _,
                acknowledge: _,
            },
        ) => {
            let origin_id = if text::chars_of(restore_operation_id.as_str()).len() == 0 {
                None
            } else {
                Some(restore_operation_id)
            };
            RecoveryReading { journal_id: Some(journal_id), origin_id }
        },
        _ => RecoveryReading { journal_id: None, origin_id: None },
    }
}

/// One entry of the startup pass over all receipts: completed receipts stay as
/// they are, and nothing is written for them.
pub fn recover_receipt(
    receipt: BackupCompletionReceipt,
    journal: Option<&RestoreJournal>,
    pending: bool,
    original: Option<&BackupCompletionReceipt>,
) -> (store: Option<BackupCompletionReceipt>)
    ensures
        store is None <==> receipt.completion.state == VykarBackupCompletionState::Complete,
        store matches Some(recovered) ==> {
            &&& receipt.same_identity(recovered)
            &&& recovered.finalized == receipt.finalized
            &&& is_recovered(
                receipt,
                deref_option(journal),
                pending,
                deref_option(original),
                recovered.completion,
            )
        },
{
    match receipt.completion.state {
        VykarBackupCompletionState::Complete => None,
        _ => Some(recovered_dispatch_completion(receipt, journal, pending, original)),
    }
}

/// A restart never leaves an operation running, so that its identity can be
/// answered: the receipt then replays or asks for recovery.
pub proof fn nothing_runs_after_a_restart(
    receipt: BackupCompletionReceipt,
    journal: Option<RestoreJournal>,
    pending: bool,
    original: Option<BackupCompletionReceipt>,
    after: VykarBackupCompletion,
)
    requires
        is_recovered(receipt, journal, pending, original, after),
    ensures
        after.state != VykarBackupCompletionState::Running,
        after.state != VykarBackupCompletionState::Unknown,
{
}

/// A restart calls a restore complete only when none of its journals waits.
pub proof fn pending_restores_are_not_over(
    receipt: BackupCompletionReceipt,
    journal: Option<RestoreJournal>,
    original: Option<BackupCompletionReceipt>,
    after: VykarBackupCompletion,
)
    requires
        receipt.kind_model() matches Some(kind) && (kind is Restore || kind is FinalizeRestore),
        is_recovered(receipt, journal, true, original, after),
    ensures
        after.state != VykarBackupCompletionState::Complete,
{
}

/// An identity that has left a receipt never starts again, whoever asks and
/// for whatever: every dispatch is refused, or replays what is there to the
/// core and run that own it.
pub proof fn a_receipt_admits_no_second_start(
    receipt: BackupCompletionReceipt,
    core: Seq<char>,
    run_id: Seq<char>,
    kind: DispatchModel,
    claim: Result<Claim, ReceiptError>,
)
    requires
        answers_claim(Some(receipt), core, run_id, kind, claim),
    ensures
        !(claim matches Ok(Claim::Start(_))),
        claim matches Ok(Claim::Replay(completion)) ==> completion.state
            != VykarBackupCompletionState::Running && receipt.owned_by(core, run_id) && (
        receipt.kind_model() is None || receipt.kind_model() == Some(kind)),
{
}

/// Once the end of an operation is recorded, every further dispatch by its
/// owner is answered with just that end.
pub proof fn recorded_ends_are_replayed(
    before: BackupCompletionReceipt,
    after: BackupCompletionReceipt,
    core: Seq<char>,
    run_id: Seq<char>,
    kind: DispatchModel,
    claim: Result<Claim, ReceiptError>,
)
    requires
        is_starting_receipt(before, core, run_id, kind),
        before.same_identity(after),
        after.completion.state != VykarBackupCompletionState::Unknown,
        after.completion.state != VykarBackupCompletionState::Running,
        core.len() > 0,
        run_id.len() > 0,
        answers_claim(Some(after), core, run_id, kind, claim),
    ensures
        claim == Ok::<Claim, ReceiptError>(Claim::Replay(after.completion)),
{
}

/// A first dispatch that names its core and its run may start, and a receipt is
/// answered only to the core and the run that it was written for.
pub proof fn first_dispatches_start(
    existing: Option<BackupCompletionReceipt>,
    core: Seq<char>,
    run_id: Seq<char>,
    kind: DispatchModel,
    claim: Result<Claim, ReceiptError>,
)
    requires
        answers_claim(existing, core, run_id, kind, claim),
    ensures
        existing is None && core.len() > 0 && run_id.len() > 0 ==> claim matches Ok(Claim::Start(_)),
        core.len() == 0 || run_id.len() == 0 ==> claim is Err,
        existing matches Some(receipt) && (receipt.core@ != core || receipt.run_id@ != run_id)
            ==> claim is Err,
        existing matches Some(receipt) && (receipt.completion.state
            == VykarBackupCompletionState::Running || receipt.completion.state
            == VykarBackupCompletionState::Unknown) ==> claim is Err,
        existing matches Some(receipt) && receipt.kind_model() is Some && receipt.kind_model()
            != Some(kind) ==> claim is Err,
        claim matches Ok(Claim::Start(receipt)) ==> receipt.core@ == core && receipt.run_id@
            == run_id && receipt.completion.state == VykarBackupCompletionState::Running,
{
}

/// An end is recorded only for an operation that runs, by the core and the run that
/// own it, and then whenever it is told.
pub proof fn only_running_operations_end(
    existing: Option<BackupCompletionReceipt>,
    core: Seq<char>,
    run_id: Seq<char>,
)
    ensures
        finish_refusal(existing, core, run_id) is None <==> (existing matches Some(receipt)
            && receipt.core@ == core && receipt.run_id@ == run_id && receipt.completion.state
            == VykarBackupCompletionState::Running),
{
}

/// A restore can be decided only under the receipt of its own dispatch: one that
/// belongs to the same core and run, was written for the same journal or fenced
/// before it started, and does not run any more.
pub proof fn decisions_need_their_own_restore(
    existing: Option<BackupCompletionReceipt>,
    request: FinalizeVykarRestore,
    core: Seq<char>,
)
    requires
        origin_refusal(existing, request, core) is None,
    ensures
        existing matches Some(receipt) && receipt.core@ == core && receipt.run_id@
            == request.run_id@ && receipt.completion.state != VykarBackupCompletionState::Running
            && receipt.completion.state != VykarBackupCompletionState::Unknown && (
        receipt.kind_model() is None && receipt.completion.state
            == VykarBackupCompletionState::Complete || (receipt.kind_model() matches Some(
            DispatchModel::Restore { journal_id, .. },
        ) && journal_id == request.journal_id@)),
{
}

/// A decision is taken to be carried out only if something proves it: the outcome
/// that was recorded, a restore that ended in the same way, or a restore that never
/// started and is not to be kept. What is told then is that decision.
pub proof fn decisions_are_proved(origin: Option<BackupCompletionReceipt>, commit: bool)
    requires
        outcome_from_origin(origin, commit) is Ok,
    ensures
        outcome_from_origin(origin, commit)->Ok_0.complete,
        outcome_from_origin(origin, commit)->Ok_0.rolled_back == !commit,
        outcome_from_origin(origin, commit)->Ok_0.critical_error is None,
        origin is Some,
        origin->Some_0.completion.state == VykarBackupCompletionState::Complete,
        commit ==> (origin->Some_0.finalized matches Some(held) && held.complete
            && !held.rolled_back) || (origin->Some_0.completion.restore_result matches Some(held)
            && held.complete && !held.rolled_back && !held.finalization_pending),
{
}

/// What a restart makes of an operation that was interrupted: a backup is over and
/// says so; a restore whose journal settled its outcome tells just that outcome; and
/// whatever is not proved is never told to have been carried out.
pub proof fn restarts_make_up_no_outcome(
    receipt: BackupCompletionReceipt,
    journal: Option<RestoreJournal>,
    pending: bool,
    original: Option<BackupCompletionReceipt>,
    after: VykarBackupCompletion,
)
    requires
        is_recovered(receipt, journal, pending, original, after),
    ensures
        receipt.kind_model() == Some(DispatchModel::Backup) || receipt.kind_model() == Some(
            DispatchModel::BackupBatch,
        ) || receipt.kind_model() is None ==> after.state == VykarBackupCompletionState::Complete
            && after.no_result() && after.error is Some,
        receipt.kind_model() matches Some(DispatchModel::Restore { .. }) && after.state
            == VykarBackupCompletionState::Complete && after.restore_result is Some ==> !pending
            && journal is Some && journal->Some_0.finalized && journal->Some_0.completed
            && after.restore_result->Some_0.complete == journal->Some_0.committed
            && after.restore_result->Some_0.rolled_back == !journal->Some_0.committed
            && !after.restore_result->Some_0.finalization_pending,
        receipt.kind_model() matches Some(DispatchModel::Restore { .. }) && !pending && journal
            is Some && journal->Some_0.finalized && journal->Some_0.completed ==> after.state
            == VykarBackupCompletionState::Complete && after.restore_result is Some && after.error
            is None,
        receipt.kind_model() matches Some(DispatchModel::FinalizeRestore { .. }) && after.state
            == VykarBackupCompletionState::Complete ==> !pending && after.finalize_restore_result
            is Some && (receipt.finalized is Some || journal is Some || original is Some),
{
}

/// A finalization that a restart finds carried out is told with the decision that
/// was asked for.
pub proof fn recovered_decisions_are_the_asked_ones(
    receipt: BackupCompletionReceipt,
    journal: Option<RestoreJournal>,
    original: Option<BackupCompletionReceipt>,
    journal_id: Seq<char>,
    commit: bool,
)
    requires
        proved_outcome(receipt, journal, original, journal_id, commit) is Some,
    ensures
        proved_outcome(receipt, journal, original, journal_id, commit)->Some_0.complete,
        proved_outcome(receipt, journal, original, journal_id, commit)->Some_0.rolled_back
            == !commit,
        proved_outcome(receipt, journal, original, journal_id, commit)->Some_0.critical_error
            is None,
{
}

/// Every receipt has its own place: the directory and the canonical identity fix
/// it.
pub proof fn receipts_keep_their_places_apart(
    directory: Seq<char>,
    canonical: Seq<char>,
    other: Seq<char>,
)
    requires
        !path::is_absolute_path(canonical + ".json"@),
        !path::is_absolute_path(other + ".json"@),
        receipt_path_of(directory, canonical) == receipt_path_of(directory, other),
    ensures
        canonical == other,
{
    let a = canonical + ".json"@;
    let b = other + ".json"@;
    let base = if directory.len() == 0 || directory.last() == '/' {
        directory
    } else {
        directory.push('/')
    };
    assert(receipt_path_of(directory, canonical) == base + a);
    assert(receipt_path_of(directory, other) == base + b);
    assert((base + a).len() == (base + b).len());
    assert(a =~= b) by {
        assert forall|i: int| 0 <= i < a.len() implies a[i] == b[i] by {
            assert((base + a)[base.len() + i] == (base + b)[base.len() + i]);
        }
    }
    assert(canonical =~= other) by {
        assert forall|i: int| 0 <= i < canonical.len() implies canonical[i] == other[i] by {
            assert(a[i] == b[i]);
        }
    }
}

} // verus!
