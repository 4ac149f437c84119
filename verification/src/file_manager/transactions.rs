//! Transactions over managed files: a save is applied here and decided over
//! elsewhere, and survives a restart in between.

use vstd::prelude::*;

use crate::file_manager::copying;
use crate::file_manager::journal::JournalRecord;
use crate::file_manager::operation;
use crate::file_manager::operation::ResolvedRoot;
use crate::file_manager::plans::FileManagerCommitResponse;
use crate::file_manager::plans::OperationPlan;
use crate::outside;
use crate::registry::Registry;
use crate::text;
use crate::text::texts;

verus! {

/// How long a decided transaction is remembered, in milliseconds.
pub const FINALIZED_MANAGED_TRANSACTION_TTL_MS: i64 = 2592000000;

/// How far a transaction has come.
#[derive(Clone, Copy, Debug, PartialEq, Eq, Structural)]
pub enum FileManagerManagedTransactionState {
    Prepared,
    Applying,
    Applied,
    RollbackRequested,
    RolledBack,
    CommitRequested,
    Committed,
}

/// A transaction over a managed file.
#[derive(Clone, Debug, PartialEq, Eq)]
pub struct ManagedTransactionRecord {
    pub operation_id: String,
    pub actor: String,
    pub root_key: String,
    pub plan_id: String,
    pub state: FileManagerManagedTransactionState,
    pub affected_paths: Vec<String>,
    /// When the transaction was decided.
    pub finalized_at: Option<i64>,
}

/// What a caller is told about a transaction.
#[derive(Clone, Debug, PartialEq, Eq)]
pub struct FileManagerManagedTransactionStatus {
    pub operation_id: String,
    pub state: FileManagerManagedTransactionState,
}

/// How a transaction is decided.
#[derive(Clone, Copy, Debug, PartialEq, Eq, Structural)]
pub enum FileManagerManagedTransactionFinalizeAction {
    Commit,
    Rollback,
}

/// Why a request about a transaction is refused.
#[derive(Clone, Copy, Debug, PartialEq, Eq, Structural)]
pub enum TransactionError {
    /// The identity is no UUID.
    InvalidId,
    /// The root is read-only or has no managed file.
    NotManaged,
    /// There is no such plan.
    PlanMissing,
    /// The plan belongs to another user.
    PlanOfOtherActor,
    /// The plan belongs to another root.
    PlanOfOtherRoot,
    /// The plan is too old.
    PlanExpired,
    /// The plan does not write the managed file.
    NotManagedWrite,
    /// The identity belongs to another operation.
    OtherOperation,
    /// Another transaction of the root is open.
    OtherOpen,
    /// There is no such transaction.
    NotFound,
    /// The transaction has not been applied.
    NotReady,
    /// The transaction has been committed.
    AlreadyCommitted,
    /// The transaction has been rolled back.
    AlreadyRolledBack,
    /// The journal belongs to another operation.
    JournalMismatch,
    /// The journal's operation has not ended.
    JournalNotApplied,
    /// The journal is gone.
    JournalMissing,
    /// A rollback was asked for while applying.
    RollbackRequested,
    /// The transaction was not being applied.
    InvalidApplyState,
}

/// The transaction has not been decided.
pub open spec fn is_open(state: FileManagerManagedTransactionState) -> bool {
    state != FileManagerManagedTransactionState::RolledBack && state
        != FileManagerManagedTransactionState::Committed
}

/// Whether the transaction has not been decided.
pub fn managed_transaction_is_open(state: FileManagerManagedTransactionState) -> (open: bool)
    ensures
        open == is_open(state),
{
    match state {
        FileManagerManagedTransactionState::RolledBack => false,
        FileManagerManagedTransactionState::Committed => false,
        _ => true,
    }
}

/// The transaction was decided so long ago that it need not be remembered.
pub open spec fn is_prunable(record: ManagedTransactionRecord, now: i64) -> bool {
    !is_open(record.state) && (record.finalized_at matches Some(at) && at
        + FINALIZED_MANAGED_TRANSACTION_TTL_MS < now)
}

/// Whether the transaction need not be remembered.
pub fn managed_transaction_is_prunable(record: &ManagedTransactionRecord, now: i64) -> (prunable:
    bool)
    requires
        record.finalized_at matches Some(at) ==> at <= i64::MAX
            - FINALIZED_MANAGED_TRANSACTION_TTL_MS,
    ensures
        prunable == is_prunable(*record, now),
{
    !managed_transaction_is_open(record.state) && match record.finalized_at {
        Some(at) => at + FINALIZED_MANAGED_TRANSACTION_TTL_MS < now,
        None => false,
    }
}

/// What a caller is told about the transaction.
pub fn managed_transaction_status_from_record(record: &ManagedTransactionRecord) -> (status:
    FileManagerManagedTransactionStatus)
    ensures
        status.operation_id == record.operation_id,
        status.state == record.state,
{
    FileManagerManagedTransactionStatus {
        operation_id: record.operation_id.clone(),
        state: record.state,
    }
}

/// A transaction of the root is open.
pub open spec fn root_is_busy(
    transactions: Map<Seq<char>, ManagedTransactionRecord>,
    root_key: Seq<char>,
) -> bool {
    exists|id: Seq<char>| #[trigger]
        transactions.dom().contains(id) && transactions[id].root_key@ == root_key && is_open(
            transactions[id].state,
        )
}

/// Whether a transaction of the root is open.
pub fn managed_save_is_open(transactions: &Registry<ManagedTransactionRecord>, root_key: &str) -> (open:
    bool)
    requires
        transactions.well_formed(),
    ensures
        open == root_is_busy(transactions@, root_key@),
{
    let mut i: usize = 0;
    while i < transactions.len()
        invariant
            i <= transactions.spec_len(),
            transactions.well_formed(),
            forall|k: int|
                0 <= k < i ==> !(transactions@[#[trigger] transactions.key_at(k)].root_key@
                    == root_key@ && is_open(transactions@[transactions.key_at(k)].state)),
        decreases transactions.spec_len() - i,
    {
        let (key, record) = transactions.entry_at(i);
        if text::same(record.root_key.as_str(), root_key) && managed_transaction_is_open(
            record.state,
        ) {
            assert(transactions@.dom().contains(key@));
            return true;
        }
        i = i + 1;
    }
    proof {
        transactions.lemma_positions();
        assert forall|id: Seq<char>| #[trigger] transactions@.dom().contains(id) implies !(
        transactions@[id].root_key@ == root_key@ && is_open(transactions@[id].state)) by {
            let k = choose|k: int|
                0 <= k < transactions.spec_len() && #[trigger] transactions.key_at(k) == id;
            assert(transactions.key_at(k) == id);
        }
    }
    false
}

// ---------------------------------------------------------------------------
// Beginning
// ---------------------------------------------------------------------------

/// What a request to begin a transaction leads to.
#[derive(Clone, Debug, PartialEq, Eq)]
pub enum Beginning {
    /// The transaction was there already.
    Existing(FileManagerManagedTransactionStatus),
    /// The transaction is new. It counts once its record is durable.
    New(ManagedTransactionRecord),
}

/// Why a plan cannot be saved in a transaction.
pub open spec fn plan_refusal(
    plans: Map<Seq<char>, OperationPlan>,
    plan_id: Seq<char>,
    root: ResolvedRoot,
    actor: Seq<char>,
    now: i64,
) -> Option<TransactionError> {
    if !plans.dom().contains(plan_id) {
        Some(TransactionError::PlanMissing)
    } else if plans[plan_id].actor@ != actor {
        Some(TransactionError::PlanOfOtherActor)
    } else if plans[plan_id].root_key@ != root.key@ {
        Some(TransactionError::PlanOfOtherRoot)
    } else if plans[plan_id].expires_at < now {
        Some(TransactionError::PlanExpired)
    } else if !operation::edits_managed_file(root, plans[plan_id].operation) {
        Some(TransactionError::NotManagedWrite)
    } else {
        None
    }
}

/// Why a transaction cannot begin.
pub open spec fn begin_refusal(
    valid_id: bool,
    transactions: Map<Seq<char>, ManagedTransactionRecord>,
    plans: Map<Seq<char>, OperationPlan>,
    root: ResolvedRoot,
    actor: Seq<char>,
    operation_id: Seq<char>,
    plan_id: Seq<char>,
    now: i64,
) -> Option<TransactionError> {
    if !valid_id {
        Some(TransactionError::InvalidId)
    } else if root.read_only || root.managed_file is None {
        Some(TransactionError::NotManaged)
    } else {
        match plan_refusal(plans, plan_id, root, actor, now) {
            Some(error) => Some(error),
            None => if transactions.dom().contains(operation_id) {
                let existing = transactions[operation_id];
                if existing.actor@ != actor || existing.root_key@ != root.key@
                    || existing.plan_id@ != plan_id {
                    Some(TransactionError::OtherOperation)
                } else {
                    None
                }
            } else if root_is_busy(transactions, root.key@) {
                Some(TransactionError::OtherOpen)
            } else {
                None
            },
        }
    }
}

/// What an admitted request to begin a transaction leads to.
pub open spec fn begins_as(
    beginning: Beginning,
    transactions: Map<Seq<char>, ManagedTransactionRecord>,
    plans: Map<Seq<char>, OperationPlan>,
    root: ResolvedRoot,
    actor: Seq<char>,
    operation_id: Seq<char>,
    plan_id: Seq<char>,
    named: Seq<Seq<char>>,
) -> bool {
    match beginning {
        Beginning::Existing(status) => {
            &&& transactions.dom().contains(operation_id)
            &&& status.operation_id == transactions[operation_id].operation_id
            &&& status.state == transactions[operation_id].state
        },
        Beginning::New(record) => {
            &&& !transactions.dom().contains(operation_id)
            &&& record.operation_id@ == operation_id
            &&& record.actor@ == actor
            &&& record.root_key@ == root.key@
            &&& record.plan_id@ == plan_id
            &&& record.state == FileManagerManagedTransactionState::Prepared
            &&& texts(record.affected_paths@) == copying::affected_as_planned(
                plans[plan_id].operation,
                plans[plan_id].copy_targets@,
                named,
            )
            &&& record.finalized_at is None
        },
    }
}

/// Begins a transaction whose identity is a UUID or not, as `valid_id` says.
pub fn begin_identified_transaction(
    valid_id: bool,
    transactions: &Registry<ManagedTransactionRecord>,
    plans: &Registry<OperationPlan>,
    root: &ResolvedRoot,
    actor: &str,
    operation_id: &str,
    plan_id: &str,
    named: Vec<String>,
    now: i64,
) -> (outcome: Result<Beginning, TransactionError>)
    requires
        transactions.well_formed(),
        plans.well_formed(),
    ensures
        ({
            let refusal = begin_refusal(
                valid_id,
                transactions@,
                plans@,
                *root,
                actor@,
                operation_id@,
                plan_id@,
                now,
            );
            match outcome {
                Ok(beginning) => refusal is None && begins_as(
                    beginning,
                    transactions@,
                    plans@,
                    *root,
                    actor@,
                    operation_id@,
                    plan_id@,
                    texts(named@),
                ),
                Err(error) => refusal == Some(error),
            }
        }),
{
    if !valid_id {
        return Err(TransactionError::InvalidId);
    }
    if root.read_only || root.managed_file.is_none() {
        return Err(TransactionError::NotManaged);
    }
    let plan = match plans.get(plan_id) {
        None => {
            return Err(TransactionError::PlanMissing);
        },
        Some(plan) => plan,
    };
    if !text::same(plan.actor.as_str(), actor) {
        return Err(TransactionError::PlanOfOtherActor);
    }
    if !text::same(plan.root_key.as_str(), root.key.as_str()) {
        return Err(TransactionError::PlanOfOtherRoot);
    }
    if plan.expires_at < now {
        return Err(TransactionError::PlanExpired);
    }
    if !operation::operation_edits_managed_file(root, &plan.operation) {
        return Err(TransactionError::NotManagedWrite);
    }
    match transactions.get(operation_id) {
        Some(existing) => {
            if !text::same(existing.actor.as_str(), actor) || !text::same(
                existing.root_key.as_str(),
                root.key.as_str(),
            ) || !text::same(existing.plan_id.as_str(), plan_id) {
                return Err(TransactionError::OtherOperation);
            }
            return Ok(Beginning::Existing(managed_transaction_status_from_record(existing)));
        },
        None => {},
    }
    if managed_save_is_open(transactions, root.key.as_str()) {
        return Err(TransactionError::OtherOpen);
    }
    Ok(
        Beginning::New(
            ManagedTransactionRecord {
                operation_id: operation_id.to_owned(),
                actor: actor.to_owned(),
                root_key: root.key.clone(),
                plan_id: plan_id.to_owned(),
                state: FileManagerManagedTransactionState::Prepared,
                affected_paths: copying::affected_paths_planned(
                    &plan.operation,
                    &plan.copy_targets,
                    named,
                ),
                finalized_at: None,
            },
        ),
    )
}

/// Begins a transaction over the managed file of a root, for a plan that writes
/// it. `named` are the paths that the plan's operation names.
pub fn begin_managed_transaction(
    transactions: &Registry<ManagedTransactionRecord>,
    plans: &Registry<OperationPlan>,
    root: &ResolvedRoot,
    actor: &str,
    operation_id: &str,
    plan_id: &str,
    named: Vec<String>,
    now: i64,
) -> (outcome: Result<Beginning, TransactionError>)
    requires
        transactions.well_formed(),
        plans.well_formed(),
    ensures
        ({
            let refusal = begin_refusal(
                outside::uuid_of(operation_id@) is Some,
                transactions@,
                plans@,
                *root,
                actor@,
                operation_id@,
                plan_id@,
                now,
            );
            match outcome {
                Ok(beginning) => refusal is None && begins_as(
                    beginning,
                    transactions@,
                    plans@,
                    *root,
                    actor@,
                    operation_id@,
                    plan_id@,
                    texts(named@),
                ),
                Err(error) => refusal == Some(error),
            }
        }),
{
    let valid_id = outside::parse_uuid(operation_id).is_some();
    begin_identified_transaction(
        valid_id,
        transactions,
        plans,
        root,
        actor,
        operation_id,
        plan_id,
        named,
        now,
    )
}

/// What is known of a transaction to the user that it belongs to.
pub open spec fn found(
    transactions: Map<Seq<char>, ManagedTransactionRecord>,
    root_key: Seq<char>,
    actor: Seq<char>,
    operation_id: Seq<char>,
) -> bool {
    transactions.dom().contains(operation_id) && transactions[operation_id].actor@ == actor
        && transactions[operation_id].root_key@ == root_key
}

/// What a user is told about a transaction whose identity is a UUID or not, as
/// `valid_id` says.
pub fn identified_transaction_status(
    valid_id: bool,
    transactions: &Registry<ManagedTransactionRecord>,
    root_key: &str,
    actor: &str,
    operation_id: &str,
) -> (status: Result<Option<FileManagerManagedTransactionStatus>, TransactionError>)
    requires
        transactions.well_formed(),
    ensures
        match status {
            Ok(Some(told)) => valid_id && found(
                transactions@,
                root_key@,
                actor@,
                operation_id@,
            ) && told.operation_id == transactions@[operation_id@].operation_id && told.state
                == transactions@[operation_id@].state,
            Ok(None) => valid_id && !transactions@.dom().contains(operation_id@),
            Err(error) => if valid_id {
                error == TransactionError::NotFound && transactions@.dom().contains(operation_id@)
                    && !found(transactions@, root_key@, actor@, operation_id@)
            } else {
                error == TransactionError::InvalidId
            },
        },
{
    if !valid_id {
        return Err(TransactionError::InvalidId);
    }
    match transactions.get(operation_id) {
        None => Ok(None),
        Some(record) => if !text::same(record.actor.as_str(), actor) || !text::same(
            record.root_key.as_str(),
            root_key,
        ) {
            Err(TransactionError::NotFound)
        } else {
            Ok(Some(managed_transaction_status_from_record(record)))
        },
    }
}

/// What a user is told about a transaction: nothing about those of others.
pub fn managed_transaction_status(
    transactions: &Registry<ManagedTransactionRecord>,
    root_key: &str,
    actor: &str,
    operation_id: &str,
) -> (status: Result<Option<FileManagerManagedTransactionStatus>, TransactionError>)
    requires
        transactions.well_formed(),
    ensures
        match status {
            Ok(Some(told)) => outside::uuid_of(operation_id@) is Some && found(
                transactions@,
                root_key@,
                actor@,
                operation_id@,
            ) && told.operation_id == transactions@[operation_id@].operation_id && told.state
                == transactions@[operation_id@].state,
            Ok(None) => outside::uuid_of(operation_id@) is Some && !transactions@.dom().contains(
                operation_id@,
            ),
            Err(error) => if outside::uuid_of(operation_id@) is Some {
                error == TransactionError::NotFound && transactions@.dom().contains(operation_id@)
                    && !found(transactions@, root_key@, actor@, operation_id@)
            } else {
                error == TransactionError::InvalidId
            },
        },
{
    let valid_id = outside::parse_uuid(operation_id).is_some();
    identified_transaction_status(valid_id, transactions, root_key, actor, operation_id)
}

// ---------------------------------------------------------------------------
// Applying
// ---------------------------------------------------------------------------

/// The record with another state. A decision is dated.
pub open spec fn has_state(
    before: ManagedTransactionRecord,
    after: ManagedTransactionRecord,
    state: FileManagerManagedTransactionState,
    now: i64,
) -> bool {
    &&& after.operation_id == before.operation_id
    &&& after.actor == before.actor
    &&& after.root_key == before.root_key
    &&& after.plan_id == before.plan_id
    &&& texts(after.affected_paths@) == texts(before.affected_paths@)
    &&& after.state == state
    &&& after.finalized_at == if is_open(state) {
        None
    } else {
        Some(now)
    }
}

/// The record with another state. It counts once it is durable.
pub fn persist_managed_transaction_state(
    record: &ManagedTransactionRecord,
    state: FileManagerManagedTransactionState,
    now: i64,
) -> (changed: ManagedTransactionRecord)
    ensures
        has_state(*record, changed, state, now),
{
    ManagedTransactionRecord {
        operation_id: record.operation_id.clone(),
        actor: record.actor.clone(),
        root_key: record.root_key.clone(),
        plan_id: record.plan_id.clone(),
        state,
        affected_paths: text::clone_texts(&record.affected_paths),
        finalized_at: if managed_transaction_is_open(state) {
            None
        } else {
            Some(now)
        },
    }
}

/// What a request to apply a transaction leads to.
#[derive(Clone, Debug, PartialEq, Eq)]
pub enum DurableCommitDisposition {
    /// The operation starts once the changed record is durable.
    Start(ManagedTransactionRecord),
    /// The operation runs or has run already.
    Existing(FileManagerCommitResponse),
}

/// Why a transaction is not applied.
pub open spec fn apply_refusal(
    transactions: Map<Seq<char>, ManagedTransactionRecord>,
    root_key: Seq<char>,
    actor: Seq<char>,
    operation_id: Seq<char>,
    plan_id: Seq<char>,
) -> Option<TransactionError> {
    if !transactions.dom().contains(operation_id) {
        Some(TransactionError::NotFound)
    } else {
        let record = transactions[operation_id];
        if record.actor@ != actor || record.root_key@ != root_key || record.plan_id@ != plan_id {
            Some(TransactionError::OtherOperation)
        } else {
            match record.state {
                FileManagerManagedTransactionState::Prepared => None,
                FileManagerManagedTransactionState::Applying => None,
                FileManagerManagedTransactionState::Applied => None,
                FileManagerManagedTransactionState::RollbackRequested => Some(
                    TransactionError::AlreadyRolledBack,
                ),
                FileManagerManagedTransactionState::RolledBack => Some(
                    TransactionError::AlreadyRolledBack,
                ),
                FileManagerManagedTransactionState::CommitRequested => Some(
                    TransactionError::AlreadyCommitted,
                ),
                FileManagerManagedTransactionState::Committed => Some(
                    TransactionError::AlreadyCommitted,
                ),
            }
        }
    }
}

/// Decides whether a transaction's operation starts. It starts once: a repeated
/// request is told about the first one.
pub fn prepare_durable_managed_commit(
    transactions: &Registry<ManagedTransactionRecord>,
    root_key: &str,
    actor: &str,
    operation_id: &str,
    plan_id: &str,
) -> (outcome: Result<DurableCommitDisposition, TransactionError>)
    requires
        transactions.well_formed(),
    ensures
        ({
            let refusal = apply_refusal(
                transactions@,
                root_key@,
                actor@,
                operation_id@,
                plan_id@,
            );
            let record = transactions@[operation_id@];
            match outcome {
                Ok(DurableCommitDisposition::Start(changed)) => refusal is None && record.state
                    == FileManagerManagedTransactionState::Prepared && changed.state
                    == FileManagerManagedTransactionState::Applying && changed.operation_id
                    == record.operation_id && changed.actor == record.actor && changed.root_key
                    == record.root_key && changed.plan_id == record.plan_id && texts(
                    changed.affected_paths@,
                ) == texts(record.affected_paths@) && changed.finalized_at == record.finalized_at,
                Ok(DurableCommitDisposition::Existing(response)) => refusal is None
                    && record.state != FileManagerManagedTransactionState::Prepared
                    && response.operation_id@ == operation_id@ && texts(response.affected_paths@)
                    == texts(record.affected_paths@) && !response.undoable,
                Err(error) => refusal == Some(error),
            }
        }),
{
    let record = match transactions.get(operation_id) {
        None => {
            return Err(TransactionError::NotFound);
        },
        Some(record) => record,
    };
    if !text::same(record.actor.as_str(), actor) || !text::same(
        record.root_key.as_str(),
        root_key,
    ) || !text::same(record.plan_id.as_str(), plan_id) {
        return Err(TransactionError::OtherOperation);
    }
    match record.state {
        FileManagerManagedTransactionState::Prepared => Ok(
            DurableCommitDisposition::Start(
                ManagedTransactionRecord {
                    operation_id: record.operation_id.clone(),
                    actor: record.actor.clone(),
                    root_key: record.root_key.clone(),
                    plan_id: record.plan_id.clone(),
                    state: FileManagerManagedTransactionState::Applying,
                    affected_paths: text::clone_texts(&record.affected_paths),
                    finalized_at: record.finalized_at,
                },
            ),
        ),
        FileManagerManagedTransactionState::Applying
        | FileManagerManagedTransactionState::Applied => Ok(
            DurableCommitDisposition::Existing(
                FileManagerCommitResponse {
                    operation_id: operation_id.to_owned(),
                    affected_paths: text::clone_texts(&record.affected_paths),
                    undoable: false,
                },
            ),
        ),
        FileManagerManagedTransactionState::RollbackRequested
        | FileManagerManagedTransactionState::RolledBack => Err(
            TransactionError::AlreadyRolledBack,
        ),
        FileManagerManagedTransactionState::CommitRequested
        | FileManagerManagedTransactionState::Committed => Err(TransactionError::AlreadyCommitted),
    }
}

/// Whether an operation that is about to change the managed file may still do
/// so.
pub fn ensure_durable_managed_apply_is_current(state: FileManagerManagedTransactionState) -> (current:
    bool)
    ensures
        current == (state == FileManagerManagedTransactionState::Applying),
{
    match state {
        FileManagerManagedTransactionState::Applying => true,
        _ => false,
    }
}

/// The state of a transaction whose operation has ended.
pub open spec fn state_after_apply(
    state: FileManagerManagedTransactionState,
    succeeded: bool,
    rollback_retained: bool,
) -> Result<FileManagerManagedTransactionState, TransactionError> {
    if succeeded {
        match state {
            FileManagerManagedTransactionState::Applying => Ok(
                FileManagerManagedTransactionState::Applied,
            ),
            FileManagerManagedTransactionState::RollbackRequested => Err(
                TransactionError::RollbackRequested,
            ),
            _ => Err(TransactionError::InvalidApplyState),
        }
    } else if rollback_retained {
        Ok(FileManagerManagedTransactionState::RollbackRequested)
    } else {
        Ok(FileManagerManagedTransactionState::RolledBack)
    }
}

/// The record of a transaction whose operation has ended. A failed operation
/// whose rollback failed too, so that its journal is retained, still has to be
/// rolled back.
pub fn finish_durable_managed_apply(
    record: &ManagedTransactionRecord,
    succeeded: bool,
    rollback_retained: bool,
    now: i64,
) -> (outcome: Result<ManagedTransactionRecord, TransactionError>)
    ensures
        match (outcome, state_after_apply(record.state, succeeded, rollback_retained)) {
            (Ok(changed), Ok(state)) => has_state(*record, changed, state, now),
            (Err(a), Err(b)) => a == b,
            _ => false,
        },
{
    let state = if succeeded {
        match record.state {
            FileManagerManagedTransactionState::Applying =>
                FileManagerManagedTransactionState::Applied,
            FileManagerManagedTransactionState::RollbackRequested => {
                return Err(TransactionError::RollbackRequested);
            },
            _ => {
                return Err(TransactionError::InvalidApplyState);
            },
        }
    } else if rollback_retained {
        FileManagerManagedTransactionState::RollbackRequested
    } else {
        FileManagerManagedTransactionState::RolledBack
    };
    Ok(persist_managed_transaction_state(record, state, now))
}

// ---------------------------------------------------------------------------
// Deciding
// ---------------------------------------------------------------------------

/// How a decision begins.
#[derive(Clone, Copy, Debug, PartialEq, Eq, Structural)]
pub enum FinalizeStart {
    /// The transaction was decided this way before.
    Done,
    /// The decision is made durable first, then the journal is dealt with.
    Mark(FileManagerManagedTransactionState),
    /// The decision is durable; the journal is dealt with.
    Retry,
}

/// How a decision about a transaction in the given state begins.
pub open spec fn finalize_start(
    state: FileManagerManagedTransactionState,
    action: FileManagerManagedTransactionFinalizeAction,
) -> Result<FinalizeStart, TransactionError> {
    match action {
        FileManagerManagedTransactionFinalizeAction::Commit => match state {
            FileManagerManagedTransactionState::Committed => Ok(FinalizeStart::Done),
            FileManagerManagedTransactionState::Applied => Ok(
                FinalizeStart::Mark(FileManagerManagedTransactionState::CommitRequested),
            ),
            FileManagerManagedTransactionState::CommitRequested => Ok(FinalizeStart::Retry),
            _ => Err(TransactionError::NotReady),
        },
        FileManagerManagedTransactionFinalizeAction::Rollback => match state {
            FileManagerManagedTransactionState::RolledBack => Ok(FinalizeStart::Done),
            FileManagerManagedTransactionState::CommitRequested => Err(
                TransactionError::AlreadyCommitted,
            ),
            FileManagerManagedTransactionState::Committed => Err(
                TransactionError::AlreadyCommitted,
            ),
            _ => Ok(FinalizeStart::Mark(FileManagerManagedTransactionState::RollbackRequested)),
        },
    }
}

/// Decides how a decision begins, for a transaction whose identity is a UUID or
/// not, as `valid_id` says.
pub fn finalize_identified_transaction(
    valid_id: bool,
    transactions: &Registry<ManagedTransactionRecord>,
    root_key: &str,
    actor: &str,
    operation_id: &str,
    action: FileManagerManagedTransactionFinalizeAction,
) -> (start: Result<FinalizeStart, TransactionError>)
    requires
        transactions.well_formed(),
    ensures
        start == if !valid_id {
            Err(TransactionError::InvalidId)
        } else if !found(transactions@, root_key@, actor@, operation_id@) {
            Err(TransactionError::NotFound)
        } else {
            finalize_start(transactions@[operation_id@].state, action)
        },
{
    if !valid_id {
        return Err(TransactionError::InvalidId);
    }
    let record = match transactions.get(operation_id) {
        None => {
            return Err(TransactionError::NotFound);
        },
        Some(record) => record,
    };
    if !text::same(record.actor.as_str(), actor) || !text::same(
        record.root_key.as_str(),
        root_key,
    ) {
        return Err(TransactionError::NotFound);
    }
    match action {
        FileManagerManagedTransactionFinalizeAction::Commit => match record.state {
            FileManagerManagedTransactionState::Committed => Ok(FinalizeStart::Done),
            FileManagerManagedTransactionState::Applied => Ok(
                FinalizeStart::Mark(FileManagerManagedTransactionState::CommitRequested),
            ),
            FileManagerManagedTransactionState::CommitRequested => Ok(FinalizeStart::Retry),
            _ => Err(TransactionError::NotReady),
        },
        FileManagerManagedTransactionFinalizeAction::Rollback => match record.state {
            FileManagerManagedTransactionState::RolledBack => Ok(FinalizeStart::Done),
            FileManagerManagedTransactionState::CommitRequested
            | FileManagerManagedTransactionState::Committed => Err(
                TransactionError::AlreadyCommitted,
            ),
            _ => Ok(FinalizeStart::Mark(FileManagerManagedTransactionState::RollbackRequested)),
        },
    }
}

/// Decides how a decision about a transaction begins.
pub fn finalize_managed_transaction(
    transactions: &Registry<ManagedTransactionRecord>,
    root_key: &str,
    actor: &str,
    operation_id: &str,
    action: FileManagerManagedTransactionFinalizeAction,
) -> (start: Result<FinalizeStart, TransactionError>)
    requires
        transactions.well_formed(),
    ensures
        start == if outside::uuid_of(operation_id@) is None {
            Err(TransactionError::InvalidId)
        } else if !found(transactions@, root_key@, actor@, operation_id@) {
            Err(TransactionError::NotFound)
        } else {
            finalize_start(transactions@[operation_id@].state, action)
        },
{
    let valid_id = outside::parse_uuid(operation_id).is_some();
    finalize_identified_transaction(valid_id, transactions, root_key, actor, operation_id, action)
}

/// The journal belongs to the transaction.
pub open spec fn journal_matches(
    record: JournalRecord,
    root_key: Seq<char>,
    actor: Seq<char>,
    operation_id: Seq<char>,
) -> bool {
    record.id@ == operation_id && record.actor@ == actor && record.root_key@ == root_key
        && record.managed && record.durable_managed
}

/// Whether the journal belongs to the transaction.
pub fn validate_exact_managed_journal(
    record: &JournalRecord,
    root_key: &str,
    actor: &str,
    operation_id: &str,
) -> (matching: bool)
    ensures
        matching == journal_matches(*record, root_key@, actor@, operation_id@),
{
    text::same(record.id.as_str(), operation_id) && text::same(record.actor.as_str(), actor)
        && text::same(record.root_key.as_str(), root_key) && record.managed
        && record.durable_managed
}

/// What is done with the journal of a transaction that is being decided.
#[derive(Clone, Copy, Debug, PartialEq, Eq, Structural)]
pub enum JournalWork {
    /// There is nothing to do.
    Nothing,
    /// The journal is retired.
    Retire,
    /// The files are put back and the journal is retired. First the files are
    /// compared with what the operation left, if `verify`.
    Restore { verify: bool },
}

/// What is done with the journal of a transaction that is being committed. A
/// journal whose operation has not ended is put back into the history.
pub open spec fn commit_work(
    journal: Option<JournalRecord>,
    retrying: bool,
    root_key: Seq<char>,
    actor: Seq<char>,
    operation_id: Seq<char>,
) -> Result<JournalWork, TransactionError> {
    match journal {
        Some(record) => if !journal_matches(record, root_key, actor, operation_id) {
            Err(TransactionError::JournalMismatch)
        } else if record.recovery || record.transition is Some {
            Err(TransactionError::JournalNotApplied)
        } else {
            Ok(JournalWork::Retire)
        },
        None => if retrying {
            Ok(JournalWork::Nothing)
        } else {
            Err(TransactionError::JournalMissing)
        },
    }
}

/// What is done with the journal of a transaction that is being committed.
pub fn judge_commit_journal(
    journal: &Option<JournalRecord>,
    retrying: bool,
    root_key: &str,
    actor: &str,
    operation_id: &str,
) -> (work: Result<JournalWork, TransactionError>)
    ensures
        work == commit_work(*journal, retrying, root_key@, actor@, operation_id@),
{
    match journal {
        Some(record) => if !validate_exact_managed_journal(
            record,
            root_key,
            actor,
            operation_id,
        ) {
            Err(TransactionError::JournalMismatch)
        } else if record.recovery || record.transition.is_some() {
            Err(TransactionError::JournalNotApplied)
        } else {
            Ok(JournalWork::Retire)
        },
        None => if retrying {
            Ok(JournalWork::Nothing)
        } else {
            Err(TransactionError::JournalMissing)
        },
    }
}

/// What is done with the journal of a transaction that is being rolled back and
/// was in the given state before.
pub open spec fn rollback_work(
    journal: Option<JournalRecord>,
    initial: FileManagerManagedTransactionState,
    root_key: Seq<char>,
    actor: Seq<char>,
    operation_id: Seq<char>,
) -> Result<JournalWork, TransactionError> {
    match journal {
        Some(record) => if !journal_matches(record, root_key, actor, operation_id) {
            Err(TransactionError::JournalMismatch)
        } else {
            Ok(JournalWork::Restore { verify: !record.recovery && record.transition is None })
        },
        None => if initial == FileManagerManagedTransactionState::Applied {
            Err(TransactionError::JournalMissing)
        } else {
            Ok(JournalWork::Nothing)
        },
    }
}

/// What is done with the journal of a transaction that is being rolled back.
pub fn judge_rollback_journal(
    journal: &Option<JournalRecord>,
    initial: FileManagerManagedTransactionState,
    root_key: &str,
    actor: &str,
    operation_id: &str,
) -> (work: Result<JournalWork, TransactionError>)
    ensures
        work == rollback_work(*journal, initial, root_key@, actor@, operation_id@),
{
    match journal {
        Some(record) => if !validate_exact_managed_journal(
            record,
            root_key,
            actor,
            operation_id,
        ) {
            Err(TransactionError::JournalMismatch)
        } else {
            Ok(
                JournalWork::Restore { verify: !record.recovery && record.transition.is_none() },
            )
        },
        None => match initial {
            FileManagerManagedTransactionState::Applied => Err(TransactionError::JournalMissing),
            _ => Ok(JournalWork::Nothing),
        },
    }
}

/// The state that a decision ends in.
pub open spec fn decided_state(action: FileManagerManagedTransactionFinalizeAction) -> FileManagerManagedTransactionState {
    match action {
        FileManagerManagedTransactionFinalizeAction::Commit => FileManagerManagedTransactionState::Committed,
        FileManagerManagedTransactionFinalizeAction::Rollback => FileManagerManagedTransactionState::RolledBack,
    }
}

/// The state that a decision ends in.
pub fn finalized_state(action: FileManagerManagedTransactionFinalizeAction) -> (state:
    FileManagerManagedTransactionState)
    ensures
        state == match action {
            FileManagerManagedTransactionFinalizeAction::Commit => FileManagerManagedTransactionState::Committed,
            FileManagerManagedTransactionFinalizeAction::Rollback => FileManagerManagedTransactionState::RolledBack,
        },
{
    match action {
        FileManagerManagedTransactionFinalizeAction::Commit => FileManagerManagedTransactionState::Committed,
        FileManagerManagedTransactionFinalizeAction::Rollback => FileManagerManagedTransactionState::RolledBack,
    }
}

/// What is done next for a decision.
#[derive(Clone, Copy, Debug, PartialEq, Eq, Structural)]
pub enum FinalizeStage {
    /// Make the record with this state durable: the decision is asked for.
    Mark { state: FileManagerManagedTransactionState },
    /// Take the journal out of the history and judge it.
    Judge,
    /// Deal with the journal.
    Work { work: JournalWork },
    /// Put the journal back into the history. The decision stays asked for.
    PutBack { error: Option<TransactionError> },
    /// Make the record with this state durable: the decision has been carried
    /// out.
    Record { state: FileManagerManagedTransactionState },
    /// The transaction has been decided.
    Decided { state: FileManagerManagedTransactionState },
    /// The journal does not allow the decision.
    Refused { error: TransactionError },
    /// A step failed.
    Failed,
}

/// What came of a step.
#[derive(Clone, Copy, Debug, PartialEq, Eq)]
pub enum FinalizeHappened {
    Succeeded,
    Failed,
    /// The journal has been judged.
    Judged { work: Result<JournalWork, TransactionError> },
}

/// What is done first for a decision.
pub open spec fn first_finalize_stage(
    start: FinalizeStart,
    action: FileManagerManagedTransactionFinalizeAction,
) -> FinalizeStage {
    match start {
        FinalizeStart::Done => FinalizeStage::Decided { state: decided_state(action) },
        FinalizeStart::Mark(state) => FinalizeStage::Mark { state },
        FinalizeStart::Retry => FinalizeStage::Judge,
    }
}

/// What is done first for a decision.
pub fn begin_finalization(
    start: FinalizeStart,
    action: FileManagerManagedTransactionFinalizeAction,
) -> (stage: FinalizeStage)
    ensures
        stage == first_finalize_stage(start, action),
{
    match start {
        FinalizeStart::Done => FinalizeStage::Decided { state: finalized_state(action) },
        FinalizeStart::Mark(state) => FinalizeStage::Mark { state },
        FinalizeStart::Retry => FinalizeStage::Judge,
    }
}

/// What is done after a step of a decision.
pub open spec fn next_finalize_stage(
    stage: FinalizeStage,
    action: FileManagerManagedTransactionFinalizeAction,
    happened: FinalizeHappened,
) -> FinalizeStage {
    let ok = happened == FinalizeHappened::Succeeded;
    match stage {
        FinalizeStage::Mark { state } => if ok {
            FinalizeStage::Judge
        } else {
            FinalizeStage::Failed
        },
        FinalizeStage::Judge => match happened {
            FinalizeHappened::Judged { work: Ok(JournalWork::Nothing) } => FinalizeStage::Record {
                state: decided_state(action),
            },
            FinalizeHappened::Judged { work: Ok(work) } => FinalizeStage::Work { work },
            FinalizeHappened::Judged { work: Err(error) } => if error
                == TransactionError::JournalNotApplied {
                FinalizeStage::PutBack { error: Some(error) }
            } else {
                FinalizeStage::Refused { error }
            },
            _ => FinalizeStage::Failed,
        },
        FinalizeStage::Work { work } => if ok {
            FinalizeStage::Record { state: decided_state(action) }
        } else {
            FinalizeStage::PutBack { error: None }
        },
        FinalizeStage::PutBack { error: Some(error) } => FinalizeStage::Refused { error },
        FinalizeStage::PutBack { error: None } => FinalizeStage::Failed,
        FinalizeStage::Record { state } => if ok {
            FinalizeStage::Decided { state }
        } else {
            FinalizeStage::Failed
        },
        FinalizeStage::Decided { state } => stage,
        FinalizeStage::Refused { error } => stage,
        FinalizeStage::Failed => stage,
    }
}

/// What is done after a step of a decision.
pub fn follow_finalization(
    stage: FinalizeStage,
    action: FileManagerManagedTransactionFinalizeAction,
    happened: FinalizeHappened,
) -> (next: FinalizeStage)
    ensures
        next == next_finalize_stage(stage, action, happened),
{
    let ok = match happened {
        FinalizeHappened::Succeeded => true,
        _ => false,
    };
    match stage {
        FinalizeStage::Mark { state: _ } => if ok {
            FinalizeStage::Judge
        } else {
            FinalizeStage::Failed
        },
        FinalizeStage::Judge => match happened {
            FinalizeHappened::Judged { work: Ok(JournalWork::Nothing) } => FinalizeStage::Record {
                state: finalized_state(action),
            },
            FinalizeHappened::Judged { work: Ok(work) } => FinalizeStage::Work { work },
            FinalizeHappened::Judged { work: Err(error) } => match error {
                TransactionError::JournalNotApplied => FinalizeStage::PutBack { error: Some(error) },
                _ => FinalizeStage::Refused { error },
            },
            _ => FinalizeStage::Failed,
        },
        FinalizeStage::Work { work: _ } => if ok {
            FinalizeStage::Record { state: finalized_state(action) }
        } else {
            FinalizeStage::PutBack { error: None }
        },
        FinalizeStage::PutBack { error: Some(error) } => FinalizeStage::Refused { error },
        FinalizeStage::PutBack { error: None } => FinalizeStage::Failed,
        FinalizeStage::Record { state } => if ok {
            FinalizeStage::Decided { state }
        } else {
            FinalizeStage::Failed
        },
        _ => stage,
    }
}

/// The state that a stage makes durable, if it makes one durable.
pub open spec fn written_state(stage: FinalizeStage) -> Option<FileManagerManagedTransactionState> {
    match stage {
        FinalizeStage::Mark { state } => Some(state),
        FinalizeStage::Record { state } => Some(state),
        _ => None,
    }
}

/// The record that a stage makes durable, if it makes one durable.
pub fn finalized_record(stage: FinalizeStage, record: &ManagedTransactionRecord, now: i64) -> (written:
    Option<ManagedTransactionRecord>)
    ensures
        match written {
            Some(changed) => written_state(stage) is Some && has_state(
                *record,
                changed,
                written_state(stage)->Some_0,
                now,
            ),
            None => written_state(stage) is None,
        },
{
    match stage {
        FinalizeStage::Mark { state } => Some(
            persist_managed_transaction_state(record, state, now),
        ),
        FinalizeStage::Record { state } => Some(
            persist_managed_transaction_state(record, state, now),
        ),
        _ => None,
    }
}

// ---------------------------------------------------------------------------
// Laws
// ---------------------------------------------------------------------------

/// A decision under way: what is done next, and the state that is durable.
pub struct FinalizeRun {
    pub stage: FinalizeStage,
    pub state: FileManagerManagedTransactionState,
}

/// The decision after what came of its steps. A state is durable once the stage
/// that writes it has succeeded.
pub open spec fn finalize_run(
    start: FinalizeStart,
    initial: FileManagerManagedTransactionState,
    action: FileManagerManagedTransactionFinalizeAction,
    events: Seq<FinalizeHappened>,
) -> FinalizeRun
    decreases events.len(),
{
    if events.len() == 0 {
        FinalizeRun { stage: first_finalize_stage(start, action), state: initial }
    } else {
        let before = finalize_run(start, initial, action, events.drop_last());
        FinalizeRun {
            stage: next_finalize_stage(before.stage, action, events.last()),
            state: if written_state(before.stage) is Some && events.last()
                == FinalizeHappened::Succeeded {
                written_state(before.stage)->Some_0
            } else {
                before.state
            },
        }
    }
}

/// The state that a decision leaves while it has not been carried out.
pub open spec fn requested_state(action: FileManagerManagedTransactionFinalizeAction) -> FileManagerManagedTransactionState {
    match action {
        FileManagerManagedTransactionFinalizeAction::Commit => FileManagerManagedTransactionState::CommitRequested,
        FileManagerManagedTransactionFinalizeAction::Rollback => FileManagerManagedTransactionState::RollbackRequested,
    }
}

/// A decision that succeeds ends in its own state, a commit as committed and a
/// rollback as rolled back, and that state is durable. One that is refused or
/// fails, also because the journal could not be retired or the files could not be
/// put back, leaves the state as it was or the decision asked for.
pub proof fn decisions_end_as_asked(
    initial: FileManagerManagedTransactionState,
    action: FileManagerManagedTransactionFinalizeAction,
    events: Seq<FinalizeHappened>,
)
    requires
        finalize_start(initial, action) is Ok,
    ensures
        ({
            let run = finalize_run(finalize_start(initial, action)->Ok_0, initial, action, events);
            &&& run.stage matches FinalizeStage::Decided { state } ==> state == decided_state(action)
                && run.state == decided_state(action)
            &&& !(run.stage is Decided) ==> run.state == initial || run.state == requested_state(
                action,
            )
            &&& initial == decided_state(action) ==> run.stage is Decided && run.state == initial
            &&& run.stage matches FinalizeStage::Mark { state } ==> state == requested_state(action)
            &&& run.stage matches FinalizeStage::Record { state } ==> state == decided_state(action)
        }),
    decreases events.len(),
{
    if events.len() > 0 {
        decisions_end_as_asked(initial, action, events.drop_last());
    }
}

/// How far a stage lies along the course of a decision.
pub open spec fn finalize_rank(stage: FinalizeStage) -> nat {
    match stage {
        FinalizeStage::Mark { .. } => 0,
        FinalizeStage::Judge => 1,
        FinalizeStage::Work { .. } => 2,
        FinalizeStage::PutBack { .. } => 3,
        FinalizeStage::Record { .. } => 4,
        _ => 5,
    }
}

/// Every decision comes to an end, and a journal that was not dealt with goes back
/// into the history.
pub proof fn decisions_end(
    stage: FinalizeStage,
    action: FileManagerManagedTransactionFinalizeAction,
    happened: FinalizeHappened,
)
    requires
        finalize_rank(stage) < 5,
    ensures
        finalize_rank(next_finalize_stage(stage, action, happened)) > finalize_rank(stage),
        stage is Work && happened != FinalizeHappened::Succeeded ==> next_finalize_stage(
            stage,
            action,
            happened,
        ) is PutBack,
{
}

/// A decision is final: once a commit has begun, no rollback is started, and
/// once a rollback has begun, no commit is.
pub proof fn transaction_decisions_exclude_each_other(state: FileManagerManagedTransactionState)
    ensures
        state == FileManagerManagedTransactionState::CommitRequested || state
            == FileManagerManagedTransactionState::Committed ==> finalize_start(
            state,
            FileManagerManagedTransactionFinalizeAction::Rollback,
        ) is Err,
        state == FileManagerManagedTransactionState::RollbackRequested || state
            == FileManagerManagedTransactionState::RolledBack ==> finalize_start(
            state,
            FileManagerManagedTransactionFinalizeAction::Commit,
        ) is Err,
{
}

/// Deciding a decided transaction the same way again does nothing, and an
/// unfinished decision can be taken up again.
pub proof fn transaction_decisions_can_be_repeated()
    ensures
        finalize_start(
            FileManagerManagedTransactionState::Committed,
            FileManagerManagedTransactionFinalizeAction::Commit,
        ) == Ok::<FinalizeStart, TransactionError>(FinalizeStart::Done),
        finalize_start(
            FileManagerManagedTransactionState::RolledBack,
            FileManagerManagedTransactionFinalizeAction::Rollback,
        ) == Ok::<FinalizeStart, TransactionError>(FinalizeStart::Done),
        finalize_start(
            FileManagerManagedTransactionState::CommitRequested,
            FileManagerManagedTransactionFinalizeAction::Commit,
        ) == Ok::<FinalizeStart, TransactionError>(FinalizeStart::Retry),
        finalize_start(
            FileManagerManagedTransactionState::RollbackRequested,
            FileManagerManagedTransactionFinalizeAction::Rollback,
        ) is Ok,
{
}

/// Only what has been applied is committed.
pub proof fn only_applied_saves_are_committed(state: FileManagerManagedTransactionState)
    ensures
        finalize_start(state, FileManagerManagedTransactionFinalizeAction::Commit) is Ok ==> state
            == FileManagerManagedTransactionState::Applied || state
            == FileManagerManagedTransactionState::CommitRequested || state
            == FileManagerManagedTransactionState::Committed,
{
}

/// A root has at most one open transaction.
pub open spec fn one_open_per_root(transactions: Map<Seq<char>, ManagedTransactionRecord>) -> bool {
    forall|a: Seq<char>, b: Seq<char>|
        #![trigger transactions.dom().contains(a), transactions.dom().contains(b)]
        transactions.dom().contains(a) && transactions.dom().contains(b) && is_open(
            transactions[a].state,
        ) && is_open(transactions[b].state) && transactions[a].root_key@
            == transactions[b].root_key@ ==> a == b
}

/// A root keeps having at most one open transaction when a new one begins.
pub proof fn beginning_keeps_one_open_per_root(
    transactions: Map<Seq<char>, ManagedTransactionRecord>,
    plans: Map<Seq<char>, OperationPlan>,
    root: ResolvedRoot,
    actor: Seq<char>,
    operation_id: Seq<char>,
    plan_id: Seq<char>,
    named: Seq<Seq<char>>,
    now: i64,
    record: ManagedTransactionRecord,
)
    requires
        one_open_per_root(transactions),
        begin_refusal(true, transactions, plans, root, actor, operation_id, plan_id, now) is None,
        begins_as(
            Beginning::New(record),
            transactions,
            plans,
            root,
            actor,
            operation_id,
            plan_id,
            named,
        ),
    ensures
        one_open_per_root(transactions.insert(operation_id, record)),
{
    let after = transactions.insert(operation_id, record);
    assert forall|a: Seq<char>, b: Seq<char>|
        #![trigger after.dom().contains(a), after.dom().contains(b)]
        after.dom().contains(a) && after.dom().contains(b) && is_open(after[a].state) && is_open(
            after[b].state,
        ) && after[a].root_key@ == after[b].root_key@ implies a == b by {
        if a != operation_id {
            assert(transactions.dom().contains(a));
        }
        if b != operation_id {
            assert(transactions.dom().contains(b));
        }
    }
}

/// A root keeps having at most one open transaction when a transaction changes
/// its state, unless a decided one were opened again.
pub proof fn changing_states_keeps_one_open_per_root(
    transactions: Map<Seq<char>, ManagedTransactionRecord>,
    operation_id: Seq<char>,
    record: ManagedTransactionRecord,
    now: i64,
)
    requires
        one_open_per_root(transactions),
        transactions.dom().contains(operation_id),
        has_state(transactions[operation_id], record, record.state, now),
        is_open(record.state) ==> is_open(transactions[operation_id].state),
    ensures
        one_open_per_root(transactions.insert(operation_id, record)),
{
    let after = transactions.insert(operation_id, record);
    assert forall|a: Seq<char>, b: Seq<char>|
        #![trigger after.dom().contains(a), after.dom().contains(b)]
        after.dom().contains(a) && after.dom().contains(b) && is_open(after[a].state) && is_open(
            after[b].state,
        ) && after[a].root_key@ == after[b].root_key@ implies a == b by {
        assert(transactions.dom().contains(a));
        assert(transactions.dom().contains(b));
    }
}

/// A save begins only on a writable root with a managed file, under an own plan of
/// that root that has not expired and writes the file. It is a new one only while no
/// other is open on the root, and an existing one only with the same plan.
pub proof fn saves_begin_under_their_own_plan(
    valid_id: bool,
    transactions: Map<Seq<char>, ManagedTransactionRecord>,
    plans: Map<Seq<char>, OperationPlan>,
    root: ResolvedRoot,
    actor: Seq<char>,
    operation_id: Seq<char>,
    plan_id: Seq<char>,
    now: i64,
)
    ensures
        begin_refusal(valid_id, transactions, plans, root, actor, operation_id, plan_id, now)
            is None <==> {
            &&& valid_id
            &&& !root.read_only
            &&& root.managed_file is Some
            &&& plans.dom().contains(plan_id)
            &&& plans[plan_id].actor@ == actor
            &&& plans[plan_id].root_key@ == root.key@
            &&& plans[plan_id].expires_at >= now
            &&& operation::edits_managed_file(root, plans[plan_id].operation)
            &&& transactions.dom().contains(operation_id) ==> {
                &&& transactions[operation_id].actor@ == actor
                &&& transactions[operation_id].root_key@ == root.key@
                &&& transactions[operation_id].plan_id@ == plan_id
            }
            &&& !transactions.dom().contains(operation_id) ==> forall|other: Seq<char>| #[trigger]
                transactions.dom().contains(other) && transactions[other].root_key@ == root.key@
                    ==> transactions[other].state == FileManagerManagedTransactionState::RolledBack
                    || transactions[other].state == FileManagerManagedTransactionState::Committed
        },
{
    if !transactions.dom().contains(operation_id) {
        if root_is_busy(transactions, root.key@) {
            let id = choose|id: Seq<char>| #[trigger]
                transactions.dom().contains(id) && transactions[id].root_key@ == root.key@
                    && is_open(transactions[id].state);
            assert(transactions.dom().contains(id));
        }
    }
}

/// A save is applied once: only a prepared one starts, and one that is being applied
/// or has been applied is told again. A decided one is not applied any more.
pub proof fn saves_are_applied_once(
    transactions: Map<Seq<char>, ManagedTransactionRecord>,
    root_key: Seq<char>,
    actor: Seq<char>,
    operation_id: Seq<char>,
    plan_id: Seq<char>,
)
    ensures
        apply_refusal(transactions, root_key, actor, operation_id, plan_id) is None <==> {
            &&& transactions.dom().contains(operation_id)
            &&& transactions[operation_id].actor@ == actor
            &&& transactions[operation_id].root_key@ == root_key
            &&& transactions[operation_id].plan_id@ == plan_id
            &&& finalize_start(
                transactions[operation_id].state,
                FileManagerManagedTransactionFinalizeAction::Rollback,
            ) matches Ok(FinalizeStart::Mark(_))
            &&& transactions[operation_id].state
                != FileManagerManagedTransactionState::RollbackRequested
        },
{
}

/// A save that was applied is recorded as applied only if nobody asked to roll it
/// back meanwhile. One that failed is rolled back, at once or, where its journal was
/// retained, later.
pub proof fn applying_ends_applied_or_rolled_back(
    state: FileManagerManagedTransactionState,
    well: bool,
    rollback_retained: bool,
)
    ensures
        state_after_apply(state, well, rollback_retained) == Ok::<
            FileManagerManagedTransactionState,
            TransactionError,
        >(FileManagerManagedTransactionState::Applied) <==> well && state
            == FileManagerManagedTransactionState::Applying,
        well && state == FileManagerManagedTransactionState::RollbackRequested
            ==> state_after_apply(state, well, rollback_retained) == Err::<
            FileManagerManagedTransactionState,
            TransactionError,
        >(TransactionError::RollbackRequested),
        state_after_apply(state, well, rollback_retained) == Ok::<
            FileManagerManagedTransactionState,
            TransactionError,
        >(FileManagerManagedTransactionState::RolledBack) <==> !well && !rollback_retained,
        state_after_apply(state, well, rollback_retained) == Ok::<
            FileManagerManagedTransactionState,
            TransactionError,
        >(FileManagerManagedTransactionState::RollbackRequested) <==> !well && rollback_retained,
{
}

/// A commit keeps the files and a rollback puts them back, each only with the
/// journal of that very save. An applied save is not rolled back without its
/// journal, nor committed the first time; what the save left is compared before it
/// is put back, unless the journal was already being played back.
pub proof fn journals_are_dealt_with_as_decided(
    journal: Option<JournalRecord>,
    retrying: bool,
    initial: FileManagerManagedTransactionState,
    root_key: Seq<char>,
    actor: Seq<char>,
    operation_id: Seq<char>,
)
    ensures
        commit_work(journal, retrying, root_key, actor, operation_id) matches Ok(work)
            ==> !(work is Restore) && (work is Retire <==> journal is Some),
        rollback_work(journal, initial, root_key, actor, operation_id) matches Ok(work) ==> (
        work is Restore <==> journal is Some) && !(work is Retire),
        rollback_work(journal, initial, root_key, actor, operation_id) matches Ok(
            JournalWork::Restore { verify },
        ) ==> verify == (!journal->Some_0.recovery && journal->Some_0.transition is None),
        journal matches Some(record) ==> {
            let own = record.id@ == operation_id && record.actor@ == actor && record.root_key@
                == root_key && record.managed && record.durable_managed;
            &&& commit_work(journal, retrying, root_key, actor, operation_id) is Ok ==> own
                && !record.recovery && record.transition is None
            &&& own && !record.recovery && record.transition is None ==> commit_work(
                journal,
                retrying,
                root_key,
                actor,
                operation_id,
            ) is Ok
            &&& rollback_work(journal, initial, root_key, actor, operation_id) is Ok <==> own
        },
        journal is None ==> {
            &&& commit_work(journal, retrying, root_key, actor, operation_id) is Ok <==> retrying
            &&& rollback_work(journal, initial, root_key, actor, operation_id) is Ok <==> initial
                != FileManagerManagedTransactionState::Applied
        },
{
}

/// The journal allowed the decision, and what it asked for has been done, with these
/// events.
#[verifier::opaque]
pub open spec fn journal_was_dealt_with(
    start: FinalizeStart,
    initial: FileManagerManagedTransactionState,
    action: FileManagerManagedTransactionFinalizeAction,
    events: Seq<FinalizeHappened>,
) -> bool {
    exists|i: int|
        {
            let stage = finalize_run(start, initial, action, #[trigger] events.take(i)).stage;
            &&& 0 <= i < events.len()
            &&& {
                ||| stage is Work && events[i] == FinalizeHappened::Succeeded
                ||| stage is Judge && events[i] == (FinalizeHappened::Judged {
                    work: Ok(JournalWork::Nothing),
                })
            }
        }
}

proof fn lemma_dealt_with(
    start: FinalizeStart,
    initial: FileManagerManagedTransactionState,
    action: FileManagerManagedTransactionFinalizeAction,
    events: Seq<FinalizeHappened>,
)
    requires
        events.len() > 0,
    ensures
        journal_was_dealt_with(start, initial, action, events.drop_last())
            ==> journal_was_dealt_with(start, initial, action, events),
        ({
            let stage = finalize_run(start, initial, action, events.drop_last()).stage;
            ||| stage is Work && events.last() == FinalizeHappened::Succeeded
            ||| stage is Judge && events.last() == (FinalizeHappened::Judged {
                work: Ok(JournalWork::Nothing),
            })
        }) ==> journal_was_dealt_with(start, initial, action, events),
{
    reveal(journal_was_dealt_with);
    let before = events.drop_last();
    let last = events.len() - 1;
    assert(events.take(last) =~= before);
    if journal_was_dealt_with(start, initial, action, before) {
        let i = choose|i: int|
            {
                let stage = finalize_run(start, initial, action, #[trigger] before.take(i)).stage;
                &&& 0 <= i < before.len()
                &&& {
                    ||| stage is Work && before[i] == FinalizeHappened::Succeeded
                    ||| stage is Judge && before[i] == (FinalizeHappened::Judged {
                        work: Ok(JournalWork::Nothing),
                    })
                }
            };
        assert(events.take(i) =~= before.take(i));
        assert(events[i] == before[i]);
    }
}

/// A save counts as decided only after its journal was dealt with as it was judged,
/// and only the work that the journal was judged to need is done.
pub proof fn decisions_follow_the_journal(
    initial: FileManagerManagedTransactionState,
    action: FileManagerManagedTransactionFinalizeAction,
    events: Seq<FinalizeHappened>,
)
    requires
        finalize_start(initial, action) is Ok,
        initial != decided_state(action),
    ensures
        ({
            let start = finalize_start(initial, action)->Ok_0;
            let stage = finalize_run(start, initial, action, events).stage;
            &&& stage is Decided || stage is Record ==> journal_was_dealt_with(
                start,
                initial,
                action,
                events,
            )
            &&& stage matches FinalizeStage::Work { work } ==> events.len() > 0 && events.last()
                == (FinalizeHappened::Judged { work: Ok(work) })
        }),
    decreases events.len(),
{
    let start = finalize_start(initial, action)->Ok_0;
    if events.len() > 0 {
        decisions_follow_the_journal(initial, action, events.drop_last());
        lemma_dealt_with(start, initial, action, events);
    }
}

/// A decision that nothing goes wrong with is carried out: it is marked, the journal
/// is judged and dealt with, and the outcome is recorded.
pub proof fn undisturbed_decisions_are_carried_out(
    action: FileManagerManagedTransactionFinalizeAction,
    work: JournalWork,
)
    requires
        work != JournalWork::Nothing,
    ensures
        ({
            let ok = FinalizeHappened::Succeeded;
            let judged = FinalizeHappened::Judged { work: Ok(work) };
            let applied = FileManagerManagedTransactionState::Applied;
            let run = finalize_run(
                finalize_start(applied, action)->Ok_0,
                applied,
                action,
                seq![ok, judged, ok, ok],
            );
            &&& finalize_start(applied, action) is Ok
            &&& run.stage == (FinalizeStage::Decided { state: run.state })
            &&& action == FileManagerManagedTransactionFinalizeAction::Commit ==> run.state
                == FileManagerManagedTransactionState::Committed
            &&& action == FileManagerManagedTransactionFinalizeAction::Rollback ==> run.state
                == FileManagerManagedTransactionState::RolledBack
        }),
{
    let ok = FinalizeHappened::Succeeded;
    let judged: FinalizeHappened = FinalizeHappened::Judged { work: Ok(work) };
    let all = seq![ok, judged, ok, ok];
    reveal_with_fuel(finalize_run, 5);
    assert(all.drop_last() =~= seq![ok, judged, ok]);
    assert(all.drop_last().drop_last() =~= seq![ok, judged]);
    assert(all.drop_last().drop_last().drop_last() =~= seq![ok]);
    assert(all.drop_last().drop_last().drop_last().drop_last() =~= Seq::empty());
}

/// Only a decided save is forgotten, a month after it was decided.
pub proof fn decided_saves_are_kept_for_a_month(record: ManagedTransactionRecord, now: i64)
    ensures
        is_prunable(record, now) ==> {
            &&& record.state == FileManagerManagedTransactionState::Committed || record.state
                == FileManagerManagedTransactionState::RolledBack
            &&& record.finalized_at is Some
            &&& now - record.finalized_at->Some_0 > 30 * 24 * 60 * 60 * 1000
        },
        (record.state == FileManagerManagedTransactionState::Committed || record.state
            == FileManagerManagedTransactionState::RolledBack) && record.finalized_at is Some && now
            - record.finalized_at->Some_0 > 30 * 24 * 60 * 60 * 1000 ==> is_prunable(record, now),
{
}

} // verus!
