//! The progress of operations, and what callers may ask and decide while they
//! run.

use vstd::prelude::*;

use crate::file_manager::conflict::FileManagerConflict;
use crate::file_manager::conflict::FileManagerConflictAction;
use crate::file_manager::journal::JOURNAL_TTL_MS;
use crate::file_manager::limits;
use crate::file_manager::limits::WorkTotal;
use crate::registry::Expires;
use crate::registry::Registry;
use crate::text;

verus! {

/// The state of an operation.
#[derive(Clone, Copy, Debug, PartialEq, Eq, Structural)]
pub enum FileManagerOperationState {
    Pending,
    Running,
    WaitingForInput,
    Complete,
    Failed,
    Cancelled,
}

/// What an operation is doing.
#[derive(Clone, Copy, Debug, PartialEq, Eq, Structural)]
pub enum FileManagerOperationPhase {
    Queued,
    Preparing,
    Snapshotting,
    Applying,
    Transferring,
    Finalizing,
    RollingBack,
}

/// A conflict that waits for a decision.
#[derive(Clone, Debug, PartialEq, Eq)]
pub struct FileManagerPendingConflict {
    pub decision_id: String,
    pub conflict: FileManagerConflict,
}

/// What callers are told about an operation.
#[derive(Clone, Debug, PartialEq, Eq)]
pub struct FileManagerOperationStatus {
    pub operation_id: String,
    pub state: FileManagerOperationState,
    pub phase: FileManagerOperationPhase,
    pub description: String,
    pub started_at: i64,
    pub updated_at: i64,
    pub phase_started_at: i64,
    pub cancellable: bool,
    pub completed_entries: u64,
    pub total_entries: u64,
    pub completed_bytes: u64,
    pub total_bytes: u64,
    pub error: Option<String>,
    pub pending_conflict: Option<FileManagerPendingConflict>,
    pub temporary_storage_bytes: u64,
}

/// A decision about a conflict that came up.
#[derive(Clone, Copy, Debug, PartialEq, Eq, Structural)]
pub struct ConflictResolution {
    pub action: FileManagerConflictAction,
    pub apply_to_all: bool,
}

/// A decision that has arrived and has not been used.
#[derive(Clone, Debug, PartialEq, Eq)]
pub struct ArrivedDecision {
    pub decision_id: String,
    pub resolution: ConflictResolution,
}

/// The progress of an operation.
#[derive(Clone, Debug, PartialEq, Eq)]
pub struct OperationProgress {
    pub status: FileManagerOperationStatus,
    pub cancelled: bool,
    pub decisions: Vec<ArrivedDecision>,
}

/// The operation has ended.
pub open spec fn is_over(state: FileManagerOperationState) -> bool {
    state == FileManagerOperationState::Complete || state == FileManagerOperationState::Failed
        || state == FileManagerOperationState::Cancelled
}

/// Whether the operation has ended.
pub fn has_finished(state: FileManagerOperationState) -> (over: bool)
    ensures
        over == is_over(state),
{
    match state {
        FileManagerOperationState::Complete => true,
        FileManagerOperationState::Failed => true,
        FileManagerOperationState::Cancelled => true,
        _ => false,
    }
}

/// A count raised by `more`, no further than a known total.
pub open spec fn raised(count: u64, more: u64, total: u64) -> u64 {
    let sum = limits::saturating_sum(count, more);
    if total != 0 && sum > total {
        total
    } else {
        sum
    }
}

fn raise(count: u64, more: u64, total: u64) -> (sum: u64)
    ensures
        sum == raised(count, more, total),
{
    let sum: u64 = count.saturating_add(more);
    if total != 0 && sum > total {
        total
    } else {
        sum
    }
}

/// The progress of an operation that has failed; one that was to be cancelled
/// has been.
pub open spec fn after_failure(progress: OperationProgress, error: String, now: i64) -> OperationProgress {
    OperationProgress {
        status: FileManagerOperationStatus {
            state: if progress.cancelled {
                FileManagerOperationState::Cancelled
            } else {
                FileManagerOperationState::Failed
            },
            error: Some(error),
            cancellable: false,
            pending_conflict: None,
            temporary_storage_bytes: 0,
            updated_at: now,
            ..progress.status
        },
        ..progress
    }
}

/// What is told about an operation that has been asked for.
pub open spec fn asked_status(operation_id: String, description: String, now: i64) -> FileManagerOperationStatus {
    FileManagerOperationStatus {
        operation_id,
        state: FileManagerOperationState::Pending,
        phase: FileManagerOperationPhase::Queued,
        description,
        started_at: now,
        updated_at: now,
        phase_started_at: now,
        cancellable: true,
        completed_entries: 0,
        total_entries: 0,
        completed_bytes: 0,
        total_bytes: 0,
        error: None,
        pending_conflict: None,
        temporary_storage_bytes: 0,
    }
}

/// What is told about an operation once it is to be cancelled.
pub open spec fn cancelling_status(
    status: FileManagerOperationStatus,
    description: String,
    now: i64,
) -> FileManagerOperationStatus {
    FileManagerOperationStatus { cancellable: false, updated_at: now, description, ..status }
}

impl OperationProgress {
    /// No more is counted as done than there is to do, where that is known.
    pub open spec fn within_totals(self) -> bool {
        &&& self.status.total_entries != 0 ==> self.status.completed_entries
            <= self.status.total_entries
        &&& self.status.total_bytes != 0 ==> self.status.completed_bytes <= self.status.total_bytes
    }

    /// The progress of an operation that has been asked for.
    pub fn new(operation_id: String, description: String, now: i64) -> (progress: OperationProgress)
        ensures
            progress.within_totals(),
            !progress.cancelled,
            progress.decisions@.len() == 0,
            progress.status == asked_status(operation_id, description, now),
    {
        OperationProgress {
            status: FileManagerOperationStatus {
                operation_id,
                state: FileManagerOperationState::Pending,
                phase: FileManagerOperationPhase::Queued,
                description,
                started_at: now,
                updated_at: now,
                phase_started_at: now,
                cancellable: true,
                completed_entries: 0,
                total_entries: 0,
                completed_bytes: 0,
                total_bytes: 0,
                error: None,
                pending_conflict: None,
                temporary_storage_bytes: 0,
            },
            cancelled: false,
            decisions: Vec::new(),
        }
    }

    /// What callers are told about the operation.
    pub fn snapshot(&self) -> (status: FileManagerOperationStatus)
        ensures
            status == self.status,
    {
        FileManagerOperationStatus {
            operation_id: self.status.operation_id.clone(),
            state: self.status.state,
            phase: self.status.phase,
            description: self.status.description.clone(),
            started_at: self.status.started_at,
            updated_at: self.status.updated_at,
            phase_started_at: self.status.phase_started_at,
            cancellable: self.status.cancellable,
            completed_entries: self.status.completed_entries,
            total_entries: self.status.total_entries,
            completed_bytes: self.status.completed_bytes,
            total_bytes: self.status.total_bytes,
            error: match &self.status.error {
                Some(error) => Some(error.clone()),
                None => None,
            },
            pending_conflict: match &self.status.pending_conflict {
                Some(pending) => Some(
                    FileManagerPendingConflict {
                        decision_id: pending.decision_id.clone(),
                        conflict: FileManagerConflict {
                            path: pending.conflict.path.clone(),
                            existing_kind: pending.conflict.existing_kind,
                            incoming_kind: pending.conflict.incoming_kind,
                        },
                    },
                ),
                None => None,
            },
            temporary_storage_bytes: self.status.temporary_storage_bytes,
        }
    }

    /// A phase begins, with the work that it takes.
    pub fn phase(&mut self, phase: FileManagerOperationPhase, total: WorkTotal, now: i64)
        ensures
            final(self).within_totals(),
            *final(self) == (OperationProgress {
                status: FileManagerOperationStatus {
                    state: FileManagerOperationState::Running,
                    phase,
                    updated_at: now,
                    phase_started_at: now,
                    pending_conflict: None,
                    completed_entries: 0,
                    total_entries: total.entries,
                    completed_bytes: 0,
                    total_bytes: total.bytes,
                    ..old(self).status
                },
                ..*old(self)
            }),
    {
        self.status.state = FileManagerOperationState::Running;
        self.status.phase = phase;
        self.status.updated_at = now;
        self.status.phase_started_at = now;
        self.status.pending_conflict = None;
        self.status.completed_entries = 0;
        self.status.total_entries = total.entries;
        self.status.completed_bytes = 0;
        self.status.total_bytes = total.bytes;
    }

    /// An entry has been dealt with.
    pub fn add_entry(&mut self, now: i64)
        ensures
            old(self).within_totals() ==> final(self).within_totals(),
            *final(self) == (OperationProgress {
                status: FileManagerOperationStatus {
                    completed_entries: raised(
                        old(self).status.completed_entries,
                        1,
                        old(self).status.total_entries,
                    ),
                    updated_at: now,
                    ..old(self).status
                },
                ..*old(self)
            }),
    {
        self.status.completed_entries = raise(
            self.status.completed_entries,
            1,
            self.status.total_entries,
        );
        self.status.updated_at = now;
    }

    /// Bytes have been dealt with.
    pub fn add_bytes(&mut self, bytes: u64, now: i64)
        ensures
            old(self).within_totals() ==> final(self).within_totals(),
            *final(self) == (OperationProgress {
                status: FileManagerOperationStatus {
                    completed_bytes: raised(
                        old(self).status.completed_bytes,
                        bytes,
                        old(self).status.total_bytes,
                    ),
                    updated_at: now,
                    ..old(self).status
                },
                ..*old(self)
            }),
    {
        self.status.completed_bytes = raise(
            self.status.completed_bytes,
            bytes,
            self.status.total_bytes,
        );
        self.status.updated_at = now;
    }

    /// Whether the operation may go on.
    pub fn check_cancelled(&self) -> (goes_on: bool)
        ensures
            goes_on == !self.cancelled,
    {
        !self.cancelled
    }

    /// The operation is to be cancelled.
    pub fn request_cancel(&mut self, now: i64)
        ensures
            final(self).cancelled,
            final(self).decisions == old(self).decisions,
            final(self).status.description@ == "Cancelling file operation"@,
            final(self).status == cancelling_status(
                old(self).status,
                final(self).status.description,
                now,
            ),
    {
        self.cancelled = true;
        self.status.cancellable = false;
        self.status.updated_at = now;
        self.status.description = "Cancelling file operation".to_owned();
    }

    /// The operation keeps more bytes until it ends.
    pub fn add_temporary_storage_bytes(&mut self, bytes: u64, now: i64)
        ensures
            *final(self) == (OperationProgress {
                status: FileManagerOperationStatus {
                    temporary_storage_bytes: limits::saturating_sum(
                        old(self).status.temporary_storage_bytes,
                        bytes,
                    ),
                    updated_at: now,
                    ..old(self).status
                },
                ..*old(self)
            }),
    {
        self.status.temporary_storage_bytes = self.status.temporary_storage_bytes.saturating_add(
            bytes,
        );
        self.status.updated_at = now;
    }

    /// The operation waits for a decision about a conflict.
    pub fn ask_about_conflict(
        &mut self,
        decision_id: String,
        conflict: FileManagerConflict,
        now: i64,
    )
        ensures
            *final(self) == (OperationProgress {
                status: FileManagerOperationStatus {
                    state: FileManagerOperationState::WaitingForInput,
                    pending_conflict: Some(FileManagerPendingConflict { decision_id, conflict }),
                    updated_at: now,
                    ..old(self).status
                },
                ..*old(self)
            }),
    {
        self.status.state = FileManagerOperationState::WaitingForInput;
        self.status.pending_conflict = Some(FileManagerPendingConflict { decision_id, conflict });
        self.status.updated_at = now;
    }

    /// Takes the decision with the given identity, if it has arrived: the
    /// operation goes on.
    pub fn take_decision(&mut self, decision_id: &str, now: i64) -> (resolution: Option<
        ConflictResolution,
    >)
        ensures
            match (resolution, first_decision(old(self).decisions@, decision_id@)) {
                (Some(taken), Some(i)) => {
                    &&& 0 <= i < old(self).decisions@.len()
                    &&& taken == old(self).decisions@[i].resolution
                    &&& final(self).decisions@ == old(self).decisions@.remove(i)
                    &&& final(self).cancelled == old(self).cancelled
                    &&& final(self).status == (FileManagerOperationStatus {
                        state: FileManagerOperationState::Running,
                        pending_conflict: None,
                        updated_at: now,
                        ..old(self).status
                    })
                },
                (None, None) => *final(self) == *old(self),
                _ => false,
            },
    {
        match position_of(&self.decisions, decision_id) {
            None => None,
            Some(i) => {
                let decision = self.decisions.remove(i);
                self.status.state = FileManagerOperationState::Running;
                self.status.pending_conflict = None;
                self.status.updated_at = now;
                Some(decision.resolution)
            },
        }
    }

    /// The operation has been carried out.
    pub fn complete(&mut self, now: i64)
        ensures
            final(self).within_totals(),
            *final(self) == (OperationProgress {
                status: FileManagerOperationStatus {
                    state: FileManagerOperationState::Complete,
                    phase: FileManagerOperationPhase::Finalizing,
                    completed_entries: old(self).status.total_entries,
                    completed_bytes: old(self).status.total_bytes,
                    error: None,
                    cancellable: false,
                    pending_conflict: None,
                    temporary_storage_bytes: 0,
                    updated_at: now,
                    ..old(self).status
                },
                ..*old(self)
            }),
    {
        self.status.state = FileManagerOperationState::Complete;
        self.status.phase = FileManagerOperationPhase::Finalizing;
        self.status.completed_entries = self.status.total_entries;
        self.status.completed_bytes = self.status.total_bytes;
        self.status.error = None;
        self.status.cancellable = false;
        self.status.pending_conflict = None;
        self.status.temporary_storage_bytes = 0;
        self.status.updated_at = now;
    }

    /// The operation failed; if it was to be cancelled, it has been.
    pub fn fail(&mut self, error: String, now: i64)
        ensures
            *final(self) == after_failure(*old(self), error, now),
    {
        self.status.state = if self.cancelled {
            FileManagerOperationState::Cancelled
        } else {
            FileManagerOperationState::Failed
        };
        self.status.error = Some(error);
        self.status.cancellable = false;
        self.status.pending_conflict = None;
        self.status.temporary_storage_bytes = 0;
        self.status.updated_at = now;
    }

    /// The operation has been cancelled.
    pub fn cancel(&mut self, message: String, now: i64)
        ensures
            *final(self) == (OperationProgress {
                status: FileManagerOperationStatus {
                    state: FileManagerOperationState::Cancelled,
                    error: Some(message),
                    cancellable: false,
                    pending_conflict: None,
                    temporary_storage_bytes: 0,
                    updated_at: now,
                    ..old(self).status
                },
                ..*old(self)
            }),
    {
        self.status.state = FileManagerOperationState::Cancelled;
        self.status.error = Some(message);
        self.status.cancellable = false;
        self.status.pending_conflict = None;
        self.status.temporary_storage_bytes = 0;
        self.status.updated_at = now;
    }
}

/// The first position of a decision with the given identity.
pub open spec fn first_decision(decisions: Seq<ArrivedDecision>, id: Seq<char>) -> Option<int>
    decreases decisions.len(),
{
    if decisions.len() == 0 {
        None
    } else if decisions[0].decision_id@ == id {
        Some(0)
    } else {
        match first_decision(decisions.drop_first(), id) {
            Some(i) => Some(i + 1),
            None => None,
        }
    }
}

fn position_of(decisions: &Vec<ArrivedDecision>, id: &str) -> (position: Option<usize>)
    ensures
        match (position, first_decision(decisions@, id@)) {
            (Some(i), Some(j)) => i == j && i < decisions@.len(),
            (None, None) => true,
            _ => false,
        },
{
    assert(decisions@.skip(0) =~= decisions@);
    for i in 0..decisions.len()
        invariant
            match (first_decision(decisions@, id@), first_decision(decisions@.skip(i as int), id@)) {
                (Some(a), Some(b)) => a == b + i,
                (None, None) => true,
                _ => false,
            },
    {
        assert(decisions@.skip(i as int).drop_first() =~= decisions@.skip(i + 1));
        if text::same(decisions[i].decision_id.as_str(), id) {
            return Some(i);
        }
    }
    None
}

// ---------------------------------------------------------------------------
// The operations that are known
// ---------------------------------------------------------------------------

/// An operation that is known.
#[derive(Clone, Debug)]
pub struct OperationStatusRecord {
    pub actor: String,
    pub root_key: String,
    pub expires_at: i64,
    pub progress: OperationProgress,
}

impl Expires for OperationStatusRecord {
    open spec fn deadline(&self) -> i64 {
        self.expires_at
    }

    fn expires_at(&self) -> (deadline: i64) {
        self.expires_at
    }
}

/// Why a request about an operation is refused.
#[derive(Clone, Copy, Debug, PartialEq, Eq, Structural)]
pub enum StatusError {
    /// The user has no such operation in the root.
    NotFound,
    /// The conflict is not the one that waits for a decision.
    StaleDecision,
    /// The operation has ended.
    AlreadyFinished,
}

/// The user's operation in the root is known.
pub open spec fn is_known(
    statuses: Map<Seq<char>, OperationStatusRecord>,
    operation_id: Seq<char>,
    actor: Seq<char>,
    root_key: Seq<char>,
) -> bool {
    statuses.dom().contains(operation_id) && statuses[operation_id].actor@ == actor
        && statuses[operation_id].root_key@ == root_key
}

/// Registers an operation that has been asked for, and forgets those that ended
/// long ago.
pub fn register_status(
    statuses: &mut Registry<OperationStatusRecord>,
    operation_id: String,
    actor: &str,
    root_key: &str,
    description: String,
    now: i64,
)
    requires
        old(statuses).well_formed(),
        now <= i64::MAX - JOURNAL_TTL_MS,
    ensures
        final(statuses).well_formed(),
        is_known(final(statuses)@, operation_id@, actor@, root_key@),
        final(statuses)@[operation_id@].expires_at == now + JOURNAL_TTL_MS,
        final(statuses)@[operation_id@].progress.status == asked_status(
            operation_id,
            description,
            now,
        ),
        !final(statuses)@[operation_id@].progress.cancelled,
        final(statuses)@[operation_id@].progress.decisions@.len() == 0,
        forall|id: Seq<char>|
            id != operation_id@ ==> (#[trigger] final(statuses)@.dom().contains(id) <==> old(
                statuses,
            )@.dom().contains(id) && old(statuses)@[id].expires_at > now),
        forall|id: Seq<char>|
            id != operation_id@ && #[trigger] final(statuses)@.dom().contains(id) ==> final(statuses)@[id] == old(statuses)@[id],
{
    statuses.retain_unexpired(now);
    let key = operation_id.clone();
    let record = OperationStatusRecord {
        actor: actor.to_owned(),
        root_key: root_key.to_owned(),
        expires_at: now + JOURNAL_TTL_MS,
        progress: OperationProgress::new(operation_id, description, now),
    };
    statuses.insert(key, record);
}

/// What a user is told about an operation: nothing about those of others, or of
/// other roots.
pub fn operation_status(
    statuses: &mut Registry<OperationStatusRecord>,
    operation_id: &str,
    actor: &str,
    root_key: &str,
    now: i64,
) -> (status: Result<FileManagerOperationStatus, StatusError>)
    requires
        old(statuses).well_formed(),
    ensures
        final(statuses).well_formed(),
        forall|id: Seq<char>| #[trigger]
            final(statuses)@.dom().contains(id) <==> old(statuses)@.dom().contains(id) && old(
                statuses,
            )@[id].expires_at > now,
        forall|id: Seq<char>| #[trigger]
            final(statuses)@.dom().contains(id) ==> final(statuses)@[id] == old(statuses)@[id],
        match status {
            Ok(told) => is_known(old(statuses)@, operation_id@, actor@, root_key@) && old(
                statuses,
            )@[operation_id@].expires_at > now && told == old(
                statuses,
            )@[operation_id@].progress.status,
            Err(error) => error == StatusError::NotFound && (!is_known(
                old(statuses)@,
                operation_id@,
                actor@,
                root_key@,
            ) || old(statuses)@[operation_id@].expires_at <= now),
        },
{
    statuses.retain_unexpired(now);
    match statuses.get(operation_id) {
        None => Err(StatusError::NotFound),
        Some(record) => if !text::same(record.actor.as_str(), actor) || !text::same(
            record.root_key.as_str(),
            root_key,
        ) {
            Err(StatusError::NotFound)
        } else {
            Ok(record.progress.snapshot())
        },
    }
}

/// The operation is the user's, in the root, and has not ended.
pub open spec fn is_active(record: OperationStatusRecord, actor: Seq<char>, root_key: Seq<char>) -> bool {
    record.actor@ == actor && record.root_key@ == root_key && !is_over(
        record.progress.status.state,
    )
}

/// The operations are in the order in which they were asked for.
pub open spec fn in_start_order(operations: Seq<FileManagerOperationStatus>) -> bool {
    forall|i: int, j: int|
        0 <= i < j < operations.len() ==> (#[trigger] operations[i]).started_at <= (
        #[trigger] operations[j]).started_at
}

fn insert_by_start(
    operations: &mut Vec<FileManagerOperationStatus>,
    status: FileManagerOperationStatus,
)
    requires
        in_start_order(old(operations)@),
    ensures
        in_start_order(final(operations)@),
        exists|at: int|
            0 <= at <= old(operations)@.len() && final(operations)@ == #[trigger] old(
                operations,
            )@.insert(at, status),
{
    let mut at: usize = operations.len();
    while at > 0 && operations[at - 1].started_at > status.started_at
        invariant
            at <= operations@.len(),
            in_start_order(operations@),
            forall|k: int| at <= k < operations@.len() ==> (#[trigger] operations@[k]).started_at
                > status.started_at,
        decreases at,
    {
        at = at - 1;
    }
    let ghost before = operations@;
    operations.insert(at, status);
    proof {
        assert(operations@ =~= before.insert(at as int, status));
        assert forall|i: int, j: int| 0 <= i < j < operations@.len() implies (
        #[trigger] operations@[i]).started_at <= (#[trigger] operations@[j]).started_at by {
            if j < at {
                assert(before[i].started_at <= before[j].started_at);
            } else if j == at {
                if i < at - 1 {
                    assert(before[i].started_at <= before[at - 1].started_at);
                }
            } else if i < at {
                if j - 1 > i {
                    assert(before[i].started_at <= before[j - 1].started_at);
                }
            } else if i > at {
                assert(before[i - 1].started_at <= before[j - 1].started_at);
            }
        }
    }
}

/// The list holds the active operations under the given keys, and each active
/// operation has exactly one of the keys.
pub open spec fn lists_active(
    operations: Seq<FileManagerOperationStatus>,
    ids: Seq<Seq<char>>,
    statuses: Map<Seq<char>, OperationStatusRecord>,
    actor: Seq<char>,
    root_key: Seq<char>,
) -> bool {
    &&& ids.no_duplicates()
    &&& ids.len() == operations.len()
    &&& forall|i: int|
        0 <= i < ids.len() ==> statuses.dom().contains(#[trigger] ids[i]) && is_active(
            statuses[ids[i]],
            actor,
            root_key,
        ) && operations[i] == statuses[ids[i]].progress.status
    &&& forall|id: Seq<char>| #[trigger]
        statuses.dom().contains(id) && is_active(statuses[id], actor, root_key) ==> ids.contains(id)
}

/// The operations of a user in a root that have not ended, in the order in which
/// they were asked for.
pub fn list_active_operations(
    statuses: &mut Registry<OperationStatusRecord>,
    actor: &str,
    root_key: &str,
    now: i64,
) -> (operations: Vec<FileManagerOperationStatus>)
    requires
        old(statuses).well_formed(),
    ensures
        final(statuses).well_formed(),
        forall|id: Seq<char>| #[trigger]
            final(statuses)@.dom().contains(id) <==> old(statuses)@.dom().contains(id) && old(
                statuses,
            )@[id].expires_at > now,
        forall|id: Seq<char>| #[trigger]
            final(statuses)@.dom().contains(id) ==> final(statuses)@[id] == old(statuses)@[id],
        in_start_order(operations@),
        exists|ids: Seq<Seq<char>>| #[trigger]
            lists_active(operations@, ids, final(statuses)@, actor@, root_key@),
{
    statuses.retain_unexpired(now);
    let mut operations: Vec<FileManagerOperationStatus> = Vec::new();
    let ghost mut ids: Seq<Seq<char>> = Seq::empty();
    let mut i: usize = 0;
    while i < statuses.len()
        invariant
            i <= statuses.spec_len(),
            statuses.well_formed(),
            in_start_order(operations@),
            ids.no_duplicates(),
            ids.len() == operations@.len(),
            forall|n: int|
                0 <= n < ids.len() ==> statuses@.dom().contains(#[trigger] ids[n]) && is_active(
                    statuses@[ids[n]],
                    actor@,
                    root_key@,
                ) && operations@[n] == statuses@[ids[n]].progress.status,
            forall|n: int|
                0 <= n < ids.len() ==> exists|k: int|
                    0 <= k < i && #[trigger] statuses.key_at(k) == #[trigger] ids[n],
            forall|k: int|
                0 <= k < i && is_active(
                    statuses@[#[trigger] statuses.key_at(k)],
                    actor@,
                    root_key@,
                ) ==> ids.contains(statuses.key_at(k)),
        decreases statuses.spec_len() - i,
    {
        let (key, record) = statuses.entry_at(i);
        let ghost before = operations@;
        let ghost listed = ids;
        if text::same(record.actor.as_str(), actor) && text::same(
            record.root_key.as_str(),
            root_key,
        ) && !has_finished(record.progress.status.state) {
            let status = record.progress.snapshot();
            insert_by_start(&mut operations, status);
            proof {
                let at = choose|at: int|
                    0 <= at <= before.len() && operations@ == #[trigger] before.insert(at, status);
                ids = listed.insert(at, key@);
                statuses.lemma_positions();
                assert(!listed.contains(key@)) by {
                    if listed.contains(key@) {
                        let n = listed.index_of(key@);
                        assert(listed[n] == key@);
                        let k = choose|k: int|
                            0 <= k < i && #[trigger] statuses.key_at(k) == listed[n];
                        assert(statuses.key_at(k) != statuses.key_at(i as int));
                    }
                }
                assert forall|a: int, b: int| 0 <= a < b < ids.len() implies ids[a] != ids[b] by {
                    let x = if a < at { a } else { a - 1 };
                    let y = if b < at { b } else { b - 1 };
                    if a != at {
                        assert(ids[a] == listed[x]);
                    }
                    if b != at {
                        assert(ids[b] == listed[y]);
                    }
                }
                assert forall|n: int| 0 <= n < ids.len() implies statuses@.dom().contains(
                    #[trigger] ids[n],
                ) && is_active(statuses@[ids[n]], actor@, root_key@) && operations@[n]
                    == statuses@[ids[n]].progress.status by {
                    if n != at {
                        let x = if n < at { n } else { n - 1 };
                        assert(ids[n] == listed[x]);
                        assert(operations@[n] == before[x]);
                    }
                }
                assert forall|n: int| 0 <= n < ids.len() implies exists|k: int|
                    0 <= k < i + 1 && #[trigger] statuses.key_at(k) == #[trigger] ids[n] by {
                    if n == at {
                        assert(statuses.key_at(i as int) == ids[n]);
                    } else {
                        let x = if n < at { n } else { n - 1 };
                        assert(ids[n] == listed[x]);
                        let k = choose|k: int|
                            0 <= k < i && #[trigger] statuses.key_at(k) == listed[x];
                        assert(statuses.key_at(k) == ids[n]);
                    }
                }
                assert forall|k: int|
                    0 <= k < i + 1 && is_active(
                        statuses@[#[trigger] statuses.key_at(k)],
                        actor@,
                        root_key@,
                    ) implies ids.contains(statuses.key_at(k)) by {
                    if k == i {
                        assert(ids[at] == key@);
                    } else {
                        let x = listed.index_of(statuses.key_at(k));
                        assert(listed[x] == statuses.key_at(k));
                        assert(ids[if x < at { x } else { x + 1 }] == listed[x]);
                    }
                }
            }
        } else {
            proof {
                assert forall|n: int| 0 <= n < ids.len() implies exists|k: int|
                    0 <= k < i + 1 && #[trigger] statuses.key_at(k) == #[trigger] ids[n] by {
                    let k = choose|k: int|
                        0 <= k < i && #[trigger] statuses.key_at(k) == listed[n];
                    assert(statuses.key_at(k) == ids[n]);
                }
            }
        }
        i = i + 1;
    }
    proof {
        statuses.lemma_positions();
        assert forall|id: Seq<char>| #[trigger]
            statuses@.dom().contains(id) && is_active(
                statuses@[id],
                actor@,
                root_key@,
            ) implies ids.contains(id) by {
            let k = choose|k: int|
                0 <= k < statuses.spec_len() && #[trigger] statuses.key_at(k) == id;
            assert(is_active(statuses@[statuses.key_at(k)], actor@, root_key@));
        }
        assert(lists_active(operations@, ids, statuses@, actor@, root_key@));
    }
    operations
}

/// Why a decision about a conflict is refused.
pub open spec fn decision_refusal(
    statuses: Map<Seq<char>, OperationStatusRecord>,
    operation_id: Seq<char>,
    actor: Seq<char>,
    root_key: Seq<char>,
    decision_id: Seq<char>,
) -> Option<StatusError> {
    if !is_known(statuses, operation_id, actor, root_key) {
        Some(StatusError::NotFound)
    } else {
        match statuses[operation_id].progress.status.pending_conflict {
            Some(pending) => if pending.decision_id@ == decision_id {
                None
            } else {
                Some(StatusError::StaleDecision)
            },
            None => Some(StatusError::StaleDecision),
        }
    }
}

/// Hands a decision about a conflict to the operation that waits for it.
pub fn resolve_operation_conflict(
    statuses: &mut Registry<OperationStatusRecord>,
    operation_id: &str,
    actor: &str,
    root_key: &str,
    decision_id: String,
    action: FileManagerConflictAction,
    apply_to_all: bool,
) -> (status: Result<FileManagerOperationStatus, StatusError>)
    requires
        old(statuses).well_formed(),
    ensures
        final(statuses).well_formed(),
        match status {
            Ok(told) => {
                let before = old(statuses)@[operation_id@];
                &&& decision_refusal(
                    old(statuses)@,
                    operation_id@,
                    actor@,
                    root_key@,
                    decision_id@,
                ) is None
                &&& told == before.progress.status
                &&& exists|after: OperationStatusRecord|
                    final(statuses)@ == #[trigger] old(statuses)@.insert(operation_id@, after)
                        && after.actor == before.actor && after.root_key == before.root_key
                        && after.expires_at == before.expires_at && after.progress.status
                        == before.progress.status && after.progress.cancelled
                        == before.progress.cancelled && after.progress.decisions@
                        == before.progress.decisions@.push(
                        ArrivedDecision {
                            decision_id,
                            resolution: ConflictResolution { action, apply_to_all },
                        },
                    )
            },
            Err(error) => decision_refusal(
                old(statuses)@,
                operation_id@,
                actor@,
                root_key@,
                decision_id@,
            ) == Some(error) && final(statuses)@ == old(statuses)@,
        },
{
    let told = match statuses.get(operation_id) {
        None => {
            return Err(StatusError::NotFound);
        },
        Some(record) => {
            if !text::same(record.actor.as_str(), actor) || !text::same(
                record.root_key.as_str(),
                root_key,
            ) {
                return Err(StatusError::NotFound);
            }
            match &record.progress.status.pending_conflict {
                None => {
                    return Err(StatusError::StaleDecision);
                },
                Some(pending) => {
                    if !text::same(pending.decision_id.as_str(), decision_id.as_str()) {
                        return Err(StatusError::StaleDecision);
                    }
                },
            }
            record.progress.snapshot()
        },
    };
    match statuses.remove(operation_id) {
        None => Err(StatusError::NotFound),
        Some(record) => {
            let mut after = record;
            after.progress.decisions.push(
                ArrivedDecision {
                    decision_id,
                    resolution: ConflictResolution { action, apply_to_all },
                },
            );
            let ghost stored = after;
            statuses.insert(operation_id.to_owned(), after);
            assert(statuses@ =~= old(statuses)@.insert(operation_id@, stored));
            Ok(told)
        },
    }
}

/// Why a request to cancel an operation is refused.
pub open spec fn cancel_refusal(
    statuses: Map<Seq<char>, OperationStatusRecord>,
    operation_id: Seq<char>,
    actor: Seq<char>,
    root_key: Seq<char>,
) -> Option<StatusError> {
    if !is_known(statuses, operation_id, actor, root_key) {
        Some(StatusError::NotFound)
    } else if is_over(statuses[operation_id].progress.status.state) {
        Some(StatusError::AlreadyFinished)
    } else {
        None
    }
}

/// Asks an operation that has not ended to stop.
pub fn cancel_file_manager_operation(
    statuses: &mut Registry<OperationStatusRecord>,
    operation_id: &str,
    actor: &str,
    root_key: &str,
    now: i64,
) -> (status: Result<FileManagerOperationStatus, StatusError>)
    requires
        old(statuses).well_formed(),
    ensures
        final(statuses).well_formed(),
        match status {
            Ok(told) => {
                let before = old(statuses)@[operation_id@];
                &&& cancel_refusal(old(statuses)@, operation_id@, actor@, root_key@) is None
                &&& told == cancelling_status(before.progress.status, told.description, now)
                &&& told.description@ == "Cancelling file operation"@
                &&& exists|after: OperationStatusRecord|
                    final(statuses)@ == #[trigger] old(statuses)@.insert(operation_id@, after)
                        && after.actor == before.actor && after.root_key == before.root_key
                        && after.expires_at == before.expires_at && after.progress.cancelled
                        && after.progress.decisions == before.progress.decisions
                        && after.progress.status == told
            },
            Err(error) => cancel_refusal(old(statuses)@, operation_id@, actor@, root_key@) == Some(
                error,
            ) && final(statuses)@ == old(statuses)@,
        },
{
    match statuses.get(operation_id) {
        None => {
            return Err(StatusError::NotFound);
        },
        Some(record) => {
            if !text::same(record.actor.as_str(), actor) || !text::same(
                record.root_key.as_str(),
                root_key,
            ) {
                return Err(StatusError::NotFound);
            }
            if has_finished(record.progress.status.state) {
                return Err(StatusError::AlreadyFinished);
            }
        },
    }
    match statuses.remove(operation_id) {
        None => Err(StatusError::NotFound),
        Some(record) => {
            let mut after = record;
            after.progress.request_cancel(now);
            let told = after.progress.snapshot();
            let ghost stored = after;
            statuses.insert(operation_id.to_owned(), after);
            assert(statuses@ =~= old(statuses)@.insert(operation_id@, stored));
            Ok(told)
        },
    }
}

/// An operation that was asked to stop never counts as failed: when it ends
/// early, it has been cancelled.
pub proof fn cancelled_operations_do_not_fail(progress: OperationProgress, error: String, now: i64)
    requires
        progress.cancelled,
    ensures
        after_failure(progress, error, now).status.state == FileManagerOperationState::Cancelled,
{
}

/// Counts go up by what was done, but not beyond the total where one is known.
pub proof fn counts_stay_within_the_total(count: u64, more: u64, total: u64)
    ensures
        total != 0 ==> raised(count, more, total) <= total,
        total != 0 && count + more <= total ==> raised(count, more, total) == count + more,
        total != 0 && count + more > total ==> raised(count, more, total) == total,
        total == 0 && count + more <= u64::MAX ==> raised(count, more, total) == count + more,
        total == 0 && count + more > u64::MAX ==> raised(count, more, total) == u64::MAX,
{
}

/// The decision that arrived first for a conflict is the one that counts.
pub proof fn first_decisions_are_taken(decisions: Seq<ArrivedDecision>, id: Seq<char>)
    ensures
        match first_decision(decisions, id) {
            Some(i) => 0 <= i < decisions.len() && decisions[i].decision_id@ == id && forall|
                j: int,
            | 0 <= j < i ==> (#[trigger] decisions[j]).decision_id@ != id,
            None => forall|j: int|
                0 <= j < decisions.len() ==> (#[trigger] decisions[j]).decision_id@ != id,
        },
    decreases decisions.len(),
{
    if decisions.len() > 0 && decisions[0].decision_id@ != id {
        let rest = decisions.drop_first();
        first_decisions_are_taken(rest, id);
        let high = match first_decision(rest, id) {
            Some(i) => i + 1,
            None => decisions.len() as int,
        };
        assert forall|j: int| 0 <= j < high implies (#[trigger] decisions[j]).decision_id@
            != id by {
            if j > 0 {
                assert(rest[j - 1] == decisions[j]);
            }
        }
        if first_decision(rest, id) is Some {
            assert(decisions[high] == rest[high - 1]);
        }
    }
}

/// An operation that has failed is over, asks nothing more, cannot be cancelled and
/// holds no temporary storage; what it had done stays told.
pub proof fn failed_operations_are_over(progress: OperationProgress, error: String, now: i64)
    ensures
        ({
            let after = after_failure(progress, error, now);
            &&& is_over(after.status.state)
            &&& after.status.state == FileManagerOperationState::Cancelled <==> progress.cancelled
            &&& after.status.state == FileManagerOperationState::Failed <==> !progress.cancelled
            &&& after.status.error == Some(error)
            &&& !after.status.cancellable
            &&& after.status.pending_conflict is None
            &&& after.status.temporary_storage_bytes == 0
            &&& after.status.completed_entries == progress.status.completed_entries
            &&& after.status.completed_bytes == progress.status.completed_bytes
            &&& after.status.operation_id == progress.status.operation_id
            &&& after.status.phase == progress.status.phase
            &&& after.status.started_at == progress.status.started_at
            &&& after.status.updated_at == now
        }),
{
}

/// A decision is taken only from who started the operation, on its root, for the
/// very conflict that waits.
pub proof fn decisions_need_a_waiting_conflict(
    statuses: Map<Seq<char>, OperationStatusRecord>,
    operation_id: Seq<char>,
    actor: Seq<char>,
    root_key: Seq<char>,
    decision_id: Seq<char>,
)
    ensures
        decision_refusal(statuses, operation_id, actor, root_key, decision_id) is None <==> {
            &&& statuses.dom().contains(operation_id)
            &&& statuses[operation_id].actor@ == actor
            &&& statuses[operation_id].root_key@ == root_key
            &&& statuses[operation_id].progress.status.pending_conflict is Some
            &&& statuses[operation_id].progress.status.pending_conflict->Some_0.decision_id@
                == decision_id
        },
        cancel_refusal(statuses, operation_id, actor, root_key) is None <==> {
            &&& statuses.dom().contains(operation_id)
            &&& statuses[operation_id].actor@ == actor
            &&& statuses[operation_id].root_key@ == root_key
            &&& statuses[operation_id].progress.status.state
                != FileManagerOperationState::Complete
            &&& statuses[operation_id].progress.status.state != FileManagerOperationState::Failed
            &&& statuses[operation_id].progress.status.state
                != FileManagerOperationState::Cancelled
        },
{
}

} // verus!
