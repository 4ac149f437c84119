//! The journal of file operations, and the history that undoes and redoes them.

use vstd::prelude::*;

use crate::file_manager::operation;
use crate::file_manager::operation::FileManagerOperation;
use crate::file_manager::operation::FileManagerRevision;
use crate::file_manager::operation::ResolvedRoot;
use crate::text;
use crate::text::texts;

verus! {

/// How long an operation can be undone, in milliseconds.
pub const JOURNAL_TTL_MS: i64 = 86400000;

/// How far an action of the journal has come.
#[derive(Clone, Copy, Debug, PartialEq, Eq, Structural)]
pub enum JournalActionState {
    Prepared,
    Applied,
}

/// A change of names that an operation made.
#[derive(Clone, Debug, PartialEq, Eq)]
pub enum JournalActionKind {
    /// An entry was moved into the operation's quarantine.
    Quarantine { path: String, quarantine_name: String },
    /// An entry was renamed.
    Relocate { from: String, to: String },
    /// An entry was created. Undoing moves it into the quarantine.
    Created { path: String, quarantine_name: String },
}

/// An action of the journal.
#[derive(Clone, Debug, PartialEq, Eq)]
pub struct JournalAction {
    pub state: JournalActionState,
    pub kind: JournalActionKind,
}

/// The side of the history that a journal stands on.
#[derive(Clone, Copy, Debug, PartialEq, Eq, Structural)]
pub enum JournalHistorySide {
    Undo,
    Redo,
}

/// An undo or redo that has begun and not ended.
#[derive(Clone, Copy, Debug, PartialEq, Eq, Structural)]
pub enum JournalTransition {
    Undo,
    Redo,
}

/// How an operation is carried out.
#[derive(Clone, Copy, Debug, PartialEq, Eq, Structural)]
pub enum FileManagerExecutionMode {
    /// The operation can be undone.
    Recoverable,
    /// The operation is not kept for undo.
    Direct,
}

/// Mode and ownership of an entry.
#[derive(Clone, Debug, PartialEq, Eq)]
pub struct JournalEntryMetadata {
    pub path: String,
    pub mode: u32,
    pub uid: u32,
    pub gid: u32,
}

/// The copy of a path from before an operation.
#[derive(Clone, Debug, PartialEq, Eq)]
pub struct JournalSnapshot {
    pub path: String,
    pub existed: bool,
    pub backup_name: String,
    pub before_metadata: Vec<JournalEntryMetadata>,
    pub after_metadata: Vec<JournalEntryMetadata>,
}

/// The state of a path; nothing when the path is not there.
#[derive(Clone, Debug, PartialEq, Eq)]
pub struct PathRevision {
    pub path: String,
    pub revision: Option<FileManagerRevision>,
}

/// The journal of one operation.
#[derive(Clone, Debug, PartialEq, Eq)]
pub struct JournalRecord {
    pub id: String,
    pub actor: String,
    pub root_key: String,
    pub root_path: String,
    /// The operation edits a managed file.
    pub managed: bool,
    /// The journal is kept until its transaction is decided.
    pub durable_managed: bool,
    /// The operation did not end; its journal can only be rolled back.
    pub recovery: bool,
    pub history_side: JournalHistorySide,
    pub transition: Option<JournalTransition>,
    pub created_at: i64,
    pub expires_at: i64,
    pub description: String,
    pub execution_mode: FileManagerExecutionMode,
    pub actions: Vec<JournalAction>,
    /// Nothing but the removal of the journal is left.
    pub cleanup_only: bool,
    pub snapshots: Vec<JournalSnapshot>,
    pub before_revisions: Vec<PathRevision>,
    pub after_revisions: Vec<PathRevision>,
}

/// The key of the history of a user in a root.
pub fn history_key(root: &str, actor: &str) -> (key: String)
    ensures
        key@ == root@ + ":"@ + actor@,
{
    text::concat3(root, ":", actor)
}

/// The journal may be offered for undo or redo.
pub open spec fn is_visible(record: JournalRecord) -> bool {
    !record.cleanup_only && (!record.managed || record.recovery)
}

/// Whether the journal may be offered for undo or redo.
pub fn journal_is_visible(record: &JournalRecord) -> (visible: bool)
    ensures
        visible == is_visible(*record),
{
    !record.cleanup_only && (!record.managed || record.recovery)
}

/// The journal must be kept at `now`: it has not expired, or it is needed to
/// recover or to decide a transaction.
pub open spec fn is_kept(record: JournalRecord, now: i64) -> bool {
    record.durable_managed || record.recovery || record.transition is Some || record.expires_at
        > now
}

/// Whether the journal must be kept at `now`.
pub fn journal_is_unexpired(record: &JournalRecord, now: i64) -> (kept: bool)
    ensures
        kept == is_kept(*record, now),
{
    record.durable_managed || record.recovery || record.transition.is_some() || record.expires_at
        > now
}

/// Journals that are needed for recovery or for a decision never expire.
pub proof fn recovery_journals_do_not_expire(record: JournalRecord, now: i64)
    ensures
        record.recovery ==> is_kept(record, now),
        record.durable_managed ==> is_kept(record, now),
        record.transition is Some ==> is_kept(record, now),
{
}

/// What the description of an interrupted operation begins with.
pub const RECOVERY_PREFIX: &'static str = "Recover interrupted ";

/// The description of an interrupted operation.
pub open spec fn recovery_description(description: Seq<char>) -> Seq<char> {
    if RECOVERY_PREFIX@.is_prefix_of(description) {
        description
    } else {
        RECOVERY_PREFIX@ + description
    }
}

fn describe_recovery(description: String) -> (described: String)
    ensures
        described@ == recovery_description(description@),
{
    if text::begins_with(description.as_str(), RECOVERY_PREFIX) {
        description
    } else {
        text::concat2(RECOVERY_PREFIX, description.as_str())
    }
}

/// The records agree in everything but the fields that recovery sets.
pub open spec fn same_operation(a: JournalRecord, b: JournalRecord) -> bool {
    &&& a.id == b.id
    &&& a.actor == b.actor
    &&& a.root_key == b.root_key
    &&& a.root_path == b.root_path
    &&& a.managed == b.managed
    &&& a.durable_managed == b.durable_managed
    &&& a.created_at == b.created_at
    &&& a.expires_at == b.expires_at
    &&& a.execution_mode == b.execution_mode
    &&& a.actions == b.actions
    &&& a.cleanup_only == b.cleanup_only
    &&& a.snapshots == b.snapshots
    &&& a.before_revisions == b.before_revisions
    &&& a.after_revisions == b.after_revisions
}

/// A loaded journal whose undo or redo was interrupted becomes one that can
/// only be rolled back; any other one stays as it is.
pub open spec fn is_normalized(before: JournalRecord, after: JournalRecord) -> bool {
    if before.transition is Some {
        &&& same_operation(before, after)
        &&& after.transition == before.transition
        &&& after.recovery
        &&& after.history_side == JournalHistorySide::Undo
        &&& after.description@ == recovery_description(before.description@)
    } else {
        after == before
    }
}

/// Makes a journal whose undo or redo was interrupted one that can only be
/// rolled back.
pub fn normalize_loaded_journal(record: JournalRecord) -> (normalized: JournalRecord)
    ensures
        is_normalized(record, normalized),
{
    let mut normalized = record;
    if normalized.transition.is_some() {
        normalized.recovery = true;
        normalized.history_side = JournalHistorySide::Undo;
        let mut description = String::new();
        std::mem::swap(&mut description, &mut normalized.description);
        normalized.description = describe_recovery(description);
    }
    normalized
}

/// Normalizing a journal twice is normalizing it once.
pub proof fn normalizing_is_idempotent(
    record: JournalRecord,
    once: JournalRecord,
    twice: JournalRecord,
)
    requires
        is_normalized(record, once),
        is_normalized(once, twice),
    ensures
        twice.description@ == once.description@,
        twice.recovery == once.recovery,
        twice.history_side == once.history_side,
        twice.transition == once.transition,
        same_operation(once, twice),
{
    let prefix = RECOVERY_PREFIX@;
    let text = prefix + record.description@;
    assert(prefix =~= text.subrange(0, prefix.len() as int));
}

/// The journal of an operation whose rollback failed, kept for another try.
pub fn retain_after_rollback_failure(record: JournalRecord) -> (retained: JournalRecord)
    ensures
        same_operation(record, retained),
        retained.recovery,
        retained.history_side == JournalHistorySide::Undo,
        retained.transition is None,
        retained.description@ == recovery_description(record.description@),
{
    let mut retained = record;
    retained.recovery = true;
    retained.history_side = JournalHistorySide::Undo;
    retained.transition = None;
    let mut description = String::new();
    std::mem::swap(&mut description, &mut retained.description);
    retained.description = describe_recovery(description);
    retained
}

// ---------------------------------------------------------------------------
// The life of a journal
// ---------------------------------------------------------------------------

/// The journal of an operation that is about to begin.
pub open spec fn is_new_journal(
    record: JournalRecord,
    root: ResolvedRoot,
    actor: Seq<char>,
    id: Seq<char>,
    operation: FileManagerOperation,
    execution_mode: FileManagerExecutionMode,
    durable_managed: bool,
    created_at: i64,
) -> bool {
    &&& record.id@ == id
    &&& record.actor@ == actor
    &&& record.root_key == root.key
    &&& record.root_path == root.path
    &&& record.managed == operation::edits_managed_file(root, operation)
    &&& record.durable_managed == (durable_managed && operation::edits_managed_file(
        root,
        operation,
    ))
    &&& record.recovery
    &&& record.history_side == JournalHistorySide::Undo
    &&& record.transition is None
    &&& record.created_at == created_at
    &&& record.expires_at == created_at + JOURNAL_TTL_MS
    &&& record.description@ == operation::described(operation)
    &&& record.execution_mode == execution_mode
    &&& record.actions@.len() == 0
    &&& !record.cleanup_only
    &&& record.after_revisions@.len() == 0
}

/// The journal of an operation that changes names only. Until it is finished it
/// is a recovery journal.
pub fn create_action_journal(
    root: &ResolvedRoot,
    actor: &str,
    id: &str,
    operation: &FileManagerOperation,
    execution_mode: FileManagerExecutionMode,
    durable_managed: bool,
    created_at: i64,
) -> (record: JournalRecord)
    requires
        created_at <= i64::MAX - JOURNAL_TTL_MS,
    ensures
        is_new_journal(
            record,
            *root,
            actor@,
            id@,
            *operation,
            execution_mode,
            durable_managed,
            created_at,
        ),
        record.snapshots@.len() == 0,
        record.before_revisions@.len() == 0,
{
    create_journal(
        root,
        actor,
        id,
        operation,
        execution_mode,
        durable_managed,
        created_at,
        Vec::new(),
        Vec::new(),
    )
}

/// The journal of an operation whose paths have been snapshotted.
pub fn create_journal(
    root: &ResolvedRoot,
    actor: &str,
    id: &str,
    operation: &FileManagerOperation,
    execution_mode: FileManagerExecutionMode,
    durable_managed: bool,
    created_at: i64,
    snapshots: Vec<JournalSnapshot>,
    before_revisions: Vec<PathRevision>,
) -> (record: JournalRecord)
    requires
        created_at <= i64::MAX - JOURNAL_TTL_MS,
    ensures
        is_new_journal(
            record,
            *root,
            actor@,
            id@,
            *operation,
            execution_mode,
            durable_managed,
            created_at,
        ),
        record.snapshots == snapshots,
        record.before_revisions == before_revisions,
{
    let managed = operation::operation_edits_managed_file(root, operation);
    JournalRecord {
        id: id.to_owned(),
        actor: actor.to_owned(),
        root_key: root.key.clone(),
        root_path: root.path.clone(),
        managed,
        durable_managed: durable_managed && managed,
        recovery: true,
        history_side: JournalHistorySide::Undo,
        transition: None,
        created_at,
        expires_at: created_at + JOURNAL_TTL_MS,
        description: operation::operation_description(operation),
        execution_mode,
        actions: Vec::new(),
        cleanup_only: false,
        snapshots,
        before_revisions,
        after_revisions: Vec::new(),
    }
}

/// The snapshot of the path at `index` of those that are watched.
pub fn snapshot_of(
    path: &str,
    index: u64,
    existed: bool,
    before_metadata: Vec<JournalEntryMetadata>,
) -> (snapshot: JournalSnapshot)
    ensures
        snapshot.path@ == path@,
        snapshot.existed == existed,
        snapshot.backup_name@ == text::decimal_digits(index as nat),
        snapshot.before_metadata == before_metadata,
        snapshot.after_metadata@.len() == 0,
{
    JournalSnapshot {
        path: path.to_owned(),
        existed,
        backup_name: text::decimal(index),
        before_metadata,
        after_metadata: Vec::new(),
    }
}

/// The journal of an operation that has been carried out. A journal that is not
/// kept for undo only waits for its removal.
pub fn finish_action_journal(record: JournalRecord, retain: bool) -> (finished: JournalRecord)
    ensures
        finished == (JournalRecord { recovery: false, cleanup_only: !retain, ..record }),
{
    let mut finished = record;
    finished.recovery = false;
    finished.cleanup_only = !retain;
    finished
}

/// The journal of a snapshotted operation that has been carried out, with the
/// states that it left behind.
pub fn finish_journal(record: JournalRecord, after_revisions: Vec<PathRevision>) -> (finished:
    JournalRecord)
    ensures
        finished == (JournalRecord {
            recovery: false,
            history_side: JournalHistorySide::Undo,
            after_revisions,
            ..record
        }),
{
    let mut finished = record;
    finished.after_revisions = after_revisions;
    finished.recovery = false;
    finished.history_side = JournalHistorySide::Undo;
    finished
}

/// The journal of a rolled back operation, which only waits for its removal.
pub fn retire_action_journal(record: JournalRecord) -> (retired: JournalRecord)
    ensures
        retired == (JournalRecord { recovery: false, cleanup_only: true, ..record }),
{
    let mut retired = record;
    retired.recovery = false;
    retired.cleanup_only = true;
    retired
}

/// The journal once its undo or redo has durably begun.
pub fn begin_journal_transition(record: JournalRecord, transition: JournalTransition) -> (begun:
    JournalRecord)
    ensures
        begun == (JournalRecord { transition: Some(transition), ..record }),
{
    let mut begun = record;
    begun.transition = Some(transition);
    begun
}

/// The journal once its undo or redo has ended on the given side. If that could
/// not be made durable, the journal is one of an interrupted transition.
pub fn complete_journal_transition(
    record: JournalRecord,
    side: JournalHistorySide,
    durable: bool,
) -> (completed: JournalRecord)
    ensures
        durable ==> completed == (JournalRecord {
            transition: None,
            history_side: side,
            recovery: false,
            ..record
        }),
        !durable ==> is_normalized(
            JournalRecord { history_side: side, recovery: false, ..record },
            completed,
        ),
{
    let mut completed = record;
    completed.history_side = side;
    completed.recovery = false;
    if durable {
        completed.transition = None;
        completed
    } else {
        normalize_loaded_journal(completed)
    }
}

/// Whether the finished journal is kept so that the operation can be undone, or
/// decided over.
pub fn retains_journal(
    managed: bool,
    undoable: bool,
    execution_mode: FileManagerExecutionMode,
) -> (retain: bool)
    ensures
        retain == (managed || (undoable && execution_mode
            == FileManagerExecutionMode::Recoverable)),
{
    managed || (undoable && match execution_mode {
        FileManagerExecutionMode::Recoverable => true,
        FileManagerExecutionMode::Direct => false,
    })
}

// ---------------------------------------------------------------------------
// History
// ---------------------------------------------------------------------------

/// The operations of a user in a root that can be undone and redone. The last
/// one of each list comes first.
#[derive(Clone, Debug, PartialEq, Eq)]
pub struct JournalHistory {
    pub undo: Vec<JournalRecord>,
    pub redo: Vec<JournalRecord>,
}

/// The journal stands on the undo side.
pub open spec fn on_undo_side(record: JournalRecord) -> bool {
    record.recovery || record.history_side == JournalHistorySide::Undo
}

fn stands_on_undo_side(record: &JournalRecord) -> (undo: bool)
    ensures
        undo == on_undo_side(*record),
{
    record.recovery || match record.history_side {
        JournalHistorySide::Undo => true,
        JournalHistorySide::Redo => false,
    }
}

impl JournalHistory {
    /// A history without operations.
    pub fn new() -> (history: JournalHistory)
        ensures
            history.undo@.len() == 0,
            history.redo@.len() == 0,
    {
        JournalHistory { undo: Vec::new(), redo: Vec::new() }
    }

    /// Takes in a journal that was loaded. Journals are loaded oldest first;
    /// the redo side is a stack whose oldest journal comes first.
    pub fn insert_loaded(&mut self, record: JournalRecord)
        ensures
            on_undo_side(record) ==> final(self).undo@ == old(self).undo@.push(record) && final(self).redo@ == old(self).redo@,
            !on_undo_side(record) ==> final(self).redo@ == seq![record] + old(self).redo@ && final(self).undo@ == old(self).undo@,
    {
        if stands_on_undo_side(&record) {
            self.undo.push(record);
        } else {
            let ghost before = self.redo@;
            self.redo.insert(0, record);
            assert(self.redo@ =~= seq![record] + before);
        }
    }

    /// Puts a journal back after an undo or redo that did not end.
    pub fn store_journal_by_side(&mut self, record: JournalRecord)
        ensures
            exists|stored: JournalRecord| #[trigger]
                is_normalized(record, stored) && (if on_undo_side(stored) {
                    final(self).undo@ == old(self).undo@.push(stored) && final(self).redo@ == old(self).redo@
                } else {
                    final(self).redo@ == old(self).redo@.push(stored) && final(self).undo@ == old(self).undo@
                }),
    {
        let stored = normalize_loaded_journal(record);
        assert(is_normalized(record, stored));
        if stands_on_undo_side(&stored) {
            self.undo.push(stored);
        } else {
            self.redo.push(stored);
        }
    }

    /// Drops the journal of an operation from both sides.
    pub fn remove_journal_from_history(&mut self, id: &str)
        ensures
            final(self).undo@ == old(self).undo@.filter(|record: JournalRecord| record.id@ != id@),
            final(self).redo@ == old(self).redo@.filter(|record: JournalRecord| record.id@ != id@),
    {
        let mut undo: Vec<JournalRecord> = Vec::new();
        std::mem::swap(&mut undo, &mut self.undo);
        self.undo = without_id(undo, id);
        let mut redo: Vec<JournalRecord> = Vec::new();
        std::mem::swap(&mut redo, &mut self.redo);
        self.redo = without_id(redo, id);
    }
}

fn without_id(records: Vec<JournalRecord>, id: &str) -> (kept: Vec<JournalRecord>)
    ensures
        kept@ == records@.filter(|record: JournalRecord| record.id@ != id@),
{
    let ghost all = records@;
    let ghost other = |record: JournalRecord| record.id@ != id@;
    let mut kept = records;
    let mut i: usize = 0;
    let ghost mut seen: int = 0;
    proof {
        reveal(Seq::filter);
        assert(all.take(0).filter(other) =~= Seq::<JournalRecord>::empty());
        assert(kept@ =~= all.take(0).filter(other) + all.skip(0));
    }
    while i < kept.len()
        invariant
            0 <= seen <= all.len(),
            other == (|record: JournalRecord| record.id@ != id@),
            i == all.take(seen).filter(other).len(),
            kept@ == all.take(seen).filter(other) + all.skip(seen),
        decreases kept.len() - i,
    {
        let ghost prefix = all.take(seen).filter(other);
        proof {
            assert(kept@[i as int] == all[seen]);
            assert(all.take(seen + 1) =~= all.take(seen).push(all[seen]));
            all.take(seen).lemma_filter_push(all[seen], other);
        }
        if text::same(kept[i].id.as_str(), id) {
            let _ = kept.remove(i);
            proof {
                assert(kept@ =~= prefix + all.skip(seen + 1));
            }
        } else {
            proof {
                assert(kept@ =~= prefix.push(all[seen]) + all.skip(seen + 1));
            }
            i = i + 1;
        }
        proof {
            seen = seen + 1;
        }
    }
    proof {
        assert(all.take(seen) =~= all);
        assert(kept@ =~= all.filter(other));
    }
    kept
}

/// The identities of the journals that are dropped at `now`.
pub open spec fn dropped_ids(records: Seq<JournalRecord>, now: i64) -> Seq<Seq<char>>
    decreases records.len(),
{
    if records.len() == 0 {
        Seq::empty()
    } else {
        let before = dropped_ids(records.drop_last(), now);
        if is_kept(records.last(), now) {
            before
        } else {
            before.push(records.last().id@)
        }
    }
}

/// The journals that are kept at `now`.
pub open spec fn kept_records(records: Seq<JournalRecord>, now: i64) -> Seq<JournalRecord> {
    records.filter(|record: JournalRecord| is_kept(record, now))
}

fn prune_records(records: Vec<JournalRecord>, now: i64, expired: &mut Vec<String>) -> (kept: Vec<
    JournalRecord,
>)
    ensures
        kept@ == kept_records(records@, now),
        texts(final(expired)@) == texts(old(expired)@) + dropped_ids(records@, now),
{
    let ghost all = records@;
    let ghost keeps = |record: JournalRecord| is_kept(record, now);
    let ghost start = texts(expired@);
    let mut kept = records;
    let mut i: usize = 0;
    let ghost mut seen: int = 0;
    proof {
        reveal(Seq::filter);
        assert(all.take(0).filter(keeps) =~= Seq::<JournalRecord>::empty());
        assert(kept@ =~= all.take(0).filter(keeps) + all.skip(0));
        assert(start + dropped_ids(all.take(0), now) =~= start);
    }
    while i < kept.len()
        invariant
            0 <= seen <= all.len(),
            keeps == (|record: JournalRecord| is_kept(record, now)),
            i == all.take(seen).filter(keeps).len(),
            kept@ == all.take(seen).filter(keeps) + all.skip(seen),
            texts(expired@) == start + dropped_ids(all.take(seen), now),
        decreases kept.len() - i,
    {
        let ghost prefix = all.take(seen).filter(keeps);
        proof {
            assert(kept@[i as int] == all[seen]);
            assert(all.take(seen + 1) =~= all.take(seen).push(all[seen]));
            assert(all.take(seen + 1).drop_last() =~= all.take(seen));
            all.take(seen).lemma_filter_push(all[seen], keeps);
        }
        if !journal_is_unexpired(&kept[i], now) {
            let ghost ids = texts(expired@);
            expired.push(kept[i].id.clone());
            let _ = kept.remove(i);
            proof {
                assert(kept@ =~= prefix + all.skip(seen + 1));
                assert(texts(expired@) =~= ids.push(all[seen].id@));
                assert(texts(expired@) =~= start + dropped_ids(all.take(seen + 1), now));
            }
        } else {
            proof {
                assert(kept@ =~= prefix.push(all[seen]) + all.skip(seen + 1));
            }
            i = i + 1;
        }
        proof {
            seen = seen + 1;
        }
    }
    proof {
        assert(all.take(seen) =~= all);
        assert(kept@ =~= all.filter(keeps));
    }
    kept
}

/// Drops the journals that have expired, and names them.
pub fn prune_history(history: &mut JournalHistory, now: i64) -> (expired: Vec<String>)
    ensures
        final(history).undo@ == kept_records(old(history).undo@, now),
        final(history).redo@ == kept_records(old(history).redo@, now),
        texts(expired@) == dropped_ids(old(history).undo@, now) + dropped_ids(
            old(history).redo@,
            now,
        ),
{
    let mut expired: Vec<String> = Vec::new();
    let mut undo: Vec<JournalRecord> = Vec::new();
    std::mem::swap(&mut undo, &mut history.undo);
    history.undo = prune_records(undo, now, &mut expired);
    let mut redo: Vec<JournalRecord> = Vec::new();
    std::mem::swap(&mut redo, &mut history.redo);
    history.redo = prune_records(redo, now, &mut expired);
    proof {
        let a = dropped_ids(old(history).undo@, now);
        let b = dropped_ids(old(history).redo@, now);
        assert(Seq::<Seq<char>>::empty() + a + b =~= a + b);
    }
    expired
}

/// The last position of a visible journal.
pub open spec fn last_visible(records: Seq<JournalRecord>) -> Option<int>
    decreases records.len(),
{
    if records.len() == 0 {
        None
    } else if is_visible(records.last()) {
        Some(records.len() - 1)
    } else {
        last_visible(records.drop_last())
    }
}

/// The last position of the journal with the given identity.
pub open spec fn last_with_id(records: Seq<JournalRecord>, id: Seq<char>) -> Option<int>
    decreases records.len(),
{
    if records.len() == 0 {
        None
    } else if records.last().id@ == id {
        Some(records.len() - 1)
    } else {
        last_with_id(records.drop_last(), id)
    }
}

/// The position as a number.
pub open spec fn at_position(found: Option<usize>) -> Option<int> {
    match found {
        Some(i) => Some(i as int),
        None => None,
    }
}

/// The last position of a visible journal.
pub fn find_visible(records: &Vec<JournalRecord>) -> (found: Option<usize>)
    ensures
        at_position(found) == last_visible(records@),
        found matches Some(i) ==> i < records@.len() && is_visible(records@[i as int]),
{
    let mut i: usize = records.len();
    assert(records@.take(records@.len() as int) =~= records@);
    while i > 0
        invariant
            i <= records@.len(),
            last_visible(records@) == last_visible(records@.take(i as int)),
        decreases i,
    {
        assert(records@.take(i as int).drop_last() =~= records@.take(i - 1));
        if journal_is_visible(&records[i - 1]) {
            return Some(i - 1);
        }
        i = i - 1;
    }
    None
}

/// The last position of the journal with the given identity.
pub fn find_with_id(records: &Vec<JournalRecord>, id: &str) -> (found: Option<usize>)
    ensures
        at_position(found) == last_with_id(records@, id@),
        found matches Some(i) ==> i < records@.len() && records@[i as int].id@ == id@,
{
    let mut i: usize = records.len();
    assert(records@.take(records@.len() as int) =~= records@);
    while i > 0
        invariant
            i <= records@.len(),
            last_with_id(records@, id@) == last_with_id(records@.take(i as int), id@),
        decreases i,
    {
        assert(records@.take(i as int).drop_last() =~= records@.take(i - 1));
        if text::same(records[i - 1].id.as_str(), id) {
            return Some(i - 1);
        }
        i = i - 1;
    }
    None
}

/// The position of the journal to undo: the named one, or the last visible one.
pub open spec fn undo_position(records: Seq<JournalRecord>, rollback_id: Option<Seq<char>>) -> Option<
    int,
> {
    match rollback_id {
        Some(id) => last_with_id(records, id),
        None => last_visible(records),
    }
}

impl JournalHistory {
    /// Takes out the journal to undo: the named one, or the last visible one.
    pub fn take_undo(&mut self, rollback_id: Option<&str>) -> (record: Option<JournalRecord>)
        ensures
            final(self).redo@ == old(self).redo@,
            match (
                record,
                undo_position(
                    old(self).undo@,
                    match rollback_id {
                        Some(id) => Some(id@),
                        None => None,
                    },
                ),
            ) {
                (Some(taken), Some(i)) => taken == old(self).undo@[i] && final(self).undo@ == old(self).undo@.remove(i),
                (None, None) => final(self).undo@ == old(self).undo@,
                _ => false,
            },
    {
        let found = match rollback_id {
            Some(id) => find_with_id(&self.undo, id),
            None => find_visible(&self.undo),
        };
        match found {
            Some(i) => Some(self.undo.remove(i)),
            None => None,
        }
    }

    /// Takes out the journal to redo: the last visible one.
    pub fn take_redo(&mut self) -> (record: Option<JournalRecord>)
        ensures
            final(self).undo@ == old(self).undo@,
            match (record, last_visible(old(self).redo@)) {
                (Some(taken), Some(i)) => taken == old(self).redo@[i] && final(self).redo@ == old(self).redo@.remove(i),
                (None, None) => final(self).redo@ == old(self).redo@,
                _ => false,
            },
    {
        match find_visible(&self.redo) {
            Some(i) => Some(self.redo.remove(i)),
            None => None,
        }
    }

    /// Takes out the journal of an operation, wherever it stands. The undo side
    /// is looked at first.
    pub fn take_exact_managed_journal(&mut self, id: &str) -> (record: Option<JournalRecord>)
        ensures
            match (last_with_id(old(self).undo@, id@), last_with_id(old(self).redo@, id@)) {
                (Some(i), _) => record == Some(old(self).undo@[i]) && final(self).undo@ == old(self).undo@.remove(i) && final(self).redo@ == old(self).redo@,
                (None, Some(i)) => record == Some(old(self).redo@[i]) && final(self).redo@ == old(self).redo@.remove(i) && final(self).undo@ == old(self).undo@,
                (None, None) => record is None && final(self).undo@ == old(self).undo@ && final(self).redo@ == old(self).redo@,
            },
    {
        match find_with_id(&self.undo, id) {
            Some(i) => {
                return Some(self.undo.remove(i));
            },
            None => {},
        }
        match find_with_id(&self.redo, id) {
            Some(i) => Some(self.redo.remove(i)),
            None => None,
        }
    }

    /// The identities on the redo side, in order.
    pub fn redo_ids(&self) -> (ids: Vec<String>)
        ensures
            texts(ids@) == self.redo@.map_values(|record: JournalRecord| record.id@),
    {
        let mut ids: Vec<String> = Vec::new();
        for i in 0..self.redo.len()
            invariant
                ids@.len() == i,
                forall|k: int| 0 <= k < i ==> (#[trigger] ids@[k])@ == self.redo@[k].id@,
        {
            ids.push(self.redo[i].id.clone());
        }
        assert(texts(ids@) =~= self.redo@.map_values(|record: JournalRecord| record.id@));
        ids
    }

    /// Registers a new operation: it can be undone, and nothing can be redone
    /// any more. The redo side must be the one whose journals were set aside
    /// for removal; otherwise nothing changes.
    pub fn push_journal(&mut self, record: JournalRecord, expected_redo: &Vec<String>, now: i64) -> (expired:
        Option<Vec<String>>)
        ensures
            match expired {
                Some(ids) => {
                    &&& texts(expected_redo@) == old(self).redo@.map_values(
                        |record: JournalRecord| record.id@,
                    )
                    &&& final(self).undo@ == kept_records(old(self).undo@.push(record), now)
                    &&& final(self).redo@.len() == 0
                    &&& texts(ids@) == dropped_ids(old(self).undo@.push(record), now)
                },
                None => {
                    &&& texts(expected_redo@) != old(self).redo@.map_values(
                        |record: JournalRecord| record.id@,
                    )
                    &&& final(self).undo@ == old(self).undo@
                    &&& final(self).redo@ == old(self).redo@
                },
            },
    {
        let current = self.redo_ids();
        if !same_texts(&current, expected_redo) {
            return None;
        }
        self.redo.clear();
        self.undo.push(record);
        let ghost pushed = self.undo@;
        let ids = prune_history(self, now);
        proof {
            reveal(Seq::filter);
            assert(dropped_ids(Seq::<JournalRecord>::empty(), now) =~= Seq::<Seq<char>>::empty());
            assert(kept_records(Seq::<JournalRecord>::empty(), now) =~= Seq::<
                JournalRecord,
            >::empty());
            assert(texts(ids@) =~= dropped_ids(pushed, now));
        }
        Some(ids)
    }
}

fn same_texts(a: &Vec<String>, b: &Vec<String>) -> (equal: bool)
    ensures
        equal == (texts(a@) == texts(b@)),
{
    if a.len() != b.len() {
        assert(texts(a@).len() != texts(b@).len());
        return false;
    }
    for i in 0..a.len()
        invariant
            a@.len() == b@.len(),
            forall|k: int| 0 <= k < i ==> (#[trigger] a@[k])@ == b@[k]@,
    {
        if !text::same(a[i].as_str(), b[i].as_str()) {
            assert(texts(a@)[i as int] != texts(b@)[i as int]);
            return false;
        }
    }
    assert(texts(a@) =~= texts(b@));
    true
}

/// What a user is told about their history.
#[derive(Clone, Debug, PartialEq, Eq)]
pub struct FileManagerJournalStatus {
    pub can_undo: bool,
    pub can_redo: bool,
    pub undo_description: Option<String>,
    pub redo_description: Option<String>,
    /// When the operation to undo expires; nothing for one to recover.
    pub expires_at: Option<i64>,
    /// The sizes of all journals are known.
    pub retained_storage_bytes_exact: bool,
}

/// What a user is told about their history.
pub fn journal_status(history: &JournalHistory) -> (status: FileManagerJournalStatus)
    ensures
        match last_visible(history.undo@) {
            Some(i) => {
                let record = history.undo@[i];
                &&& status.can_undo
                &&& status.undo_description == Some(record.description)
                &&& status.expires_at == (if record.recovery {
                    None::<i64>
                } else {
                    Some(record.expires_at)
                })
            },
            None => !status.can_undo && status.undo_description is None && status.expires_at is None,
        },
        match last_visible(history.redo@) {
            Some(i) => status.can_redo && status.redo_description == Some(
                history.redo@[i].description,
            ),
            None => !status.can_redo && status.redo_description is None,
        },
        status.retained_storage_bytes_exact <==> (forall|i: int|
            0 <= i < history.undo@.len() ==> (#[trigger] history.undo@[i]).actions@.len() == 0) && (
        forall|i: int|
            0 <= i < history.redo@.len() ==> (#[trigger] history.redo@[i]).actions@.len() == 0),
{
    let (can_undo, undo_description, expires_at) = match find_visible(&history.undo) {
        Some(i) => {
            let record = &history.undo[i];
            (
                true,
                Some(record.description.clone()),
                if record.recovery {
                    None
                } else {
                    Some(record.expires_at)
                },
            )
        },
        None => (false, None, None),
    };
    let (can_redo, redo_description) = match find_visible(&history.redo) {
        Some(i) => (true, Some(history.redo[i].description.clone())),
        None => (false, None),
    };
    let retained_storage_bytes_exact = without_actions(&history.undo) && without_actions(
        &history.redo,
    );
    FileManagerJournalStatus {
        can_undo,
        can_redo,
        undo_description,
        redo_description,
        expires_at,
        retained_storage_bytes_exact,
    }
}

fn without_actions(records: &Vec<JournalRecord>) -> (none: bool)
    ensures
        none <==> forall|i: int|
            0 <= i < records@.len() ==> (#[trigger] records@[i]).actions@.len() == 0,
{
    for i in 0..records.len()
        invariant
            forall|k: int| 0 <= k < i ==> (#[trigger] records@[k]).actions@.len() == 0,
    {
        if records[i].actions.len() > 0 {
            assert(records@[i as int].actions@.len() > 0);
            return false;
        }
    }
    true
}

// ---------------------------------------------------------------------------
// Laws of the history
// ---------------------------------------------------------------------------

/// Undo offers the latest operation that is visible: none that comes after it is.
pub proof fn undo_offers_the_latest_visible_operation(records: Seq<JournalRecord>)
    ensures
        match last_visible(records) {
            Some(i) => 0 <= i < records.len() && is_visible(records[i]) && forall|j: int|
                i < j < records.len() ==> !is_visible(#[trigger] records[j]),
            None => forall|j: int| 0 <= j < records.len() ==> !is_visible(#[trigger] records[j]),
        },
    decreases records.len(),
{
    if records.len() > 0 && !is_visible(records.last()) {
        undo_offers_the_latest_visible_operation(records.drop_last());
        assert forall|j: int|
            0 <= j < records.len() && (last_visible(records) matches Some(i) ==> i
                < j) implies !is_visible(#[trigger] records[j]) by {
            if j < records.len() - 1 {
                assert(records.drop_last()[j] == records[j]);
            }
        }
    }
}

/// A hidden journal does not displace the operation that undo offers.
pub proof fn hidden_journals_do_not_displace_undo(records: Seq<JournalRecord>, hidden: JournalRecord)
    requires
        !is_visible(hidden),
    ensures
        last_visible(records.push(hidden)) == last_visible(records),
{
    assert(records.push(hidden).drop_last() =~= records);
}

/// Pruning keeps every journal that recovery or a decision still needs, and
/// every journal that has not expired.
pub proof fn pruning_keeps_what_is_needed(records: Seq<JournalRecord>, i: int, now: i64)
    requires
        0 <= i < records.len(),
        is_kept(records[i], now),
    ensures
        kept_records(records, now).contains(records[i]),
{
    let keeps = |record: JournalRecord| is_kept(record, now);
    records.filter_lemma(keeps);
    assert(keeps(records[i]));
}

/// Pruning keeps nothing that has expired.
pub proof fn pruning_keeps_nothing_else(records: Seq<JournalRecord>, i: int, now: i64)
    requires
        0 <= i < kept_records(records, now).len(),
    ensures
        is_kept(kept_records(records, now)[i], now),
{
    let keeps = |record: JournalRecord| is_kept(record, now);
    records.filter_lemma(keeps);
    assert(keeps(kept_records(records, now)[i]));
}

/// A journal is kept while it is needed: until its day is over, or as long as it
/// belongs to an undecided save, to an interrupted operation or to a transition.
pub proof fn journals_are_kept_while_needed(record: JournalRecord, now: i64)
    ensures
        !is_kept(record, now) <==> record.expires_at <= now && !record.durable_managed
            && !record.recovery && record.transition is None,
{
}

/// A journal lives for a day, belongs to who asked, and stands to be recovered until
/// its operation has ended.
pub proof fn new_journals_stand_for_their_operation(
    record: JournalRecord,
    root: ResolvedRoot,
    actor: Seq<char>,
    id: Seq<char>,
    operation: FileManagerOperation,
    execution_mode: FileManagerExecutionMode,
    durable_managed: bool,
    created_at: i64,
)
    requires
        is_new_journal(
            record,
            root,
            actor,
            id,
            operation,
            execution_mode,
            durable_managed,
            created_at,
        ),
    ensures
        record.expires_at - record.created_at == 24 * 60 * 60 * 1000,
        on_undo_side(record),
        record.durable_managed ==> record.managed && durable_managed,
        forall|now: i64| #[trigger] is_kept(record, now),
        is_visible(record),
        record.id@ == id && record.actor@ == actor && record.root_key@ == root.key@,
{
}

/// The named journal is the latest with that name.
pub proof fn latest_named_journals_are_found(records: Seq<JournalRecord>, id: Seq<char>)
    ensures
        match last_with_id(records, id) {
            Some(i) => 0 <= i < records.len() && records[i].id@ == id && forall|j: int|
                i < j < records.len() ==> (#[trigger] records[j]).id@ != id,
            None => forall|j: int| 0 <= j < records.len() ==> (#[trigger] records[j]).id@ != id,
        },
    decreases records.len(),
{
    if records.len() > 0 && records.last().id@ != id {
        let rest = records.drop_last();
        latest_named_journals_are_found(rest, id);
        let low = match last_with_id(rest, id) {
            Some(i) => i + 1,
            None => 0,
        };
        assert forall|j: int| low <= j < records.len() implies (#[trigger] records[j]).id@ != id by {
            if j < rest.len() {
                assert(rest[j] == records[j]);
            }
        }
    }
}

/// Pruning tells the name of every journal that it drops, and of no other.
pub proof fn dropped_journals_are_told(records: Seq<JournalRecord>, now: i64, id: Seq<char>)
    ensures
        dropped_ids(records, now).contains(id) <==> exists|i: int|
            0 <= i < records.len() && (#[trigger] records[i]).id@ == id && !is_kept(
                records[i],
                now,
            ),
        dropped_ids(records, now).len() + kept_records(records, now).len() == records.len(),
    decreases records.len(),
{
    reveal(Seq::filter);
    if records.len() > 0 {
        let rest = records.drop_last();
        let before = dropped_ids(rest, now);
        let all = dropped_ids(records, now);
        dropped_journals_are_told(rest, now, id);
        if all.contains(id) {
            let k = all.index_of(id);
            if k < before.len() {
                assert(before[k] == id);
                assert(before.contains(id));
                let i = choose|i: int|
                    0 <= i < rest.len() && (#[trigger] rest[i]).id@ == id && !is_kept(rest[i], now);
                assert(records[i] == rest[i]);
            } else {
                assert(records[records.len() - 1].id@ == id);
            }
        }
        if exists|i: int|
            0 <= i < records.len() && (#[trigger] records[i]).id@ == id && !is_kept(
                records[i],
                now,
            ) {
            let i = choose|i: int|
                0 <= i < records.len() && (#[trigger] records[i]).id@ == id && !is_kept(
                    records[i],
                    now,
                );
            if i < rest.len() {
                assert(rest[i] == records[i]);
                assert(before.contains(id));
                let k = before.index_of(id);
                assert(all[k] == id);
            } else {
                assert(all[all.len() - 1] == id);
            }
        }
    } else {
        assert forall|i: int| 0 <= i < records.len() implies (#[trigger] records[i]).id@ != id by {}
    }
}

/// The description of an interrupted operation says so, once, before what the
/// operation was.
pub proof fn interrupted_operations_say_so_once(description: Seq<char>)
    ensures
        RECOVERY_PREFIX@.is_prefix_of(recovery_description(description)),
        recovery_description(recovery_description(description)) == recovery_description(
            description,
        ),
        !RECOVERY_PREFIX@.is_prefix_of(description) ==> recovery_description(description).skip(
            RECOVERY_PREFIX@.len() as int,
        ) == description,
{
    let prefix = RECOVERY_PREFIX@;
    assert((prefix + description).take(prefix.len() as int) =~= prefix);
    assert((prefix + description).skip(prefix.len() as int) =~= description);
    assert(prefix.is_prefix_of(prefix + description));
}

} // verus!
