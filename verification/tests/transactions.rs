//! Durable saves of managed files.

use periphery::file_manager::journal::FileManagerExecutionMode;
use periphery::file_manager::journal::JournalHistorySide;
use periphery::file_manager::journal::JournalRecord;
use periphery::file_manager::operation::FileManagerOperation;
use periphery::file_manager::operation::FileManagerRevision;
use periphery::file_manager::operation::ResolvedRoot;
use periphery::file_manager::plans::OperationPlan;
use periphery::file_manager::transactions::begin_managed_transaction;
use periphery::file_manager::transactions::ensure_durable_managed_apply_is_current;
use periphery::file_manager::transactions::finalize_managed_transaction;
use periphery::file_manager::transactions::finish_durable_managed_apply;
use periphery::file_manager::transactions::judge_commit_journal;
use periphery::file_manager::transactions::judge_rollback_journal;
use periphery::file_manager::transactions::managed_save_is_open;
use periphery::file_manager::transactions::managed_transaction_is_open;
use periphery::file_manager::transactions::managed_transaction_is_prunable;
use periphery::file_manager::transactions::managed_transaction_status;
use periphery::file_manager::transactions::persist_managed_transaction_state;
use periphery::file_manager::transactions::prepare_durable_managed_commit;
use periphery::file_manager::transactions::Beginning;
use periphery::file_manager::transactions::DurableCommitDisposition;
use periphery::file_manager::transactions::FileManagerManagedTransactionFinalizeAction;
use periphery::file_manager::transactions::FileManagerManagedTransactionState;
use periphery::file_manager::transactions::begin_finalization;
use periphery::file_manager::transactions::finalized_record;
use periphery::file_manager::transactions::finalized_state;
use periphery::file_manager::transactions::follow_finalization;
use periphery::file_manager::transactions::FinalizeHappened;
use periphery::file_manager::transactions::FinalizeStage;
use periphery::file_manager::transactions::FinalizeStart;
use periphery::file_manager::transactions::JournalWork;
use periphery::file_manager::transactions::ManagedTransactionRecord;
use periphery::file_manager::transactions::TransactionError;
use periphery::file_manager::transactions::FINALIZED_MANAGED_TRANSACTION_TTL_MS;
use periphery::registry::Registry;

const ID: &str = "67e55044-10b1-426f-9247-bb680e5fe0c8";

fn root() -> ResolvedRoot {
    ResolvedRoot {
        path: "/srv/demo".to_string(),
        key: "root".to_string(),
        read_only: false,
        managed_file: Some("compose.yaml".to_string()),
        create_if_missing: true,
    }
}

fn plans() -> Registry<OperationPlan> {
    let mut plans = Registry::new();
    plans.insert(
        "plan".to_string(),
        OperationPlan {
            actor: "actor".to_string(),
            root_key: "root".to_string(),
            operation: FileManagerOperation::WriteText {
                path: "compose.yaml".to_string(),
                contents: "services: {}".to_string(),
                expected_revision: FileManagerRevision { id: String::new() },
            },
            expires_at: 100,
            conflicts: Vec::new(),
            confirmation_required: false,
            revisions: Vec::new(),
            copy_targets: Vec::new(),
            execution_mode: FileManagerExecutionMode::Recoverable,
            recursive_revisions: false,
        },
    );
    plans
}

fn record(state: FileManagerManagedTransactionState) -> ManagedTransactionRecord {
    ManagedTransactionRecord {
        operation_id: ID.to_string(),
        actor: "actor".to_string(),
        root_key: "root".to_string(),
        plan_id: "plan".to_string(),
        state,
        affected_paths: vec!["compose.yaml".to_string()],
        finalized_at: None,
    }
}

fn holding(state: FileManagerManagedTransactionState) -> Registry<ManagedTransactionRecord> {
    let mut transactions = Registry::new();
    transactions.insert(ID.to_string(), record(state));
    transactions
}

fn journal() -> JournalRecord {
    JournalRecord {
        id: ID.to_string(),
        actor: "actor".to_string(),
        root_key: "root".to_string(),
        root_path: "/srv/demo".to_string(),
        managed: true,
        durable_managed: true,
        recovery: false,
        history_side: JournalHistorySide::Undo,
        transition: None,
        created_at: 1,
        expires_at: 2,
        description: "Save text file".to_string(),
        execution_mode: FileManagerExecutionMode::Recoverable,
        actions: Vec::new(),
        cleanup_only: false,
        snapshots: Vec::new(),
        before_revisions: Vec::new(),
        after_revisions: Vec::new(),
    }
}

#[test]
fn one_save_is_open_for_each_root() {
    let empty: Registry<ManagedTransactionRecord> = Registry::new();
    let begun = begin_managed_transaction(
        &empty,
        &plans(),
        &root(),
        "actor",
        ID,
        "plan",
        vec!["compose.yaml".to_string()],
        50,
    )
    .unwrap();
    match begun {
        Beginning::New(record) => {
            assert_eq!(record.state, FileManagerManagedTransactionState::Prepared);
            assert_eq!(record.operation_id, ID);
        }
        Beginning::Existing(_) => panic!("nothing was there"),
    }
    let busy = holding(FileManagerManagedTransactionState::Applied);
    assert!(managed_save_is_open(&busy, "root"));
    assert!(!managed_save_is_open(&busy, "elsewhere"));
    assert_eq!(
        begin_managed_transaction(
            &busy,
            &plans(),
            &root(),
            "actor",
            "11111111-1111-4111-8111-111111111111",
            "plan",
            Vec::new(),
            50,
        ),
        Err(TransactionError::OtherOpen)
    );
    assert!(managed_transaction_is_open(
        FileManagerManagedTransactionState::CommitRequested
    ));
    assert!(!managed_transaction_is_open(
        FileManagerManagedTransactionState::Committed
    ));
}

#[test]
fn refused_saves_are_told_why() {
    let empty: Registry<ManagedTransactionRecord> = Registry::new();
    let begin = |root: &ResolvedRoot, actor: &str, id: &str, plan: &str, now: i64| {
        match begin_managed_transaction(&empty, &plans(), root, actor, id, plan, Vec::new(), now) {
            Ok(_) => panic!("begun"),
            Err(error) => error,
        }
    };
    assert_eq!(
        begin(&root(), "actor", "no uuid", "plan", 50),
        TransactionError::InvalidId
    );
    let unmanaged = ResolvedRoot {
        managed_file: None,
        ..root()
    };
    assert_eq!(
        begin(&unmanaged, "actor", ID, "plan", 50),
        TransactionError::NotManaged
    );
    assert_eq!(
        begin(&root(), "actor", ID, "other", 50),
        TransactionError::PlanMissing
    );
    assert_eq!(
        begin(&root(), "other", ID, "plan", 50),
        TransactionError::PlanOfOtherActor
    );
    assert_eq!(
        begin(&root(), "actor", ID, "plan", 101),
        TransactionError::PlanExpired
    );
}

#[test]
fn applied_saves_are_committed_or_rolled_back() {
    let prepared = holding(FileManagerManagedTransactionState::Prepared);
    match prepare_durable_managed_commit(&prepared, "root", "actor", ID, "plan").unwrap() {
        DurableCommitDisposition::Start(record) => {
            assert_eq!(record.state, FileManagerManagedTransactionState::Applying)
        }
        DurableCommitDisposition::Existing(_) => panic!("not begun yet"),
    }
    assert!(ensure_durable_managed_apply_is_current(
        FileManagerManagedTransactionState::Applying
    ));
    let applied = finish_durable_managed_apply(
        &record(FileManagerManagedTransactionState::Applying),
        true,
        false,
        9,
    )
    .unwrap();
    assert_eq!(applied.state, FileManagerManagedTransactionState::Applied);
    let failed = finish_durable_managed_apply(
        &record(FileManagerManagedTransactionState::Applying),
        false,
        true,
        9,
    )
    .unwrap();
    assert_eq!(
        failed.state,
        FileManagerManagedTransactionState::RollbackRequested
    );
    let commit = FileManagerManagedTransactionFinalizeAction::Commit;
    let rollback = FileManagerManagedTransactionFinalizeAction::Rollback;
    assert_eq!(
        finalize_managed_transaction(
            &holding(FileManagerManagedTransactionState::Applied),
            "root",
            "actor",
            ID,
            commit
        ),
        Ok(FinalizeStart::Mark(
            FileManagerManagedTransactionState::CommitRequested
        ))
    );
    assert_eq!(
        finalize_managed_transaction(&prepared, "root", "actor", ID, commit),
        Err(TransactionError::NotReady)
    );
    assert_eq!(
        finalize_managed_transaction(
            &holding(FileManagerManagedTransactionState::Committed),
            "root",
            "actor",
            ID,
            rollback
        ),
        Err(TransactionError::AlreadyCommitted)
    );
    assert_eq!(
        finalize_managed_transaction(
            &holding(FileManagerManagedTransactionState::RolledBack),
            "root",
            "actor",
            ID,
            rollback
        ),
        Ok(FinalizeStart::Done)
    );
    assert_eq!(
        finalize_managed_transaction(&prepared, "root", "other", ID, rollback),
        Err(TransactionError::NotFound)
    );
}

#[test]
fn journals_of_saves_are_retired_or_restored() {
    assert_eq!(
        judge_commit_journal(&Some(journal()), false, "root", "actor", ID),
        Ok(JournalWork::Retire)
    );
    assert_eq!(
        judge_commit_journal(&None, false, "root", "actor", ID),
        Err(TransactionError::JournalMissing)
    );
    assert_eq!(
        judge_commit_journal(&None, true, "root", "actor", ID),
        Ok(JournalWork::Nothing)
    );
    assert_eq!(
        judge_commit_journal(&Some(journal()), false, "root", "other", ID),
        Err(TransactionError::JournalMismatch)
    );
    assert_eq!(
        judge_rollback_journal(
            &Some(journal()),
            FileManagerManagedTransactionState::Applied,
            "root",
            "actor",
            ID
        ),
        Ok(JournalWork::Restore { verify: true })
    );
    let recovery = JournalRecord {
        recovery: true,
        ..journal()
    };
    assert_eq!(
        judge_commit_journal(&Some(recovery), false, "root", "actor", ID),
        Err(TransactionError::JournalNotApplied)
    );
}

#[test]
fn decisions_end_in_their_own_state() {
    let commit = FileManagerManagedTransactionFinalizeAction::Commit;
    let rollback = FileManagerManagedTransactionFinalizeAction::Rollback;
    let committed = FileManagerManagedTransactionState::Committed;
    let rolled_back = FileManagerManagedTransactionState::RolledBack;
    assert_eq!(finalized_state(commit), committed);
    assert_eq!(finalized_state(rollback), rolled_back);
    let judged = |work: Result<JournalWork, TransactionError>| FinalizeHappened::Judged { work };

    let requested = FileManagerManagedTransactionState::CommitRequested;
    let stage = begin_finalization(FinalizeStart::Mark(requested), commit);
    assert_eq!(stage, FinalizeStage::Mark { state: requested });
    let applied = record(FileManagerManagedTransactionState::Applied);
    let marked = finalized_record(stage, &applied, 7).unwrap();
    assert_eq!(marked.state, requested);
    assert_eq!(marked.finalized_at, None);
    let stage = follow_finalization(stage, commit, FinalizeHappened::Succeeded);
    assert_eq!(stage, FinalizeStage::Judge);
    let stage = follow_finalization(stage, commit, judged(Ok(JournalWork::Retire)));
    assert_eq!(stage, FinalizeStage::Work { work: JournalWork::Retire });
    assert!(finalized_record(stage, &marked, 8).is_none());
    let failed = follow_finalization(stage, commit, FinalizeHappened::Failed);
    assert_eq!(failed, FinalizeStage::PutBack { error: None });
    assert_eq!(
        follow_finalization(failed, commit, FinalizeHappened::Succeeded),
        FinalizeStage::Failed
    );
    let stage = follow_finalization(stage, commit, FinalizeHappened::Succeeded);
    let done = finalized_record(stage, &marked, 9).unwrap();
    assert_eq!(done.state, committed);
    assert_eq!(done.finalized_at, Some(9));
    assert_eq!(
        follow_finalization(stage, commit, FinalizeHappened::Succeeded),
        FinalizeStage::Decided { state: committed }
    );

    assert_eq!(
        begin_finalization(FinalizeStart::Done, rollback),
        FinalizeStage::Decided { state: rolled_back }
    );
    assert_eq!(
        begin_finalization(FinalizeStart::Retry, commit),
        FinalizeStage::Judge
    );
    assert_eq!(
        follow_finalization(
            FinalizeStage::Judge,
            rollback,
            judged(Ok(JournalWork::Nothing))
        ),
        FinalizeStage::Record { state: rolled_back }
    );
    assert_eq!(
        follow_finalization(
            FinalizeStage::Judge,
            commit,
            judged(Err(TransactionError::JournalNotApplied))
        ),
        FinalizeStage::PutBack {
            error: Some(TransactionError::JournalNotApplied)
        }
    );
    assert_eq!(
        follow_finalization(
            FinalizeStage::Judge,
            commit,
            judged(Err(TransactionError::JournalMismatch))
        ),
        FinalizeStage::Refused {
            error: TransactionError::JournalMismatch
        }
    );
}

#[test]
fn finalized_saves_are_told_for_a_while() {
    let done = persist_managed_transaction_state(
        &record(FileManagerManagedTransactionState::CommitRequested),
        FileManagerManagedTransactionState::Committed,
        1_000,
    );
    assert_eq!(done.finalized_at, Some(1_000));
    assert!(!managed_transaction_is_prunable(&done, 1_001));
    assert!(managed_transaction_is_prunable(
        &done,
        1_001 + FINALIZED_MANAGED_TRANSACTION_TTL_MS
    ));
    let mut transactions = Registry::new();
    transactions.insert(ID.to_string(), done);
    let status = managed_transaction_status(&transactions, "root", "actor", ID)
        .unwrap()
        .unwrap();
    assert_eq!(status.state, FileManagerManagedTransactionState::Committed);
    assert_eq!(
        managed_transaction_status(&transactions, "root", "actor", "no uuid"),
        Err(TransactionError::InvalidId)
    );
}
