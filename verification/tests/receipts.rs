//! Receipts of dispatched operations, journals of restores and their
//! finalization.

use std::collections::HashMap;

use periphery::backup::finalization::admit_identities;
use periphery::backup::finalization::admit_finalization;
use periphery::backup::cancellation::OperationCancellationRegistry;
use periphery::backup::cancellation::MAX_PENDING_CANCELLATIONS;
use periphery::backup::cancellation::PENDING_CANCELLATION_TTL_MS;
use periphery::backup::finalization::after_finalization;
use periphery::backup::finalization::commit_entry_steps;
use periphery::backup::finalization::conclude_finalization;
use periphery::backup::finalization::ensure_recovery_directories_empty;
use periphery::backup::finalization::finalize_restore_publication;
use periphery::backup::finalization::mark_finalized;
use periphery::backup::finalization::recover_restore_journal;
use periphery::backup::finalization::recover_restore_journals;
use periphery::backup::finalization::restarts_containers;
use periphery::backup::finalization::run_finalize_restore;
use periphery::backup::finalization::AfterOutcome;
use periphery::backup::finalization::FileWork;
use periphery::backup::finalization::Finalization;
use periphery::backup::finalization::FinalizeError;
use periphery::backup::finalization::FoundJournal;
use periphery::backup::finalization::JournalRecovery;
use periphery::backup::finalization::OutcomeSource;
use periphery::backup::publication::EntryStep;
use periphery::backup::receipts::backup_completion_path;
use periphery::backup::receipts::claim_backup_completion;
use periphery::backup::receipts::claim_dispatch_completion;
use periphery::backup::receipts::finalization_from_origin;
use periphery::backup::receipts::finish_backup_completion;
use periphery::backup::receipts::persist_finalization_proof;
use periphery::backup::receipts::query_backup_completion;
use periphery::backup::receipts::recover_receipt;
use periphery::backup::receipts::recovered_dispatch_completion;
use periphery::backup::receipts::recovery_reading;
use periphery::backup::receipts::restore_origin_receipt;
use periphery::backup::receipts::BackupCompletionReceipt;
use periphery::backup::receipts::BackupDispatchKind;
use periphery::backup::receipts::Claim;
use periphery::backup::receipts::FinalizeVykarRestore;
use periphery::backup::receipts::FinalizeVykarRestoreResponse;
use periphery::backup::receipts::GetVykarBackupCompletion;
use periphery::backup::receipts::ReceiptError;
use periphery::backup::receipts::RunVykarBackupBatchResponse;
use periphery::backup::receipts::RunVykarBackupResponse;
use periphery::backup::receipts::TransactionalVykarRestoreResponse;
use periphery::backup::receipts::VykarBackupCompletion;
use periphery::backup::receipts::VykarBackupCompletionState;
use periphery::backup::receipts::VykarBackupRepositoryResult;
use periphery::backup::restore_journal::journal_file_name;
use periphery::backup::restore_journal::restore_has_pending_journals;
use periphery::backup::restore_journal::validate_restore_journal_id;
use periphery::backup::restore_journal::RestoreJournal;

/// The receipts of a worker.
struct Store {
    receipts: HashMap<String, BackupCompletionReceipt>,
}

impl Store {
    fn new() -> Store {
        Store {
            receipts: HashMap::new(),
        }
    }

    fn read(&self, id: &str) -> Result<Option<BackupCompletionReceipt>, ReceiptError> {
        let path = backup_completion_path("/receipts", id)?;
        Ok(self.receipts.get(&path).cloned())
    }

    fn write(&mut self, id: &str, receipt: BackupCompletionReceipt) {
        let path = backup_completion_path("/receipts", id).unwrap();
        self.receipts.insert(path, receipt);
    }

    fn settle(
        &mut self,
        id: &str,
        claim: Result<Claim, ReceiptError>,
    ) -> Result<Option<VykarBackupCompletion>, ReceiptError> {
        match claim? {
            Claim::Replay(completion) => Ok(Some(completion)),
            Claim::Start(receipt) => {
                self.write(id, receipt);
                Ok(None)
            }
        }
    }

    fn claim_dispatch(
        &mut self,
        id: &str,
        core: &str,
        run_id: &str,
        kind: BackupDispatchKind,
    ) -> Result<Option<VykarBackupCompletion>, ReceiptError> {
        let claim = claim_dispatch_completion(self.read(id)?, core, run_id, kind);
        self.settle(id, claim)
    }

    fn claim_backup(
        &mut self,
        id: &str,
        batch: bool,
    ) -> Result<Option<VykarBackupCompletion>, ReceiptError> {
        let claim = claim_backup_completion(self.read(id)?, "core", "run", batch);
        self.settle(id, claim)
    }

    fn finish(&mut self, id: &str, completion: VykarBackupCompletion) -> Result<(), ReceiptError> {
        let receipt = finish_backup_completion(self.read(id)?, "core", "run", completion)?;
        self.write(id, receipt);
        Ok(())
    }

    fn query(
        &mut self,
        request: &GetVykarBackupCompletion,
        core: &str,
    ) -> Result<VykarBackupCompletion, ReceiptError> {
        let answer = query_backup_completion(self.read(&request.operation_id)?, request, core)?;
        if let Some(receipt) = answer.store {
            self.write(&request.operation_id, receipt);
        }
        Ok(answer.response)
    }

    fn origin(
        &self,
        request: &FinalizeVykarRestore,
        core: &str,
    ) -> Result<BackupCompletionReceipt, ReceiptError> {
        let existing = if request.restore_operation_id.is_empty() {
            None
        } else {
            self.read(&request.restore_operation_id)?
        };
        restore_origin_receipt(existing, request, core)
    }
}

fn new_id() -> String {
    uuid::Uuid::new_v4().to_string()
}

fn empty(state: VykarBackupCompletionState) -> VykarBackupCompletion {
    VykarBackupCompletion::empty(state)
}

fn repository() -> VykarBackupRepositoryResult {
    VykarBackupRepositoryResult {
        complete: false,
        partial: false,
        files: 0,
        original_size: 0,
        stored_size: 0,
        error: None,
    }
}

fn restore_receipt(
    kind: BackupDispatchKind,
    state: VykarBackupCompletionState,
) -> BackupCompletionReceipt {
    BackupCompletionReceipt {
        core: "core".to_string(),
        run_id: "run".to_string(),
        batch: None,
        kind: Some(kind),
        finalized: None,
        completion: empty(state),
    }
}

fn restore_kind() -> BackupDispatchKind {
    BackupDispatchKind::Restore {
        journal_id: "journal".to_string(),
        deferred: true,
    }
}

fn finalize_request(original: &str) -> FinalizeVykarRestore {
    FinalizeVykarRestore {
        operation_id: new_id(),
        run_id: "run".to_string(),
        restore_operation_id: original.to_string(),
        journal_id: "journal".to_string(),
        commit: false,
        acknowledge: true,
    }
}

fn finalize_kind(request: &FinalizeVykarRestore) -> BackupDispatchKind {
    BackupDispatchKind::FinalizeRestore {
        journal_id: request.journal_id.clone(),
        restore_operation_id: request.restore_operation_id.clone(),
        commit: request.commit,
        acknowledge: request.acknowledge,
    }
}

fn completion_query(operation_id: &str) -> GetVykarBackupCompletion {
    GetVykarBackupCompletion {
        operation_id: operation_id.to_string(),
        run_id: "run".to_string(),
        cancel_if_unknown: false,
        acknowledge: false,
    }
}

fn journal() -> RestoreJournal {
    RestoreJournal {
        staging: String::new(),
        entries: Vec::new(),
        committed: false,
        finalized: false,
        deferred: true,
        completed: false,
        owned_volume: None,
    }
}

#[test]
fn legacy_backup_receipts_keep_their_original_dispatch_kind() {
    let receipt = BackupCompletionReceipt {
        core: "core".to_string(),
        run_id: "run".to_string(),
        batch: Some(true),
        kind: None,
        finalized: None,
        completion: empty(VykarBackupCompletionState::Unknown),
    };
    assert_eq!(receipt.kind(), Some(BackupDispatchKind::BackupBatch));
}

#[test]
fn prepared_restore_replays_without_reexecution_or_acknowledgement() {
    let mut store = Store::new();
    let id = new_id();
    store
        .claim_dispatch(&id, "core", "run", restore_kind())
        .unwrap();
    assert!(store
        .claim_dispatch(&id, "core", "run", BackupDispatchKind::Backup)
        .is_err());
    assert!(store
        .claim_dispatch(
            &id,
            "core",
            "run",
            BackupDispatchKind::Restore {
                journal_id: "different".to_string(),
                deferred: true
            }
        )
        .is_err());
    let mut prepared = empty(VykarBackupCompletionState::Prepared);
    prepared.restore_result = Some(TransactionalVykarRestoreResponse {
        complete: true,
        rolled_back: false,
        finalization_pending: true,
        containers_restarted: Vec::new(),
        critical_error: None,
    });
    store.finish(&id, prepared).unwrap();
    let replay = store
        .claim_dispatch(&id, "core", "run", restore_kind())
        .unwrap()
        .unwrap();
    assert_eq!(replay.state, VykarBackupCompletionState::Prepared);
    let mut acknowledge = completion_query(&id);
    acknowledge.acknowledge = true;
    store.query(&acknowledge, "core").unwrap();
    assert!(
        store
            .read(&id)
            .unwrap()
            .unwrap()
            .completion
            .restore_result
            .unwrap()
            .finalization_pending
    );
}

#[test]
fn interrupted_restore_is_not_terminal_while_recovery_is_pending() {
    for deferred in [false, true] {
        let receipt = restore_receipt(
            BackupDispatchKind::Restore {
                journal_id: "journal".to_string(),
                deferred,
            },
            VykarBackupCompletionState::Running,
        );
        assert_eq!(
            recovered_dispatch_completion(receipt, None, true, None)
                .completion
                .state,
            VykarBackupCompletionState::RecoveryRequired
        );
    }
    let prepared = restore_receipt(restore_kind(), VykarBackupCompletionState::Prepared);
    assert_eq!(
        recovered_dispatch_completion(prepared, None, false, None)
            .completion
            .state,
        VykarBackupCompletionState::RecoveryRequired
    );
    let ordinary = restore_receipt(
        BackupDispatchKind::Restore {
            journal_id: "journal".to_string(),
            deferred: false,
        },
        VykarBackupCompletionState::Running,
    );
    let recovered = recovered_dispatch_completion(ordinary, None, false, None).completion;
    assert_eq!(recovered.state, VykarBackupCompletionState::Complete);
    assert!(recovered.error.is_some());
    assert!(recovered.restore_result.is_none());
}

#[test]
fn completed_restore_journal_provides_a_recovered_final_outcome() {
    let receipt = restore_receipt(restore_kind(), VykarBackupCompletionState::RecoveryRequired);
    let mut done = RestoreJournal {
        committed: true,
        finalized: true,
        completed: true,
        ..journal()
    };
    for commit in [false, true] {
        done.committed = commit;
        let result = recovered_dispatch_completion(receipt.clone(), Some(&done), false, None)
            .completion
            .restore_result
            .unwrap();
        assert_eq!(result.complete, commit);
        assert_eq!(result.rolled_back, !commit);
        assert!(!result.finalization_pending);
    }
}

#[test]
fn finalization_requires_matching_nonrunning_original_authority() {
    let mut store = Store::new();
    let original = new_id();
    store
        .claim_dispatch(&original, "core", "run", restore_kind())
        .unwrap();
    let request = finalize_request(&original);
    assert!(store.origin(&request, "core").is_err());
    store
        .finish(&original, empty(VykarBackupCompletionState::Prepared))
        .unwrap();
    let unchanged = store.read(&original).unwrap().unwrap();
    let mut other_run = request.clone();
    other_run.run_id = "other-run".to_string();
    let mut other_journal = request.clone();
    other_journal.journal_id = "other-journal".to_string();
    for (invalid, core) in [
        (request.clone(), "other-core"),
        (other_run, "core"),
        (other_journal, "core"),
        (finalize_request(""), "core"),
    ] {
        assert!(store.origin(&invalid, core).is_err());
        assert_eq!(store.read(&original).unwrap().unwrap(), unchanged);
    }
    assert!(store.origin(&request, "core").is_ok());
}

#[test]
fn finalization_proof_survives_journal_erasure_and_receipt_acknowledgement() {
    let mut store = Store::new();
    let original_id = new_id();
    store
        .claim_dispatch(&original_id, "core", "run", restore_kind())
        .unwrap();
    store
        .finish(&original_id, empty(VykarBackupCompletionState::Prepared))
        .unwrap();
    let request = finalize_request(&original_id);
    store
        .claim_dispatch(&request.operation_id, "core", "run", finalize_kind(&request))
        .unwrap();
    let outcome = FinalizeVykarRestoreResponse {
        complete: true,
        rolled_back: true,
        containers_restarted: vec!["writer".to_string()],
        critical_error: None,
    };
    let stored = persist_finalization_proof(
        store.read(&request.operation_id).unwrap(),
        store.read(&original_id).unwrap(),
        &request,
        "core",
        &outcome,
    )
    .unwrap();
    store.write(&request.operation_id, stored.dispatch);
    store.write(&original_id, stored.origin.unwrap());
    let finalizer = store.read(&request.operation_id).unwrap().unwrap();
    assert_eq!(
        finalizer.completion.state,
        VykarBackupCompletionState::Running
    );
    assert!(finalizer.finalized.is_some());
    let original = store.read(&original_id).unwrap().unwrap();
    assert_eq!(
        original.completion.state,
        VykarBackupCompletionState::Complete
    );
    let restored = original.completion.restore_result.as_ref().unwrap();
    assert!(restored.rolled_back);
    assert!(!restored.finalization_pending);
    assert_eq!(restored.containers_restarted, ["writer"]);
    let recovered =
        recovered_dispatch_completion(finalizer, None, false, Some(&original)).completion;
    assert_eq!(recovered.state, VykarBackupCompletionState::Complete);
    assert!(recovered.finalize_restore_result.unwrap().rolled_back);
    let mut acknowledged = completion_query(&request.restore_operation_id);
    acknowledged.acknowledge = true;
    store.query(&acknowledged, "core").unwrap();
    let original = store.origin(&request, "core").unwrap();
    assert!(original.completion.restore_result.is_none());
    assert!(
        finalization_from_origin(Some(&original), false)
            .unwrap()
            .rolled_back
    );
    assert!(finalization_from_origin(Some(&original), true).is_err());
}

#[test]
fn missing_journal_without_finalization_proof_stays_unresolved() {
    let request = finalize_request(&new_id());
    let receipt = restore_receipt(finalize_kind(&request), VykarBackupCompletionState::Running);
    assert_eq!(
        recovered_dispatch_completion(receipt, None, false, None)
            .completion
            .state,
        VykarBackupCompletionState::RecoveryRequired
    );
    assert!(finalization_from_origin(None, false).is_err());
    let prepared = restore_receipt(restore_kind(), VykarBackupCompletionState::Prepared);
    assert!(finalization_from_origin(Some(&prepared), false).is_err());
}

#[test]
fn fenced_restore_never_starts_and_cannot_be_committed() {
    let mut store = Store::new();
    let id = new_id();
    let mut fence = completion_query(&id);
    fence.cancel_if_unknown = true;
    store.query(&fence, "core").unwrap();
    assert!(store
        .claim_dispatch(&id, "core", "run", restore_kind())
        .unwrap()
        .unwrap()
        .error
        .is_some());
    let origin = store.read(&id).unwrap().unwrap();
    assert!(
        finalization_from_origin(Some(&origin), false)
            .unwrap()
            .rolled_back
    );
    assert!(finalization_from_origin(Some(&origin), true).is_err());
}

#[test]
fn finalize_dispatch_identity_binds_the_decision_and_acknowledgement() {
    let mut store = Store::new();
    let mut request = finalize_request(&new_id());
    let operation_id = request.operation_id.clone();
    store
        .claim_dispatch(&operation_id, "core", "run", finalize_kind(&request))
        .unwrap();
    request.commit = !request.commit;
    assert!(store
        .claim_dispatch(&operation_id, "core", "run", finalize_kind(&request))
        .is_err());
    request.commit = !request.commit;
    request.acknowledge = !request.acknowledge;
    assert!(store
        .claim_dispatch(&operation_id, "core", "run", finalize_kind(&request))
        .is_err());
    assert!(store
        .claim_dispatch("", "core", "run", restore_kind())
        .is_err());
    assert!(store
        .claim_dispatch(&new_id(), "core", "", restore_kind())
        .is_err());
}

#[test]
fn durable_backup_claim_replays_completion_and_acknowledgement_fences_reuse() {
    let mut store = Store::new();
    let id = new_id();
    assert!(store.claim_backup(&id, true).unwrap().is_none());
    assert!(store.claim_backup(&id, true).is_err());
    assert_eq!(
        store.query(&completion_query(&id), "core").unwrap().state,
        VykarBackupCompletionState::Running
    );
    assert!(store.query(&completion_query(&id), "other-core").is_err());
    let mut wrong_run = completion_query(&id);
    wrong_run.run_id = "different-run".to_string();
    assert!(store.query(&wrong_run, "core").is_err());
    let mut done = empty(VykarBackupCompletionState::Complete);
    done.batch_result = Some(RunVykarBackupBatchResponse {
        results: Vec::new(),
        discovery_errors: Vec::new(),
        restart_errors: Vec::new(),
    });
    store.finish(&id, done).unwrap();
    assert!(store.claim_backup(&id, false).is_err());
    assert!(store
        .claim_backup(&id, true)
        .unwrap()
        .unwrap()
        .batch_result
        .is_some());
    let mut acknowledge = completion_query(&id);
    acknowledge.acknowledge = true;
    assert!(store
        .query(&acknowledge, "core")
        .unwrap()
        .batch_result
        .is_some());
    let replay = store.claim_backup(&id, true).unwrap().unwrap();
    assert_eq!(replay.state, VykarBackupCompletionState::Complete);
    assert!(replay.batch_result.is_none());
    assert!(replay.error.unwrap().contains("acknowledged"));
}

#[test]
fn unknown_backup_fence_prevents_a_late_dispatch() {
    let mut store = Store::new();
    let id = new_id();
    let mut query = completion_query(&id);
    assert_eq!(
        store.query(&query, "core").unwrap().state,
        VykarBackupCompletionState::Unknown
    );
    query.cancel_if_unknown = true;
    let fenced = store.query(&query, "core").unwrap();
    assert_eq!(fenced.state, VykarBackupCompletionState::Complete);
    assert!(store
        .claim_backup(&id, false)
        .unwrap()
        .unwrap()
        .error
        .unwrap()
        .contains("before it started"));
    assert!(store.claim_backup("../invalid", false).is_err());
}

#[test]
fn startup_reconciles_running_receipts_without_overwriting_completed_results() {
    let mut store = Store::new();
    let running = new_id();
    let done = new_id();
    for id in [&running, &done] {
        store.claim_backup(id, false).unwrap();
    }
    let mut completed = empty(VykarBackupCompletionState::Complete);
    completed.result = Some(RunVykarBackupResponse {
        excluded: None,
        primary: repository(),
        mirror: None,
        stopped_containers: Vec::new(),
        restarted_containers: Vec::new(),
        restart_errors: Vec::new(),
    });
    store.finish(&done, completed).unwrap();
    for id in [&running, &done] {
        let receipt = store.read(id).unwrap().unwrap();
        if let Some(recovered) = recover_receipt(receipt, None, false, None) {
            store.write(id, recovered);
        }
    }
    assert!(store
        .query(&completion_query(&running), "core")
        .unwrap()
        .error
        .unwrap()
        .contains("interrupted"));
    assert!(store
        .query(&completion_query(&done), "core")
        .unwrap()
        .result
        .is_some());
}

#[test]
fn refused_claims_are_told_why() {
    assert!(matches!(
        claim_dispatch_completion(None, "", "run", restore_kind()),
        Err(ReceiptError::MissingIdentity)
    ));
    let running = restore_receipt(restore_kind(), VykarBackupCompletionState::Running);
    assert!(matches!(
        claim_dispatch_completion(Some(running.clone()), "other", "run", restore_kind()),
        Err(ReceiptError::ForeignOwner)
    ));
    assert!(matches!(
        claim_dispatch_completion(
            Some(running.clone()),
            "core",
            "run",
            BackupDispatchKind::Backup
        ),
        Err(ReceiptError::DifferentKind)
    ));
    assert!(matches!(
        claim_dispatch_completion(Some(running), "core", "run", restore_kind()),
        Err(ReceiptError::AlreadyRunning)
    ));
    assert_eq!(
        backup_completion_path("/receipts", "nothing"),
        Err(ReceiptError::InvalidOperation)
    );
    assert_eq!(
        backup_completion_path("/receipts", "67E55044-10B1-426F-9247-BB680E5FE0C8").unwrap(),
        "/receipts/67e55044-10b1-426f-9247-bb680e5fe0c8.json"
    );
    assert!(matches!(
        finish_backup_completion(
            None,
            "core",
            "run",
            empty(VykarBackupCompletionState::Complete)
        ),
        Err(ReceiptError::Disappeared)
    ));
}

#[test]
fn recovery_reads_what_a_receipt_names() {
    let request = finalize_request("origin");
    let reading = recovery_reading(&restore_receipt(
        finalize_kind(&request),
        VykarBackupCompletionState::Running,
    ));
    assert_eq!(reading.journal_id.as_deref(), Some("journal"));
    assert_eq!(reading.origin_id.as_deref(), Some("origin"));
    let untracked = finalize_request("");
    let reading = recovery_reading(&restore_receipt(
        finalize_kind(&untracked),
        VykarBackupCompletionState::Running,
    ));
    assert_eq!(reading.origin_id, None);
    let backup = recovery_reading(&restore_receipt(
        BackupDispatchKind::Backup,
        VykarBackupCompletionState::Running,
    ));
    assert_eq!(backup.journal_id, None);
}

#[test]
fn overlapping_dispatch_registrations_share_cancellation_until_the_last_finishes() {
    let id = new_id();
    let mut registry = OperationCancellationRegistry::new();
    assert!(!registry.register_operation_cancellation(&id, 0));
    assert!(!registry.register_operation_cancellation(&id, 0));
    registry.unregister(&id);
    registry.request_operation_cancellation(&id, 0);
    assert!(registry.operation_cancelled(&id));
    registry.unregister(&id);
    assert!(registry.active.get(&id).is_none());
}

#[test]
fn cancellation_registration_shares_and_cleans_up_token() {
    let id = "cancellable-backup-test";
    let mut registry = OperationCancellationRegistry::new();
    registry.register_operation_cancellation(id, 0);
    assert!(registry.request_operation_cancellation(id, 0));
    assert!(registry.operation_cancelled(id));
    registry.unregister(id);
    assert!(!registry.operation_cancelled(id));
}

#[test]
fn cancellation_before_registration_is_bounded_and_consumed() {
    let id = "early-cancellable-backup-test";
    let mut registry = OperationCancellationRegistry::new();
    assert!(registry.request_operation_cancellation(id, 0));
    assert!(registry.active.get(id).is_none());
    assert!(registry.pending.get(id).is_some());
    assert!(registry.pending.len() <= MAX_PENDING_CANCELLATIONS);
    assert!(registry.register_operation_cancellation(id, 1));
    assert!(registry.pending.get(id).is_none());
    registry.unregister(id);
}

#[test]
fn early_cancellations_expire_and_are_bounded() {
    let mut registry = OperationCancellationRegistry::new();
    registry.request_operation_cancellation("a", 0);
    assert!(!registry.register_operation_cancellation("a", PENDING_CANCELLATION_TTL_MS + 1));
    let mut full = OperationCancellationRegistry::new();
    for index in 0..MAX_PENDING_CANCELLATIONS {
        assert!(full.request_operation_cancellation(&format!("{index}"), 0));
    }
    assert!(full.request_operation_cancellation("one more", 0));
    assert_eq!(full.pending.len(), MAX_PENDING_CANCELLATIONS);
    assert!(full.pending.get("one more").is_some());
}

#[test]
fn pending_journals_gate_new_work_until_recovery_removes_them() {
    assert_eq!(ensure_recovery_directories_empty(&Vec::new()), None);
    assert_eq!(
        ensure_recovery_directories_empty(&vec![None, Some("json".to_string())]),
        Some(1)
    );
    assert_eq!(
        ensure_recovery_directories_empty(&vec![Some("tmp".to_string())]),
        None
    );
}

#[test]
fn journals_are_named_inside_their_directory() {
    assert!(validate_restore_journal_id("abc-DEF_123"));
    assert!(!validate_restore_journal_id("../escape"));
    assert!(!validate_restore_journal_id(""));
    assert_eq!(journal_file_name("abc"), "abc.json");
    assert!(restore_has_pending_journals(Some(&journal()), false, false));
    let completed = RestoreJournal {
        completed: true,
        finalized: true,
        ..journal()
    };
    assert!(!restore_has_pending_journals(Some(&completed), false, false));
    assert!(restore_has_pending_journals(None, true, false));
    assert!(restore_has_pending_journals(None, false, true));
    assert!(!restore_has_pending_journals(None, false, false));
}

#[test]
fn decisions_over_a_restore_are_final() {
    let undecided = journal();
    assert!(matches!(
        finalize_restore_publication(Some(&undecided), true, false),
        Ok(Finalization::Work(FileWork::Commit))
    ));
    assert!(matches!(
        finalize_restore_publication(Some(&undecided), false, false),
        Ok(Finalization::Work(FileWork::RollBack))
    ));
    let committed = mark_finalized(journal(), true);
    assert!(matches!(
        finalize_restore_publication(Some(&committed), true, false),
        Ok(Finalization::Work(_))
    ));
    assert!(matches!(
        finalize_restore_publication(Some(&committed), false, false),
        Err(FinalizeError::OppositeDecision)
    ));
    let durable = RestoreJournal {
        committed: true,
        ..journal()
    };
    assert!(matches!(
        finalize_restore_publication(Some(&durable), false, false),
        Err(FinalizeError::CommitDurable)
    ));
    assert!(matches!(
        finalize_restore_publication(None, true, false),
        Err(FinalizeError::NoPublication)
    ));
}

#[test]
fn finalizations_end_with_their_containers() {
    let failed = conclude_finalization(
        true,
        true,
        Some((
            vec!["web".to_string()],
            vec!["worker did not start".to_string()],
        )),
    );
    assert!(!failed.remove_journal);
    assert!(failed
        .response
        .critical_error
        .unwrap()
        .contains("worker did not start"));
    let done = conclude_finalization(true, true, None);
    assert!(done.response.complete);
    assert!(done.response.critical_error.is_none());

    let origin = restore_receipt(restore_kind(), VykarBackupCompletionState::Prepared);
    assert_eq!(
        run_finalize_restore(true, &origin, true),
        Ok(OutcomeSource::Journal)
    );
    let clean = FinalizeVykarRestoreResponse::clean(true);
    assert_eq!(
        after_finalization(&clean, false, true),
        Ok(AfterOutcome::ProveAndRemove)
    );
    assert_eq!(
        after_finalization(&clean, true, false),
        Err(FinalizeError::UnreconciledChildren)
    );
}

#[test]
fn restarts_respect_what_was_decided() {
    assert_eq!(
        recover_restore_journal(&journal()),
        JournalRecovery::LeaveUndecided
    );
    let plain = RestoreJournal {
        deferred: false,
        ..journal()
    };
    assert_eq!(recover_restore_journal(&plain), JournalRecovery::RollBack);
    let committed = RestoreJournal {
        deferred: false,
        committed: true,
        ..journal()
    };
    assert_eq!(
        recover_restore_journal(&committed),
        JournalRecovery::FinishCommit
    );
    let plan = recover_restore_journals(&vec![
        FoundJournal {
            id: "a".to_string(),
            journal: journal(),
        },
        FoundJournal {
            id: "b".to_string(),
            journal: plain,
        },
    ]);
    assert_eq!(
        plan.recoveries,
        vec![JournalRecovery::LeaveUndecided, JournalRecovery::RollBack]
    );
    assert_eq!(plan.deferred_ids, vec!["a"]);
    assert!(!restarts_containers("a", &plan.deferred_ids));
    assert!(restarts_containers("b", &plan.deferred_ids));
    assert!(commit_entry_steps().contains(&EntryStep::RemoveRollback));
}

#[test]
fn decisions_are_taken_up_for_known_identities() {
    let request = finalize_request(&new_id());
    assert_eq!(admit_finalization(&request), Ok(()));
    let unknown = FinalizeVykarRestore {
        restore_operation_id: "original".to_string(),
        ..request.clone()
    };
    assert_eq!(
        admit_finalization(&unknown),
        Err(FinalizeError::InvalidDispatch)
    );
    let escaping = FinalizeVykarRestore {
        journal_id: "../journal".to_string(),
        ..unknown
    };
    assert_eq!(
        admit_finalization(&escaping),
        Err(FinalizeError::InvalidJournalId)
    );
    assert_eq!(
        admit_identities("journal", &None),
        Err(FinalizeError::InvalidDispatch)
    );
    assert_eq!(admit_identities("journal", &Some("id".to_string())), Ok(()));
}

#[test]
fn ended_operations_are_replayed_as_they_ended() {
    let mut store = Store::new();
    let response = RunVykarBackupResponse {
        excluded: Some("excluded".to_string()),
        primary: repository(),
        mirror: None,
        stopped_containers: vec!["web".to_string()],
        restarted_containers: Vec::new(),
        restart_errors: vec!["web did not start".to_string()],
    };
    let id = new_id();
    assert!(store.claim_backup(&id, false).unwrap().is_none());
    store.finish(&id, VykarBackupCompletion::of_backup(Ok(response.clone()))).unwrap();
    let replay = store.claim_backup(&id, false).unwrap().unwrap();
    assert_eq!(replay.replay_backup(), Ok(response));

    let id = new_id();
    assert!(store.claim_backup(&id, true).unwrap().is_none());
    let failed: Result<RunVykarBackupBatchResponse, String> = Err("no repository".to_string());
    store.finish(&id, VykarBackupCompletion::of_batch(failed.clone())).unwrap();
    let replay = store.claim_backup(&id, true).unwrap().unwrap();
    assert_eq!(replay.state, VykarBackupCompletionState::Complete);
    assert_eq!(replay.replay_batch(), failed);

    let mut restored = TransactionalVykarRestoreResponse {
        complete: true,
        rolled_back: false,
        finalization_pending: true,
        containers_restarted: Vec::new(),
        critical_error: None,
    };
    let prepared = VykarBackupCompletion::of_restore(Ok(restored.clone()), true);
    assert_eq!(prepared.state, VykarBackupCompletionState::Prepared);
    assert_eq!(prepared.replay_restore(), Ok(restored.clone()));
    restored.finalization_pending = false;
    let waiting = VykarBackupCompletion::of_restore(Ok(restored.clone()), true);
    assert_eq!(waiting.state, VykarBackupCompletionState::RecoveryRequired);
    let over = VykarBackupCompletion::of_restore(Ok(restored), false);
    assert_eq!(over.state, VykarBackupCompletionState::Complete);

    let decided = FinalizeVykarRestoreResponse::clean(true);
    let over = VykarBackupCompletion::of_finalization(Ok(decided.clone()), false);
    assert_eq!(over.state, VykarBackupCompletionState::Complete);
    assert_eq!(over.replay_finalization(), Ok(decided));
    let stuck = VykarBackupCompletion::of_finalization(Err("stuck".to_string()), true);
    assert_eq!(stuck.state, VykarBackupCompletionState::RecoveryRequired);
    assert_eq!(stuck.replay_finalization(), Err("stuck".to_string()));
}

#[test]
fn completions_without_a_result_say_so() {
    let nothing = empty(VykarBackupCompletionState::Complete);
    assert_eq!(
        nothing.clone().replay_backup().unwrap_err(),
        "Backup dispatch has no replayable result"
    );
    assert_eq!(
        nothing.clone().replay_batch().unwrap_err(),
        "Backup dispatch has no replayable batch result"
    );
    assert_eq!(
        nothing.clone().replay_restore().unwrap_err(),
        "Restore dispatch has no replayable result"
    );
    assert_eq!(
        nothing.replay_finalization().unwrap_err(),
        "Restore finalization has no replayable result"
    );
}
