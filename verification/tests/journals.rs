//! Journals of the file manager: history, undo, redo and startup.

use periphery::file_manager::journal::JournalEntryMetadata;
use periphery::path::PathError;
use periphery::file_manager::operation::OperationError;
use periphery::file_manager::copying::CopyTarget;
use periphery::file_manager::actions::action_operation_work;
use periphery::file_manager::actions::action_paths;
use periphery::file_manager::actions::action_was_applied;
use periphery::file_manager::actions::append_action;
use periphery::file_manager::actions::apply_action_operation;
use periphery::file_manager::actions::item_count;
use periphery::file_manager::actions::item_place;
use periphery::file_manager::actions::mark_action_applied;
use periphery::file_manager::actions::redo_step;
use periphery::file_manager::actions::rollback_step;
use periphery::file_manager::actions::staging_name;
use periphery::file_manager::actions::undo_step;
use periphery::file_manager::actions::ActionError;
use periphery::file_manager::actions::ActionSeen;
use periphery::file_manager::actions::NameStep;
use periphery::file_manager::conflict::FileManagerConflictAction;
use periphery::file_manager::conflict::FileManagerConflictDecision;
use periphery::file_manager::jobs::admit_history;
use periphery::file_manager::jobs::after_redo;
use periphery::file_manager::jobs::after_undo;
use periphery::file_manager::jobs::captures_after;
use periphery::file_manager::jobs::commit;
use periphery::file_manager::jobs::history_response;
use periphery::file_manager::jobs::redo;
use periphery::file_manager::jobs::reserved_bytes;
use periphery::file_manager::jobs::undo;
use periphery::file_manager::jobs::Afterwards;
use periphery::file_manager::jobs::CommitFacts;
use periphery::file_manager::jobs::CommitStage;
use periphery::file_manager::jobs::HistoryError;
use periphery::file_manager::jobs::HistoryStep;
use periphery::file_manager::journal::begin_journal_transition;
use periphery::file_manager::journal::complete_journal_transition;
use periphery::file_manager::journal::create_action_journal;
use periphery::file_manager::journal::find_visible;
use periphery::file_manager::journal::finish_action_journal;
use periphery::file_manager::journal::finish_journal;
use periphery::file_manager::journal::history_key;
use periphery::file_manager::journal::journal_is_unexpired;
use periphery::file_manager::journal::journal_is_visible;
use periphery::file_manager::journal::journal_status;
use periphery::file_manager::journal::normalize_loaded_journal;
use periphery::file_manager::journal::prune_history;
use periphery::file_manager::journal::retain_after_rollback_failure;
use periphery::file_manager::journal::retains_journal;
use periphery::file_manager::journal::retire_action_journal;
use periphery::file_manager::journal::snapshot_of;
use periphery::file_manager::journal::FileManagerExecutionMode;
use periphery::file_manager::journal::JournalAction;
use periphery::file_manager::journal::JournalActionKind;
use periphery::file_manager::journal::JournalActionState;
use periphery::file_manager::journal::JournalHistory;
use periphery::file_manager::journal::JournalHistorySide;
use periphery::file_manager::journal::JournalRecord;
use periphery::file_manager::journal::JournalSnapshot;
use periphery::file_manager::journal::JournalTransition;
use periphery::file_manager::journal::PathRevision;
use periphery::file_manager::journal::JOURNAL_TTL_MS;
use periphery::file_manager::operation::FileManagerOperation;
use periphery::file_manager::operation::FileManagerRevision;
use periphery::file_manager::operation::ResolvedRoot;
use periphery::file_manager::snapshots::backup_path;
use periphery::file_manager::snapshots::restore_after_journal;
use periphery::file_manager::snapshots::restore_journal;
use periphery::file_manager::startup::initialize;
use periphery::file_manager::startup::judge_journal;
use periphery::file_manager::startup::judge_journal_entry;
use periphery::file_manager::startup::judge_redo_batch;
use periphery::file_manager::startup::restore_redo_invalidation_batch;
use periphery::file_manager::startup::retire_journal_directory;
use periphery::file_manager::startup::BatchEntry;
use periphery::file_manager::startup::BatchVerdict;
use periphery::file_manager::startup::JournalEntry;
use periphery::file_manager::startup::JournalVerdict;
use periphery::file_manager::startup::RetireOutcome;
use periphery::file_manager::startup::RetireStage;

const NOW: i64 = 1_700_000_000_000;

fn test_journal_record(id: &str, created_at: i64, side: JournalHistorySide) -> JournalRecord {
    JournalRecord {
        id: id.to_string(),
        actor: "actor".to_string(),
        root_key: "root".to_string(),
        root_path: "/unused".to_string(),
        managed: false,
        durable_managed: false,
        recovery: false,
        history_side: side,
        transition: None,
        created_at,
        expires_at: created_at + JOURNAL_TTL_MS,
        description: id.to_string(),
        execution_mode: FileManagerExecutionMode::Recoverable,
        actions: Vec::new(),
        cleanup_only: false,
        snapshots: Vec::new(),
        before_revisions: Vec::new(),
        after_revisions: Vec::new(),
    }
}

fn texts(list: &[&str]) -> Vec<String> {
    list.iter().map(|text| text.to_string()).collect()
}

#[test]
fn loaded_redo_records_keep_stack_order() {
    let mut records = vec![
        test_journal_record("C", 3, JournalHistorySide::Redo),
        test_journal_record("B", 2, JournalHistorySide::Redo),
    ];
    records.sort_by_key(|record| record.created_at);
    let mut history = JournalHistory::new();
    for record in records {
        history.insert_loaded(record);
    }
    assert_eq!(history.redo.pop().unwrap().id, "B");
    assert_eq!(history.redo.pop().unwrap().id, "C");
}

#[test]
fn interrupted_history_transition_reloads_as_recovery_undo() {
    let mut record = test_journal_record("transition", 1, JournalHistorySide::Redo);
    record.managed = true;
    record.transition = Some(JournalTransition::Redo);
    let record = normalize_loaded_journal(record);
    assert!(record.recovery);
    assert_eq!(record.history_side, JournalHistorySide::Undo);
    assert!(journal_is_visible(&record));
    assert!(record.description.starts_with("Recover interrupted "));
}

#[test]
fn hidden_managed_journal_remains_loadable_for_exact_rollback() {
    let mut record = test_journal_record("managed-host-rollback", NOW, JournalHistorySide::Undo);
    record.managed = true;
    record.expires_at = NOW + JOURNAL_TTL_MS;

    assert!(!journal_is_visible(&record));
    assert!(journal_is_unexpired(&record, NOW));
    let mut history = JournalHistory::new();
    history.insert_loaded(record);
    assert!(history
        .undo
        .iter()
        .any(|record| record.id == "managed-host-rollback" && !journal_is_visible(record)));
}

#[test]
fn hidden_managed_journal_does_not_displace_visible_undo() {
    let ordinary = test_journal_record("ordinary-A", NOW, JournalHistorySide::Undo);
    let mut managed = test_journal_record("managed-B", NOW + 1, JournalHistorySide::Undo);
    managed.managed = true;
    let history = JournalHistory {
        undo: vec![ordinary, managed],
        redo: Vec::new(),
    };

    let visible = history
        .undo
        .iter()
        .rposition(journal_is_visible)
        .map(|position| &history.undo[position]);
    assert_eq!(visible.unwrap().id, "ordinary-A");
    assert_eq!(find_visible(&history.undo), Some(0));
}

#[test]
fn recovery_and_transition_journals_do_not_expire() {
    let mut expired =
        test_journal_record("expired", NOW - JOURNAL_TTL_MS - 1, JournalHistorySide::Undo);
    expired.expires_at = NOW - 1;
    let mut recovery = expired.clone();
    recovery.id = "recovery".to_string();
    recovery.recovery = true;
    let mut transition = expired.clone();
    transition.id = "transition".to_string();
    transition.transition = Some(JournalTransition::Undo);
    let mut durable = expired.clone();
    durable.id = "durable-managed".to_string();
    durable.managed = true;
    durable.durable_managed = true;

    assert!(!journal_is_unexpired(&expired, NOW));
    assert!(journal_is_unexpired(&recovery, NOW));
    assert!(journal_is_unexpired(&transition, NOW));
    assert!(journal_is_unexpired(&durable, NOW));
    let mut history = JournalHistory {
        undo: vec![expired, recovery, transition, durable],
        redo: Vec::new(),
    };
    let removed = prune_history(&mut history, NOW);
    assert_eq!(removed, vec!["expired"]);
    assert_eq!(history.undo.len(), 3);
}

#[test]
fn loading_a_journal_twice_changes_nothing_more() {
    let mut record = test_journal_record("transition", 1, JournalHistorySide::Redo);
    record.transition = Some(JournalTransition::Undo);
    let once = normalize_loaded_journal(record);
    assert_eq!(normalize_loaded_journal(once.clone()), once);
}

#[test]
fn failed_rollbacks_stay_for_recovery() {
    let record = test_journal_record("lost", 1, JournalHistorySide::Redo);
    let retained = retain_after_rollback_failure(record);
    assert!(retained.recovery);
    assert_eq!(retained.history_side, JournalHistorySide::Undo);
    assert!(journal_is_unexpired(&retained, NOW));
    assert!(retained.description.starts_with("Recover "));
}

#[test]
fn a_new_journal_ends_what_can_be_redone() {
    let mut history = JournalHistory::new();
    history.insert_loaded(test_journal_record("done", NOW, JournalHistorySide::Undo));
    history.insert_loaded(test_journal_record("undone", NOW, JournalHistorySide::Redo));
    assert_eq!(history.redo_ids(), vec!["undone"]);
    let status = journal_status(&history);
    assert!(status.can_undo && status.can_redo);
    assert_eq!(status.undo_description.as_deref(), Some("done"));
    assert_eq!(status.redo_description.as_deref(), Some("undone"));

    let record = test_journal_record("new", NOW, JournalHistorySide::Undo);
    assert!(history
        .push_journal(record.clone(), &Vec::new(), NOW)
        .is_none());
    assert!(history
        .push_journal(record, &texts(&["undone"]), NOW)
        .is_some());
    assert!(history.redo.is_empty());
    assert_eq!(history.undo.len(), 2);
    assert_eq!(history.take_undo(None).unwrap().id, "new");
    assert_eq!(history.take_undo(None).unwrap().id, "done");
    assert!(history.take_undo(None).is_none());
    assert!(history.take_redo().is_none());
}

#[test]
fn transitions_are_announced_and_ended() {
    let record = test_journal_record("a", 1, JournalHistorySide::Undo);
    let begun = begin_journal_transition(record, JournalTransition::Undo);
    assert_eq!(begun.transition, Some(JournalTransition::Undo));
    let done = complete_journal_transition(begun, JournalHistorySide::Redo, true);
    assert_eq!(done.transition, None);
    assert_eq!(done.history_side, JournalHistorySide::Redo);
}

#[test]
fn deletions_are_put_away_and_brought_back() {
    let operation = FileManagerOperation::Delete {
        paths: texts(&["a", "b"]),
    };
    assert_eq!(item_count(&operation, &Vec::new()), 2);
    assert_eq!(item_place(&operation, 0), Ok(None));
    let kinds =
        apply_action_operation(&operation, &Vec::new(), &Vec::new(), 1, 1, false).unwrap();
    assert_eq!(
        kinds,
        vec![JournalActionKind::Quarantine {
            path: "b".to_string(),
            quarantine_name: "1".to_string(),
        }]
    );
    assert_eq!(
        undo_step(&kinds[0], false),
        Ok(NameStep::BringBack {
            name: "1".to_string(),
            path: "b".to_string(),
        })
    );
    assert_eq!(undo_step(&kinds[0], true), Err(ActionError::Occupied));
    assert_eq!(
        redo_step(&kinds[0], true),
        Ok(NameStep::PutAway {
            path: "b".to_string(),
            name: "1".to_string(),
        })
    );
}

#[test]
fn nothing_is_renamed_outside_of_the_root() {
    let refused = Err(ActionError::Operation(OperationError::Path(
        PathError::NotNormal,
    )));
    for operation in [
        FileManagerOperation::CreateFile {
            path: "../x".to_string(),
        },
        FileManagerOperation::CreateDirectory {
            path: "../x".to_string(),
        },
        FileManagerOperation::Delete {
            paths: texts(&["../x"]),
        },
    ] {
        assert_eq!(
            apply_action_operation(&operation, &Vec::new(), &Vec::new(), 0, 0, false),
            refused
        );
    }
    let copy = FileManagerOperation::Copy {
        paths: texts(&["a"]),
        destination: "..".to_string(),
    };
    let targets = vec![CopyTarget {
        source: "a".to_string(),
        destination: "../x".to_string(),
    }];
    assert_eq!(
        apply_action_operation(&copy, &targets, &Vec::new(), 0, 0, false),
        refused
    );
}

#[test]
fn replaced_entries_are_put_away_first() {
    let operation = FileManagerOperation::Rename {
        path: "a/old".to_string(),
        new_name: "new".to_string(),
    };
    assert_eq!(item_place(&operation, 0), Ok(Some("a/new".to_string())));
    assert_eq!(
        apply_action_operation(&operation, &Vec::new(), &Vec::new(), 0, 0, true),
        Err(ActionError::DestinationExists)
    );
    let overwrite = vec![FileManagerConflictDecision {
        path: "a/new".to_string(),
        action: FileManagerConflictAction::Overwrite,
    }];
    assert_eq!(
        apply_action_operation(&operation, &Vec::new(), &overwrite, 0, 0, true).unwrap(),
        vec![
            JournalActionKind::Quarantine {
                path: "a/new".to_string(),
                quarantine_name: "0".to_string(),
            },
            JournalActionKind::Relocate {
                from: "a/old".to_string(),
                to: "a/new".to_string(),
            },
        ]
    );
    let skip = vec![FileManagerConflictDecision {
        path: "a/new".to_string(),
        action: FileManagerConflictAction::Skip,
    }];
    assert_eq!(
        apply_action_operation(&operation, &Vec::new(), &skip, 0, 0, true).unwrap(),
        Vec::new()
    );
    let text = FileManagerOperation::WriteText {
        path: "a".to_string(),
        contents: String::new(),
        expected_revision: FileManagerRevision { id: String::new() },
    };
    assert_eq!(item_place(&text, 0), Err(ActionError::NotByName));
}

#[test]
fn interrupted_actions_are_judged_by_what_is_found() {
    let mut record = test_journal_record("a", 1, JournalHistorySide::Undo);
    let index = append_action(
        &mut record,
        JournalActionKind::Relocate {
            from: "x".to_string(),
            to: "y".to_string(),
        },
    );
    assert_eq!(index, 0);
    let moved = ActionSeen {
        source: false,
        target: true,
        quarantined: false,
    };
    let unmoved = ActionSeen {
        source: true,
        target: false,
        quarantined: false,
    };
    assert!(action_was_applied(&record.actions[0], moved));
    assert!(!action_was_applied(&record.actions[0], unmoved));
    assert_eq!(
        rollback_step(&record.actions[0], moved),
        NameStep::Rename {
            from: "y".to_string(),
            to: "x".to_string(),
        }
    );
    assert_eq!(rollback_step(&record.actions[0], unmoved), NameStep::Nothing);
    mark_action_applied(&mut record, 0);
    assert_eq!(record.actions[0].state, JournalActionState::Applied);
    assert_eq!(action_paths(&record), vec!["x", "y"]);
    assert_ne!(staging_name(1), staging_name(2));
}

#[test]
fn snapshots_are_put_back_as_they_were() {
    let owned = |mode: u32| JournalEntryMetadata {
        path: String::new(),
        mode,
        uid: 1,
        gid: 2,
    };
    let mut record = test_journal_record("a", 1, JournalHistorySide::Undo);
    record.snapshots.push(JournalSnapshot {
        path: "kept".to_string(),
        existed: true,
        backup_name: "0".to_string(),
        before_metadata: vec![owned(0o644)],
        after_metadata: vec![owned(0o600)],
    });
    record.snapshots.push(JournalSnapshot {
        path: "new".to_string(),
        existed: false,
        backup_name: "1".to_string(),
        before_metadata: Vec::new(),
        after_metadata: vec![owned(0o640)],
    });
    record.after_revisions.push(PathRevision {
        path: "new".to_string(),
        revision: Some(FileManagerRevision {
            id: "r".to_string(),
        }),
    });
    let mut before = restore_journal(&record);
    before.sort_by(|a, b| a.path.cmp(&b.path));
    assert_eq!(before[0].path, "kept");
    assert_eq!(before[0].backup.as_deref(), Some("0"));
    assert_eq!(before[1].path, "new");
    assert_eq!(before[1].backup, None);
    assert_eq!(before[0].owners, vec![owned(0o644)]);
    assert!(before[1].owners.is_empty());
    let mut after = restore_after_journal(&record);
    after.sort_by(|a, b| a.path.cmp(&b.path));
    assert_eq!(after[0].backup, None);
    assert_eq!(after[1].backup.as_deref(), Some("1"));
    assert!(after[0].owners.is_empty());
    assert_eq!(after[1].owners, vec![owned(0o640)]);
}

#[test]
fn undo_verifies_before_it_changes() {
    let mut record = test_journal_record("a", 1, JournalHistorySide::Undo);
    let steps = undo(&record);
    let verified = steps
        .iter()
        .position(|step| *step == HistoryStep::VerifyAfter)
        .unwrap();
    let restored = steps
        .iter()
        .position(|step| *step == HistoryStep::RestoreBefore)
        .unwrap();
    assert!(verified < restored);
    assert_eq!(
        steps.last(),
        Some(&HistoryStep::Complete(JournalHistorySide::Redo))
    );
    assert_eq!(
        redo(&record).last(),
        Some(&HistoryStep::Complete(JournalHistorySide::Undo))
    );
    assert_eq!(after_undo(&record, true), Afterwards::ToRedo);
    assert_eq!(after_undo(&record, false), Afterwards::PutBack);
    record.actions.push(JournalAction {
        state: JournalActionState::Applied,
        kind: JournalActionKind::Quarantine {
            path: "x".to_string(),
            quarantine_name: "0".to_string(),
        },
    });
    assert!(undo(&record).contains(&HistoryStep::UndoActions));
}

#[test]
fn failed_operations_are_rolled_back() {
    let facts = CommitFacts {
        by_name_only: true,
        copies: false,
        acted: true,
        retains: true,
    };
    let mut stage = CommitStage::Starting;
    let mut steps: usize = 0;
    while stage != CommitStage::ApplyingNames {
        stage = commit(stage, facts, true);
        steps += 1;
        assert!(steps < 100);
    }
    assert_eq!(commit(stage, facts, false), CommitStage::RollingBackNames);
    while stage != CommitStage::Kept {
        stage = commit(stage, facts, true);
        steps += 1;
        assert!(steps < 100);
    }
    assert_eq!(
        commit(CommitStage::RollingBackNames, facts, false),
        CommitStage::Failed { retained: true }
    );
    assert_eq!(
        commit(CommitStage::Unregistering, facts, true),
        CommitStage::RollingBackUnregistered
    );
    let idle = CommitFacts {
        acted: false,
        ..facts
    };
    let stage = commit(CommitStage::Unregistering, idle, true);
    assert_eq!(stage, CommitStage::RestoringSnapshots);
    let stage = commit(stage, idle, true);
    assert_eq!(
        commit(stage, idle, false),
        CommitStage::Failed { retained: false }
    );
}

#[test]
fn startup_keeps_what_it_cannot_read() {
    assert_eq!(judge_journal_entry(false, "file"), JournalEntry::Ignore);
    assert_eq!(
        judge_journal_entry(true, "managed-transactions"),
        JournalEntry::Ignore
    );
    assert_eq!(
        judge_journal_entry(true, ".retired-x"),
        JournalEntry::RemoveRetired
    );
    assert_eq!(judge_journal_entry(true, "x"), JournalEntry::Read);
    assert_eq!(judge_journal(&None, NOW), JournalVerdict::Keep);
    let fresh = test_journal_record("fresh", NOW, JournalHistorySide::Undo);
    assert_eq!(judge_journal(&Some(fresh), NOW), JournalVerdict::Load);
    let old = test_journal_record("old", NOW - JOURNAL_TTL_MS - 5, JournalHistorySide::Undo);
    assert!(matches!(
        judge_journal(&Some(old), NOW),
        JournalVerdict::Remove { .. }
    ));
    let loaded = initialize(vec![
        test_journal_record("b", 2, JournalHistorySide::Undo),
        test_journal_record("a", 1, JournalHistorySide::Undo),
    ]);
    assert_eq!(loaded.histories.len(), 1);
    assert!(loaded.cleanup.is_empty());
    let (_, history) = loaded.histories.entry_at(0);
    assert_eq!(history.undo[0].id, "a");
    assert_eq!(history.undo[1].id, "b");
}

#[test]
fn interrupted_registrations_put_the_redo_stack_back() {
    assert_eq!(
        judge_redo_batch(true, ".redo-invalidation-x", false),
        BatchVerdict::Restore
    );
    assert_eq!(
        judge_redo_batch(true, ".redo-invalidation-x", true),
        BatchVerdict::CleanUp
    );
    assert_eq!(judge_redo_batch(true, "journal", false), BatchVerdict::Ignore);
    let names = restore_redo_invalidation_batch(&vec![
        BatchEntry {
            name: "new-operation-id".to_string(),
            is_dir: false,
        },
        BatchEntry {
            name: "redo".to_string(),
            is_dir: true,
        },
    ]);
    assert_eq!(names, vec!["redo"]);
}

#[test]
fn retired_journals_are_not_loaded_again() {
    let mut stage = RetireStage::RenamingAway;
    let mut steps: usize = 0;
    while stage != RetireStage::Retired {
        stage = retire_journal_directory(stage, RetireOutcome::Done);
        steps += 1;
        assert!(steps < 20);
    }
    assert_eq!(
        retire_journal_directory(RetireStage::RenamingAway, RetireOutcome::Missing),
        RetireStage::Retired
    );
}

#[test]
fn new_journals_recover_until_they_are_finished() {
    let root = ResolvedRoot {
        path: "/srv/demo".to_string(),
        key: "root".to_string(),
        read_only: false,
        managed_file: None,
        create_if_missing: false,
    };
    let operation = FileManagerOperation::Delete {
        paths: texts(&["a", "b"]),
    };
    let record = create_action_journal(
        &root,
        "actor",
        "id",
        &operation,
        FileManagerExecutionMode::Recoverable,
        false,
        1_000,
    );
    assert!(record.recovery);
    assert_eq!(record.root_key, "root");
    assert_eq!(record.expires_at, 1_000 + JOURNAL_TTL_MS);
    assert!(!record.managed);
    let kept = finish_action_journal(record.clone(), true);
    assert!(!kept.recovery && !kept.cleanup_only);
    let dropped = finish_action_journal(record.clone(), false);
    assert!(dropped.cleanup_only);
    let retired = retire_action_journal(record.clone());
    assert!(retired.cleanup_only && !retired.recovery);
    let finished = finish_journal(record, Vec::new());
    assert!(!finished.recovery);
    assert_eq!(finished.history_side, JournalHistorySide::Undo);
    assert_eq!(action_operation_work(&operation).entries, 2);
    assert_eq!(action_operation_work(&operation).bytes, 0);
}

#[test]
fn journals_are_kept_where_they_can_be_undone() {
    assert!(retains_journal(
        true,
        false,
        FileManagerExecutionMode::Direct
    ));
    assert!(retains_journal(
        false,
        true,
        FileManagerExecutionMode::Recoverable
    ));
    assert!(!retains_journal(
        false,
        true,
        FileManagerExecutionMode::Direct
    ));
    assert_ne!(history_key("root", "a"), history_key("root", "b"));
    let snapshot = snapshot_of("a", 12, true, Vec::new());
    assert_eq!(snapshot.backup_name, "12");
    assert_eq!(
        backup_path("/journal", "id", false, &snapshot.backup_name),
        "/journal/id/before/12"
    );
    assert_eq!(
        backup_path("/journal", "id", true, &snapshot.backup_name),
        "/journal/id/after/12"
    );
}

#[test]
fn journals_are_taken_out_by_their_identity() {
    let mut history = JournalHistory::new();
    let mut interrupted = test_journal_record("a", 1, JournalHistorySide::Redo);
    interrupted.transition = Some(JournalTransition::Redo);
    history.store_journal_by_side(interrupted);
    assert_eq!(history.undo.len(), 1);
    assert!(history.undo[0].recovery);
    history.store_journal_by_side(test_journal_record("b", 2, JournalHistorySide::Redo));
    assert_eq!(history.redo.len(), 1);
    assert_eq!(history.take_exact_managed_journal("b").unwrap().id, "b");
    assert!(history.redo.is_empty());
    assert!(history.take_exact_managed_journal("b").is_none());
    history.remove_journal_from_history("a");
    assert!(history.undo.is_empty());
}

#[test]
fn histories_are_changed_only_when_confirmed() {
    assert_eq!(admit_history(false, false), Err(HistoryError::Unconfirmed));
    assert_eq!(admit_history(true, true), Err(HistoryError::ReadOnly));
    assert_eq!(admit_history(true, false), Ok(()));
    assert_eq!(after_redo(true), Afterwards::ToUndo);
    assert_eq!(reserved_bytes(5), 256 * 1024 * 1024 + 5);
    let mut record = test_journal_record("a", 1, JournalHistorySide::Undo);
    record.snapshots.push(snapshot_of("x", 0, true, Vec::new()));
    assert!(!captures_after(&record, 0));
    record.after_revisions.push(PathRevision {
        path: "x".to_string(),
        revision: Some(FileManagerRevision {
            id: "r".to_string(),
        }),
    });
    assert!(captures_after(&record, 0));
    let response = history_response(&record, "operation", false);
    assert_eq!(response.operation_id, "operation");
    assert_eq!(response.affected_paths, vec!["x"]);
    assert!(response.undoable);
}
