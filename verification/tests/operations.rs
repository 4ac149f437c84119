//! Operations of the file manager: what is asked for, planned and limited.

use periphery::config::PeripheryConfig;
use periphery::file_manager::actions::ActionError;
use periphery::file_manager::conflict::FileManagerConflict;
use periphery::file_manager::conflict::FileManagerConflictAction;
use periphery::file_manager::conflict::FileManagerConflictDecision;
use periphery::file_manager::copying::duplicate_name;
use periphery::file_manager::copying::journal_paths_planned;
use periphery::file_manager::copying::resolve_copy_targets;
use periphery::file_manager::copying::revision_paths_planned;
use periphery::file_manager::copying::CopyError;
use periphery::file_manager::copying::CopyTarget;
use periphery::file_manager::copying::SourceState;
use periphery::file_manager::journal::FileManagerExecutionMode;
use periphery::file_manager::limits::capacity_thresholds;
use periphery::file_manager::limits::enforce_expansion_limits;
use periphery::file_manager::limits::ensure_capacity_requirements;
use periphery::file_manager::limits::ensure_entry_limit;
use periphery::file_manager::limits::ensure_entry_limit_with_max;
use periphery::file_manager::limits::limits;
use periphery::file_manager::limits::read_allowance;
use periphery::file_manager::limits::read_bounded;
use periphery::file_manager::limits::validate_free_space;
use periphery::file_manager::limits::FreeSpace;
use periphery::file_manager::limits::LimitError;
use periphery::file_manager::limits::SpaceRequirements;
use periphery::file_manager::limits::WorkTotal;
use periphery::file_manager::limits::MAX_ARCHIVE_EXPANSION_RATIO;
use periphery::file_manager::limits::MINIMUM_FREE_BYTES;
use periphery::file_manager::operation::ensure_archive_extension;
use periphery::file_manager::operation::normalize_operation;
use periphery::file_manager::operation::operation_description;
use periphery::file_manager::operation::operation_edits_managed_file;
use periphery::file_manager::operation::validate_operation;
use periphery::file_manager::operation::FileManagerArchiveFormat;
use periphery::file_manager::operation::FileManagerEntryKind;
use periphery::file_manager::operation::FileManagerOperation;
use periphery::file_manager::operation::FileManagerRevision;
use periphery::file_manager::operation::OperationError;
use periphery::file_manager::operation::ResolvedRoot;
use periphery::file_manager::plans::accept_commit;
use periphery::file_manager::plans::admit_commit;
use periphery::file_manager::plans::admit_preflight;
use periphery::file_manager::plans::commit_response;
use periphery::file_manager::plans::find_conflicts_planned;
use periphery::file_manager::plans::make_plan;
use periphery::file_manager::plans::notes_trees;
use periphery::file_manager::plans::preflight;
use periphery::file_manager::plans::preflight_paths;
use periphery::file_manager::plans::register_plan;
use periphery::file_manager::plans::take_owned_plan;
use periphery::file_manager::plans::FindError;
use periphery::file_manager::plans::ItemSeen;
use periphery::file_manager::plans::OperationPlan;
use periphery::file_manager::plans::PlanError;
use periphery::file_manager::plans::PLAN_TTL_MS;
use periphery::file_manager::tree::find_child;
use periphery::file_manager::tree::insert_child;
use periphery::file_manager::tree::Entry;
use periphery::file_manager::tree::EntryMetadata;
use periphery::file_manager::tree::LeafKind;
use periphery::path::PathError;
use periphery::registry::Registry;

fn texts(list: &[&str]) -> Vec<String> {
    list.iter().map(|text| text.to_string()).collect()
}

fn no_revision() -> FileManagerRevision {
    FileManagerRevision { id: String::new() }
}

fn stack_root() -> ResolvedRoot {
    ResolvedRoot {
        path: "/unused".to_string(),
        key: "root".to_string(),
        read_only: false,
        managed_file: Some("compose.yaml".to_string()),
        create_if_missing: false,
    }
}

fn metadata() -> EntryMetadata {
    EntryMetadata {
        device: 1,
        inode: 2,
        len: 3,
        mode: 0o644,
        uid: 0,
        gid: 0,
        modified: None,
    }
}

fn file(name: &str) -> Entry {
    Entry::Leaf {
        name: name.as_bytes().to_vec(),
        kind: LeafKind::File,
        metadata: metadata(),
    }
}

fn directory(name: &str, children: Vec<Entry>) -> Entry {
    Entry::Directory {
        name: name.as_bytes().to_vec(),
        metadata: metadata(),
        children,
    }
}

fn plan_of(actor: &str) -> OperationPlan {
    make_plan(
        actor.to_string(),
        "root".to_string(),
        FileManagerOperation::CreateFile {
            path: "file.txt".to_string(),
        },
        Vec::new(),
        Vec::new(),
        Vec::new(),
        FileManagerExecutionMode::Recoverable,
        false,
        false,
        1_000,
    )
}

#[test]
fn file_manager_entry_limit_accepts_exact_boundary() {
    assert!(ensure_entry_limit_with_max(5, 5).is_ok());
    assert!(ensure_entry_limit_with_max(6, 5).is_err());
}

#[test]
fn wrong_actor_cannot_consume_a_preflight_plan() {
    let mut plans: Registry<OperationPlan> = Registry::new();
    let now: i64 = 1_700_000_000_000;
    plans.insert(
        "plan".to_string(),
        OperationPlan {
            actor: "owner".to_string(),
            root_key: "root".to_string(),
            operation: FileManagerOperation::CreateFile {
                path: "file.txt".to_string(),
            },
            expires_at: now + PLAN_TTL_MS,
            conflicts: Vec::new(),
            confirmation_required: false,
            revisions: Vec::new(),
            copy_targets: Vec::new(),
            execution_mode: FileManagerExecutionMode::Recoverable,
            recursive_revisions: false,
        },
    );

    assert!(take_owned_plan(&mut plans, "plan", "attacker").is_err());
    assert!(plans.get("plan").is_some());
    assert!(take_owned_plan(&mut plans, "plan", "owner").is_ok());
    assert!(plans.get("plan").is_none());
}

#[test]
fn bounded_text_read_rejects_growth_past_the_limit() {
    assert_eq!(read_bounded(b"four".to_vec(), 4).unwrap(), b"four");
    assert!(read_bounded(b"five!".to_vec(), 4).is_err());
}

#[test]
fn redundant_delete_and_move_paths_are_normalized_only_once() {
    let delete = normalize_operation(FileManagerOperation::Delete {
        paths: texts(&["folder/child.txt", "folder", "folder"]),
    })
    .unwrap();
    assert!(matches!(
        delete,
        FileManagerOperation::Delete { paths }
            if paths == vec!["folder"]
    ));

    let copy = normalize_operation(FileManagerOperation::Copy {
        paths: texts(&["folder", "folder/child.txt"]),
        destination: "copies".to_string(),
    })
    .unwrap();
    assert!(matches!(
        copy,
        FileManagerOperation::Copy { paths, .. }
            if paths == vec!["folder", "folder/child.txt"]
    ));
}

#[test]
fn extract_destination_is_snapshotted_for_failure_rollback() {
    let operation = FileManagerOperation::ExtractArchive {
        path: "archive.zip".to_string(),
        destination: "destination".to_string(),
    };
    assert_eq!(
        journal_paths_planned(&operation, &Vec::new()).unwrap(),
        vec!["destination"]
    );
}

#[test]
fn managed_journal_classification_is_limited_to_its_text_edit() {
    let root = stack_root();
    assert!(operation_edits_managed_file(
        &root,
        &FileManagerOperation::WriteText {
            path: "compose.yaml".to_string(),
            contents: String::new(),
            expected_revision: no_revision(),
        }
    ));
    assert!(!operation_edits_managed_file(
        &root,
        &FileManagerOperation::Delete {
            paths: texts(&["notes.txt"]),
        }
    ));
}

#[test]
fn operation_audit_description_never_contains_text() {
    let operation = FileManagerOperation::WriteText {
        path: "compose.yaml".to_string(),
        contents: "super-secret".to_string(),
        expected_revision: no_revision(),
    };
    assert_eq!(operation_description(&operation), "Save text file");
}

#[test]
fn managed_compose_is_editor_only() {
    let root = ResolvedRoot {
        key: "test".to_string(),
        ..stack_root()
    };
    assert!(validate_operation(
        &root,
        &FileManagerOperation::Delete {
            paths: texts(&["compose.yaml"])
        }
    )
    .is_err());
    assert!(validate_operation(
        &root,
        &FileManagerOperation::Rename {
            path: "other.yaml".to_string(),
            new_name: "compose.yaml".to_string(),
        }
    )
    .is_err());
    assert!(validate_operation(
        &root,
        &FileManagerOperation::WriteText {
            path: "compose.yaml".to_string(),
            contents: "services: {}".to_string(),
            expected_revision: no_revision(),
        }
    )
    .is_ok());
}

#[test]
fn capacity_thresholds_cover_shared_and_separate_filesystems() {
    let requirements = SpaceRequirements {
        journal_bytes: 10,
        target_bytes: 20,
    };

    assert_eq!(
        capacity_thresholds(requirements, true),
        (MINIMUM_FREE_BYTES + 30, None)
    );
    assert_eq!(
        capacity_thresholds(requirements, false),
        (MINIMUM_FREE_BYTES + 10, Some(MINIMUM_FREE_BYTES + 20))
    );
}

#[test]
fn capacity_calculations_saturate_and_preserve_the_reserve() {
    let requirements = SpaceRequirements {
        journal_bytes: u64::MAX - 1,
        target_bytes: u64::MAX - 1,
    };

    assert_eq!(capacity_thresholds(requirements, true), (u64::MAX, None));
    assert_eq!(
        capacity_thresholds(requirements, false),
        (u64::MAX, Some(u64::MAX))
    );
    assert!(validate_free_space(MINIMUM_FREE_BYTES, MINIMUM_FREE_BYTES).is_ok());
    assert!(validate_free_space(MINIMUM_FREE_BYTES - 1, MINIMUM_FREE_BYTES).is_err());
}

#[test]
fn expansion_ratio_is_exact_and_has_no_fixed_byte_ceiling() {
    let compressed: u64 = 11_u64 * 1024 * 1024;
    let expanded: u64 = compressed * MAX_ARCHIVE_EXPANSION_RATIO;
    assert!(enforce_expansion_limits(expanded, compressed).is_ok());
    assert!(enforce_expansion_limits(expanded + 1, compressed).is_err());
    assert!(expanded > 10 * 1024 * 1024 * 1024);
}

#[test]
fn archive_names_receive_the_selected_extension() {
    assert_eq!(
        ensure_archive_extension("backup", FileManagerArchiveFormat::Zip),
        "backup.zip"
    );
    assert_eq!(
        ensure_archive_extension("backup.ZIP", FileManagerArchiveFormat::Zip),
        "backup.ZIP"
    );
    assert_eq!(
        ensure_archive_extension("backup.tar", FileManagerArchiveFormat::Zip),
        "backup.tar.zip"
    );
    assert_eq!(
        ensure_archive_extension("backup", FileManagerArchiveFormat::TarGz),
        "backup.tar.gz"
    );
}

#[test]
fn duplicate_names_preserve_extensions() {
    assert_eq!(duplicate_name("report.txt", 1, true), "report (1).txt");
    assert_eq!(
        duplicate_name("archive.tar.gz", 2, true),
        "archive (2).tar.gz"
    );
    assert_eq!(duplicate_name("folder", 1, false), "folder (1)");
    assert_eq!(duplicate_name("folder.name", 1, false), "folder.name (1)");
    assert_eq!(duplicate_name(".env", 1, true), ".env (1)");
}

#[test]
fn same_parent_copies_receive_the_first_available_name() {
    let mut existing = texts(&[
        "folder",
        "folder.name",
        "report.txt",
        "report (1).txt",
        "archive.tar.gz",
        ".env",
    ]);
    for (source, kind, expected) in [
        ("report.txt", FileManagerEntryKind::File, "report (2).txt"),
        (
            "archive.tar.gz",
            FileManagerEntryKind::File,
            "archive (1).tar.gz",
        ),
        (".env", FileManagerEntryKind::File, ".env (1)"),
        ("folder", FileManagerEntryKind::Directory, "folder (1)"),
        (
            "folder.name",
            FileManagerEntryKind::Directory,
            "folder.name (1)",
        ),
    ] {
        let operation = FileManagerOperation::Copy {
            paths: vec![source.to_string()],
            destination: String::new(),
        };
        let targets =
            resolve_copy_targets(&operation, &vec![SourceState::Present(kind)], &existing).unwrap();
        assert_eq!(targets[0].destination, expected);
        let seen = vec![ItemSeen {
            source: Some(file(source)),
            target: None,
        }];
        assert!(
            find_conflicts_planned(true, &operation, &targets, &seen, 100)
                .unwrap()
                .is_empty()
        );
        existing.push(expected.to_string());
    }
}

#[test]
fn duplicate_planning_reserves_other_batch_destinations() {
    let operation = FileManagerOperation::Copy {
        paths: texts(&["foo.txt", "other/foo (1).txt"]),
        destination: String::new(),
    };
    let states = vec![
        SourceState::Present(FileManagerEntryKind::File),
        SourceState::Present(FileManagerEntryKind::File),
    ];
    let targets = resolve_copy_targets(
        &operation,
        &states,
        &texts(&["foo.txt", "other", "other/foo (1).txt"]),
    )
    .unwrap();
    assert_eq!(targets[0].destination, "foo (2).txt");
    assert_eq!(targets[1].destination, "foo (1).txt");
}

#[test]
fn copies_need_their_sources() {
    let operation = FileManagerOperation::Copy {
        paths: texts(&["foo.txt"]),
        destination: String::new(),
    };
    assert_eq!(
        resolve_copy_targets(&operation, &vec![SourceState::Missing], &Vec::new()),
        Err(CopyError::MissingSource)
    );
    assert_eq!(
        resolve_copy_targets(&operation, &vec![SourceState::Unavailable], &Vec::new()),
        Err(CopyError::Unavailable)
    );
    let traversal = FileManagerOperation::Copy {
        paths: texts(&["../foo.txt"]),
        destination: String::new(),
    };
    assert_eq!(
        resolve_copy_targets(&traversal, &vec![SourceState::Missing], &Vec::new()),
        Err(CopyError::Operation(OperationError::Path(PathError::NotNormal)))
    );
}

#[test]
fn duplicates_of_one_name_differ() {
    assert_ne!(duplicate_name("a.txt", 1, true), duplicate_name("a.txt", 2, true));
    assert_ne!(duplicate_name("a.txt", 1, true), "a.txt");
}

#[test]
fn limits_tell_what_is_allowed() {
    let config = PeripheryConfig {
        root_directory: "/etc/komodo".to_string(),
        stack_dir: "/etc/komodo/stacks".to_string(),
        repo_dir: "/etc/komodo/repos".to_string(),
        file_manager_max_entries: 77,
    };
    assert!(ensure_entry_limit(77, &config).is_ok());
    assert!(ensure_entry_limit(78, &config).is_err());
    let told = limits(&config);
    assert_eq!(told.max_entries, 77);
    assert_eq!(told.max_text_bytes, 4 * 1024 * 1024);
    assert_eq!(told.max_depth, 128);
    assert_eq!(told.max_archive_expansion_ratio, 1000);
    assert_eq!(told.minimum_free_bytes, 256 * 1024 * 1024);
    assert_eq!(read_allowance(4), 5);
    assert_eq!(read_allowance(u64::MAX), u64::MAX);
    assert_eq!(
        ensure_entry_limit_with_max(6, 5),
        Err(LimitError::TooManyEntries { maximum: 5 })
    );
    assert_eq!(read_bounded(b"five!".to_vec(), 4), Err(LimitError::TooLarge));
    assert_eq!(
        enforce_expansion_limits(1_001, 1),
        Err(LimitError::ExpansionRatio)
    );
}

#[test]
fn accepted_operations_leave_the_reserve_free() {
    let requirements = SpaceRequirements {
        journal_bytes: 10,
        target_bytes: 20,
    };
    let enough = FreeSpace {
        blocks: MINIMUM_FREE_BYTES + 30,
        block_size: 1,
    };
    let short = FreeSpace {
        blocks: MINIMUM_FREE_BYTES + 29,
        block_size: 1,
    };
    assert!(ensure_capacity_requirements(requirements, true, enough, short).is_ok());
    assert_eq!(
        ensure_capacity_requirements(requirements, true, short, enough),
        Err(LimitError::InsufficientSpace {
            required: MINIMUM_FREE_BYTES + 30,
            available: MINIMUM_FREE_BYTES + 29,
        })
    );
    let target_short = FreeSpace {
        blocks: MINIMUM_FREE_BYTES + 19,
        block_size: 1,
    };
    assert!(ensure_capacity_requirements(requirements, false, enough, target_short).is_err());
    assert!(ensure_capacity_requirements(requirements, false, enough, short).is_ok());
}

#[test]
fn work_adds_up_without_wrapping() {
    let mut work = WorkTotal::zero();
    work.add(WorkTotal {
        entries: 2,
        bytes: 5,
    });
    work.add(WorkTotal {
        entries: 1,
        bytes: u64::MAX,
    });
    assert_eq!(
        work,
        WorkTotal {
            entries: 3,
            bytes: u64::MAX,
        }
    );
}

#[test]
fn transfers_are_refused_for_what_is_wrong_with_them() {
    let root = stack_root();
    let transfer = |paths: &[&str], destination: &str| FileManagerOperation::Move {
        paths: texts(paths),
        destination: destination.to_string(),
    };
    assert_eq!(
        validate_operation(&root, &transfer(&[], "b")),
        Err(OperationError::EmptySelection)
    );
    assert_eq!(
        validate_operation(&root, &transfer(&["a/x", "b/x"], "c")),
        Err(OperationError::SameDestinationName)
    );
    assert_eq!(
        validate_operation(&root, &transfer(&["a/x"], "a")),
        Err(OperationError::SamePlace)
    );
    assert_eq!(
        validate_operation(&root, &transfer(&["a"], "a/b")),
        Err(OperationError::InsideItself)
    );
    assert_eq!(
        validate_operation(&root, &transfer(&["../a"], "b")),
        Err(OperationError::Path(PathError::NotNormal))
    );
    assert_eq!(validate_operation(&root, &transfer(&["a/x", "a/y"], "b")), Ok(()));
    assert_eq!(
        validate_operation(&root, &transfer(&["compose.yaml"], "b")),
        Err(OperationError::ManagedFile)
    );
    let extract = FileManagerOperation::ExtractArchive {
        path: "a.zip".to_string(),
        destination: "a.zip".to_string(),
    };
    assert_eq!(
        validate_operation(&root, &extract),
        Err(OperationError::ReplacesArchive)
    );
    let archive = |paths: &[&str], destination: &str| FileManagerOperation::CreateArchive {
        paths: texts(paths),
        destination: destination.to_string(),
        format: FileManagerArchiveFormat::Zip,
    };
    assert_eq!(
        validate_operation(&root, &archive(&["a.zip"], "a.zip")),
        Err(OperationError::ReplacesSource)
    );
    assert_eq!(
        validate_operation(&root, &archive(&["a"], "a/b.zip")),
        Err(OperationError::InsideSource)
    );
    let text = FileManagerOperation::WriteText {
        path: "a.txt".to_string(),
        contents: "x".repeat(4 * 1024 * 1024 + 1),
        expected_revision: no_revision(),
    };
    assert_eq!(validate_operation(&root, &text), Err(OperationError::TextTooLarge));
}

#[test]
fn normalizing_twice_changes_nothing_more() {
    let once = normalize_operation(FileManagerOperation::Delete {
        paths: texts(&["b/c", "a", "b", "b/d/e"]),
    })
    .unwrap();
    let paths = match once {
        FileManagerOperation::Delete { paths } => paths,
        _ => panic!("another operation"),
    };
    assert_eq!(paths, vec!["a", "b"]);
    let twice = normalize_operation(FileManagerOperation::Delete { paths }).unwrap();
    assert!(matches!(
        twice,
        FileManagerOperation::Delete { paths } if paths == vec!["a", "b"]
    ));
}

#[test]
fn revisions_of_sources_and_targets_are_noted() {
    let operation = FileManagerOperation::Move {
        paths: texts(&["a/x"]),
        destination: "b".to_string(),
    };
    let paths = revision_paths_planned(&operation, &Vec::new()).unwrap();
    assert!(paths.contains(&"a/x".to_string()));
    assert!(paths.contains(&"b/x".to_string()));
}

#[test]
fn plans_are_kept_for_their_time_and_their_actor() {
    let mut plans: Registry<OperationPlan> = Registry::new();
    register_plan(&mut plans, "first".to_string(), plan_of("owner"), 1_000);
    register_plan(
        &mut plans,
        "second".to_string(),
        plan_of("owner"),
        1_000 + PLAN_TTL_MS + 1,
    );
    assert!(plans.get("first").is_none());
    assert!(plans.get("second").is_some());
    assert!(matches!(
        take_owned_plan(&mut plans, "third", "owner"),
        Err(PlanError::Missing)
    ));
    assert!(matches!(
        take_owned_plan(&mut plans, "second", "other"),
        Err(PlanError::OtherActor)
    ));
}

#[test]
fn plans_are_carried_out_only_as_they_were_looked_at() {
    let root = stack_root();
    let none: Vec<FileManagerConflictDecision> = Vec::new();
    let plan = plan_of("owner");
    assert_eq!(admit_commit(&plan, &root, &none, false, false, false, 1_000), Ok(()));
    assert_eq!(
        admit_commit(&plan, &root, &none, false, false, false, 1_001 + PLAN_TTL_MS),
        Err(PlanError::Expired)
    );
    let moved = ResolvedRoot {
        key: "elsewhere".to_string(),
        ..stack_root()
    };
    assert_eq!(
        admit_commit(&plan, &moved, &none, false, false, false, 1_000),
        Err(PlanError::RootChanged)
    );
    let mut unconfirmed = plan_of("owner");
    unconfirmed.confirmation_required = true;
    assert_eq!(
        admit_commit(&unconfirmed, &root, &none, false, false, false, 1_000),
        Err(PlanError::Unconfirmed)
    );
    let mut conflicting = plan_of("owner");
    conflicting.conflicts.push(FileManagerConflict {
        path: "file.txt".to_string(),
        existing_kind: FileManagerEntryKind::File,
        incoming_kind: FileManagerEntryKind::File,
    });
    assert_eq!(
        admit_commit(&conflicting, &root, &none, true, false, false, 1_000),
        Err(PlanError::Undecided)
    );
    let decided = vec![FileManagerConflictDecision {
        path: "file.txt".to_string(),
        action: FileManagerConflictAction::Overwrite,
    }];
    assert_eq!(
        admit_commit(&conflicting, &root, &decided, true, false, false, 1_000),
        Ok(())
    );
}

#[test]
fn plans_are_committed_once_and_by_their_owner() {
    let mut plans: Registry<OperationPlan> = Registry::new();
    register_plan(&mut plans, "plan".to_string(), plan_of("owner"), 1_000);
    let commit = |plans: &mut Registry<OperationPlan>, actor: &str, now: i64| {
        accept_commit(
            plans,
            "plan",
            actor,
            "operation",
            &stack_root(),
            &Vec::new(),
            false,
            false,
            false,
            texts(&["file.txt"]),
            true,
            now,
        )
    };
    assert!(matches!(
        commit(&mut plans, "other", 1_000),
        Err(PlanError::OtherActor)
    ));
    assert!(plans.get("plan").is_some());
    let (plan, response) = commit(&mut plans, "owner", 1_000).unwrap();
    assert_eq!(plan.actor, "owner");
    assert_eq!(response.operation_id, "operation");
    assert_eq!(response.affected_paths, vec!["file.txt"]);
    assert!(response.undoable);
    assert!(matches!(
        commit(&mut plans, "owner", 1_000),
        Err(PlanError::Missing)
    ));

    register_plan(&mut plans, "plan".to_string(), plan_of("owner"), 1_000);
    assert!(matches!(
        commit(&mut plans, "owner", 1_001 + PLAN_TTL_MS),
        Err(PlanError::Expired)
    ));
    assert!(plans.get("plan").is_none());
}

#[test]
fn read_only_roots_are_not_changed() {
    let root = ResolvedRoot {
        read_only: true,
        ..stack_root()
    };
    let asked = FileManagerOperation::CreateFile {
        path: "a".to_string(),
    };
    assert!(matches!(
        admit_preflight(&root, asked),
        Err(PlanError::ReadOnly)
    ));
    let escape = FileManagerOperation::CreateFile {
        path: "../a".to_string(),
    };
    assert!(matches!(
        admit_preflight(&stack_root(), escape),
        Err(PlanError::Operation(OperationError::Path(PathError::NotNormal)))
    ));
}

#[test]
fn conflicts_are_looked_for_at_checked_paths() {
    for operation in [
        FileManagerOperation::CreateFile {
            path: "../x".to_string(),
        },
        FileManagerOperation::CreateDirectory {
            path: "../x".to_string(),
        },
    ] {
        let seen = vec![ItemSeen {
            source: None,
            target: None,
        }];
        assert!(matches!(
            find_conflicts_planned(true, &operation, &Vec::new(), &seen, 10),
            Err(FindError::Action(ActionError::Operation(OperationError::Path(
                PathError::NotNormal
            ))))
        ));
    }
}

#[test]
fn conflicts_are_found_item_by_item() {
    let create = FileManagerOperation::CreateDirectory {
        path: "place".to_string(),
    };
    let none: Vec<CopyTarget> = Vec::new();
    let occupied = vec![ItemSeen {
        source: None,
        target: Some(file("place")),
    }];
    let found = find_conflicts_planned(true, &create, &none, &occupied, 10).unwrap();
    assert_eq!(found.len(), 1);
    assert_eq!(found[0].path, "place");
    assert_eq!(found[0].existing_kind, FileManagerEntryKind::File);
    assert_eq!(found[0].incoming_kind, FileManagerEntryKind::Directory);
    assert!(find_conflicts_planned(false, &create, &none, &occupied, 10)
        .unwrap()
        .is_empty());

    let transfer = FileManagerOperation::Move {
        paths: texts(&["a/tree"]),
        destination: "b".to_string(),
    };
    let seen = vec![ItemSeen {
        source: Some(directory("tree", vec![file("new"), file("same")])),
        target: Some(directory("tree", vec![file("other"), file("same")])),
    }];
    let found = find_conflicts_planned(true, &transfer, &none, &seen, 10).unwrap();
    assert_eq!(found.len(), 1);
    assert_eq!(found[0].path, "b/tree/same");
    assert_eq!(
        find_conflicts_planned(true, &transfer, &none, &seen, 0),
        Err(FindError::Limit(LimitError::TooManyEntries { maximum: 0 }))
    );
    let missing = vec![ItemSeen {
        source: None,
        target: None,
    }];
    assert_eq!(
        find_conflicts_planned(true, &transfer, &none, &missing, 10),
        Err(FindError::MissingSource)
    );
    let extract = FileManagerOperation::ExtractArchive {
        path: "a.zip".to_string(),
        destination: "place".to_string(),
    };
    assert!(find_conflicts_planned(true, &extract, &none, &occupied, 10)
        .unwrap()
        .is_empty());
}

#[test]
fn plans_note_each_path_once() {
    let operation = FileManagerOperation::Move {
        paths: texts(&["b/x", "a/y"]),
        destination: "c".to_string(),
    };
    let paths = preflight_paths(&operation, &Vec::new()).unwrap();
    let mut sorted = paths.clone();
    sorted.sort();
    sorted.dedup();
    assert_eq!(paths, sorted);
    assert!(paths.contains(&"c/x".to_string()));
    assert!(notes_trees(Some(false)));
    assert!(!notes_trees(Some(true)));
    assert!(!notes_trees(None));
    let response = commit_response(&plan_of("owner"), "id", texts(&["file.txt"]), true);
    assert_eq!(response.operation_id, "id");
    assert_eq!(response.affected_paths, vec!["file.txt"]);
    assert!(response.undoable);
}

#[test]
fn children_are_kept_in_order() {
    let mut children: Vec<Entry> = Vec::new();
    insert_child(&mut children, file("b"));
    insert_child(&mut children, file("a"));
    insert_child(&mut children, directory("b", Vec::new()));
    assert_eq!(children.len(), 2);
    assert_eq!(children[0].name(), b"a");
    assert_eq!(children[1].kind(), FileManagerEntryKind::Directory);
    assert!(find_child(&children, &b"a".to_vec()).is_some());
    assert!(find_child(&children, &b"c".to_vec()).is_none());
}

#[test]
fn users_are_told_of_their_plans() {
    let mut plans: Registry<OperationPlan> = Registry::new();
    let conflict = FileManagerConflict {
        path: "file.txt".to_string(),
        existing_kind: FileManagerEntryKind::File,
        incoming_kind: FileManagerEntryKind::File,
    };
    let plan = make_plan(
        "owner".to_string(),
        "root".to_string(),
        FileManagerOperation::CreateFile {
            path: "file.txt".to_string(),
        },
        vec![conflict.clone()],
        Vec::new(),
        Vec::new(),
        FileManagerExecutionMode::Direct,
        false,
        false,
        1_000,
    );
    let told = preflight(&mut plans, "plan".to_string(), plan, 1_000);
    assert_eq!(told.plan_id, "plan");
    assert_eq!(told.expires_at, 1_000 + PLAN_TTL_MS);
    assert_eq!(told.conflicts, vec![conflict]);
    assert!(told.confirmation_required);
    assert!(told.supports_durable_managed_transactions);
    assert_eq!(told.execution_mode, FileManagerExecutionMode::Direct);
    assert!(plans.get("plan").is_some());
}
