//! Previews of restores, their publication and their course.

use periphery::backup::staging::plan_staging_cleanup;
use periphery::backup::staging::StagedFound;
use periphery::backup::staging::StagingCleanup;
use periphery::backup::preview::bounded_restore_preview;
use periphery::backup::preview::collect_unexpected_paths;
use periphery::backup::preview::compare_missing_volume_paths;
use periphery::backup::preview::compare_restore_paths;
use periphery::backup::preview::ensure_quiesced_preview_matches;
use periphery::backup::preview::map_snapshot_path;
use periphery::backup::preview::normalize_created_volume_preview;
use periphery::backup::preview::restore_preview_metadata;
use periphery::backup::preview::restore_roots;
use periphery::backup::preview::restore_targets;
use periphery::backup::preview::PathChanges;
use periphery::backup::preview::PreflightVykarRestoreResponse;
use periphery::backup::preview::PreviewError;
use periphery::backup::preview::SeenEntry;
use periphery::backup::preview::SnapshotPath;
use periphery::backup::preview::Standing;
use periphery::backup::preview::MAX_RESTORE_PREVIEW_BYTES;
use periphery::backup::preview::MAX_RESTORE_PREVIEW_ROWS;
use periphery::backup::publication::admit_source;
use periphery::backup::publication::admit_staging;
use periphery::backup::publication::cleanup_rolled_back_restore;
use periphery::backup::publication::destination_existence_matches;
use periphery::backup::publication::destinations_unchanged;
use periphery::backup::publication::discard_rollback;
use periphery::backup::publication::effect_of;
use periphery::backup::publication::entry_of;
use periphery::backup::publication::open_publication_journal;
use periphery::backup::publication::persist_restore_volume_journal;
use periphery::backup::publication::plan_entry;
use periphery::backup::publication::publish_failure;
use periphery::backup::publication::publish_restore_entry;
use periphery::backup::publication::publish_restore_in;
use periphery::backup::publication::restore_rollback_path;
use periphery::backup::publication::rollback_published;
use periphery::backup::publication::validate_restore_rollback_paths;
use periphery::backup::publication::Effect;
use periphery::backup::publication::EntryStep;
use periphery::backup::publication::OnFailure;
use periphery::backup::publication::PublishEnd;
use periphery::backup::publication::PublishError;
use periphery::backup::publication::PublishHappened;
use periphery::backup::publication::PublishStage;
use periphery::backup::publication::RestorePublishPath;
use periphery::backup::receipts::VykarBackupCompletionState;
use periphery::backup::restore_journal::RestoreJournalEntry;
use periphery::backup::restore_journal::RestoreOwnedVolume;
use periphery::backup::restore_run::begin_restore;
use periphery::backup::restore_run::begin_transaction;
use periphery::backup::restore_run::check_created_volume;
use periphery::backup::restore_run::containers_confirmed;
use periphery::backup::restore_run::finish_restore_before_publication;
use periphery::backup::restore_run::judge_destination;
use periphery::backup::restore_run::not_begun;
use periphery::backup::restore_run::preflight_restore;
use periphery::backup::restore_run::prepare_restore_volume;
use periphery::backup::restore_run::remove_owned_restore_volume;
use periphery::backup::restore_run::resolve_volume_publish_destinations;
use periphery::backup::restore_run::restore_completion_state;
use periphery::backup::restore_run::restore_response;
use periphery::backup::restore_run::restore_verification_len;
use periphery::backup::restore_run::run_restore;
use periphery::backup::restore_run::transactional_restore;
use periphery::backup::restore_run::verify_quiesced_restore_preview;
use periphery::backup::restore_run::volume_plan_id;
use periphery::backup::restore_run::BeginError;
use periphery::backup::restore_run::Destination;
use periphery::backup::restore_run::Ending;
use periphery::backup::restore_run::Happened;
use periphery::backup::restore_run::Reason;
use periphery::backup::restore_run::RunError;
use periphery::backup::restore_run::RunFacts;
use periphery::backup::restore_run::RunStage;
use periphery::backup::restore_run::StepOutcome;
use periphery::backup::restore_run::Told;
use periphery::backup::restore_run::TransactionEnd;
use periphery::backup::restore_run::TransactionStage;
use periphery::backup::restore_run::VolumeError;
use periphery::backup::restore_run::VolumePlan;

fn texts(list: &[&str]) -> Vec<String> {
    list.iter().map(|text| text.to_string()).collect()
}

fn snapshot(path: &str, directory: bool) -> SnapshotPath {
    SnapshotPath {
        path: path.to_string(),
        directory,
    }
}

fn publish(snapshot_path: &str, destination: &str) -> RestorePublishPath {
    RestorePublishPath {
        snapshot_path: snapshot_path.to_string(),
        destination: destination.to_string(),
        destination_root: None,
    }
}

fn seen(name: &str, children: Vec<SeenEntry>) -> SeenEntry {
    SeenEntry {
        name: name.to_string(),
        directory: true,
        children,
    }
}

fn seen_file(name: &str) -> SeenEntry {
    SeenEntry {
        name: name.to_string(),
        directory: false,
        children: Vec::new(),
    }
}

/// What stands on the way to each target below a root that is seen.
fn ways(root: &str, tree: &SeenEntry, destinations: &[String]) -> Vec<Vec<Standing>> {
    let standing = |entry: &SeenEntry| {
        if entry.directory {
            Standing::Directory
        } else {
            Standing::Other
        }
    };
    destinations
        .iter()
        .map(|destination| {
            let mut way = vec![standing(tree)];
            let mut at = Some(tree);
            let below = destination
                .strip_prefix(root)
                .unwrap()
                .trim_start_matches('/');
            for name in below.split('/').filter(|name| !name.is_empty()) {
                at = at.and_then(|entry| entry.children.iter().find(|child| child.name == name));
                way.push(at.map(standing).unwrap_or(Standing::Missing));
            }
            way
        })
        .collect()
}

fn compare(
    paths: &[SnapshotPath],
    items: &[RestorePublishPath],
    tree: &SeenEntry,
) -> Result<PathChanges, PreviewError> {
    let paths = paths.to_vec();
    let items = items.to_vec();
    let targets = restore_targets(&paths, &items)?;
    let roots = restore_roots(&Vec::new(), &items)?;
    let destinations: Vec<String> = targets
        .iter()
        .map(|target| target.destination.clone())
        .collect();
    let ways = ways(&items[0].destination, tree, &destinations);
    let trees = vec![Some(copy(tree))];
    compare_restore_paths(&targets, &ways, &roots, &trees)
}

fn copy(entry: &SeenEntry) -> SeenEntry {
    SeenEntry {
        name: entry.name.clone(),
        directory: entry.directory,
        children: entry.children.iter().map(copy).collect(),
    }
}

fn empty_preview() -> PreflightVykarRestoreResponse {
    PreflightVykarRestoreResponse {
        destination_exists: false,
        created_paths: Vec::new(),
        overwritten_paths: Vec::new(),
        deleted_paths: Vec::new(),
        containers_to_stop: Vec::new(),
        path_summary: None,
    }
}

fn entry(published: bool) -> RestoreJournalEntry {
    RestoreJournalEntry {
        source: "/srv/.stage".to_string(),
        destination: "/srv/app".to_string(),
        rollback: "/srv/app.komodo-rollback-id".to_string(),
        original_existed: Some(true),
        published,
    }
}

#[test]
fn post_quiesce_preview_detects_new_deletions_and_changed_classifications() {
    let paths = vec![
        snapshot("snapshot/root", true),
        snapshot("snapshot/root/config", false),
    ];
    let items = vec![publish("snapshot/root", "/srv/app")];
    let before = compare(&paths, &items, &seen("app", vec![seen_file("config")])).unwrap();
    let mut expected =
        bounded_restore_preview(&before.created, &before.overwritten, &before.deleted);
    expected.destination_exists = true;
    expected.containers_to_stop = texts(&["writer"]);
    assert!(ensure_quiesced_preview_matches(
        &expected,
        &before,
        texts(&["writer"])
    ));
    let extra = compare(
        &paths,
        &items,
        &seen(
            "app",
            vec![seen_file("config"), seen_file("created-during-stop")],
        ),
    )
    .unwrap();
    assert_eq!(extra.deleted, vec!["/srv/app/created-during-stop"]);
    assert!(!ensure_quiesced_preview_matches(
        &expected,
        &extra,
        texts(&["writer"])
    ));
    let removed = compare(&paths, &items, &seen("app", Vec::new())).unwrap();
    assert!(!ensure_quiesced_preview_matches(
        &expected,
        &removed,
        texts(&["writer"])
    ));
}

#[test]
fn created_volume_post_quiesce_preview_ignores_only_its_owned_root_creation() {
    let paths = vec![
        snapshot("snapshot/root", true),
        snapshot("snapshot/root/config", false),
    ];
    let logical = vec![publish(
        "snapshot/root",
        "/var/lib/docker/volumes/new-volume/_data",
    )];
    let before = compare_missing_volume_paths(&paths, &logical, "new-volume").unwrap();
    let expected = bounded_restore_preview(&before.created, &before.overwritten, &before.deleted);
    let actual = vec![publish("snapshot/root", "/mnt/volume")];
    let compare_now = |tree: SeenEntry| {
        let changes = compare(&paths, &actual, &tree).unwrap();
        normalize_created_volume_preview(&changes, "/mnt/volume", "new-volume", true).unwrap()
    };
    assert!(ensure_quiesced_preview_matches(
        &expected,
        &compare_now(seen("volume", Vec::new())),
        Vec::new()
    ));
    assert!(!ensure_quiesced_preview_matches(
        &expected,
        &compare_now(seen("volume", vec![seen_file("unexpected")])),
        Vec::new()
    ));
    assert!(!ensure_quiesced_preview_matches(
        &expected,
        &compare_now(seen("volume", vec![seen_file("config")])),
        Vec::new()
    ));
    let changes = compare(&paths, &actual, &seen("volume", Vec::new())).unwrap();
    assert_eq!(
        verify_quiesced_restore_preview(
            &expected,
            changes.clone(),
            &Some("new-volume".to_string()),
            &actual,
            true,
            true,
            Vec::new(),
        ),
        Some(true)
    );
    assert_eq!(
        verify_quiesced_restore_preview(
            &expected,
            changes,
            &Some("new-volume".to_string()),
            &Vec::new(),
            true,
            true,
            Vec::new(),
        ),
        None
    );
}

#[test]
fn locked_preview_rejects_changed_paths_and_containers() {
    let preview = PreflightVykarRestoreResponse {
        destination_exists: true,
        created_paths: texts(&["b", "a"]),
        containers_to_stop: texts(&["application"]),
        ..empty_preview()
    };
    let mut reordered = preview.clone();
    reordered.created_paths.reverse();
    assert!(preview.matches(&reordered));
    reordered.deleted_paths.push("new-file".to_string());
    assert!(!preview.matches(&reordered));
    let mut changed = preview.clone();
    changed.containers_to_stop.clear();
    assert!(!preview.matches(&changed));
    changed = preview.clone();
    changed.destination_exists = false;
    assert!(!preview.matches(&changed));
}

#[test]
fn large_previews_keep_complete_counts_and_hash_omitted_changes() {
    let created: Vec<String> = (0..MAX_RESTORE_PREVIEW_ROWS + 1)
        .map(|index| format!("/root/{index:06}"))
        .collect();
    let preview =
        bounded_restore_preview(&created, &texts(&["/overwrite"]), &texts(&["/delete"]));
    let summary = preview.path_summary.as_ref().unwrap();
    assert_eq!(summary.created, (MAX_RESTORE_PREVIEW_ROWS + 1) as u32);
    assert_eq!(summary.overwritten, 1);
    assert_eq!(summary.deleted, 1);
    assert_eq!(preview.created_paths.len(), MAX_RESTORE_PREVIEW_ROWS);
    assert!(preview.overwritten_paths.is_empty());
    assert!(preview.deleted_paths.is_empty());
    let mut changed = created;
    *changed.last_mut().unwrap() = "/root/999999".to_string();
    let changed =
        bounded_restore_preview(&changed, &texts(&["/overwrite"]), &texts(&["/delete"]));
    assert_eq!(preview.created_paths, changed.created_paths);
    assert!(!preview.matches(&changed));
    let reclassified =
        bounded_restore_preview(&Vec::new(), &preview.created_paths.clone(), &Vec::new());
    assert_ne!(summary.sha256, reclassified.path_summary.unwrap().sha256);
}

#[test]
fn preview_digest_is_order_independent_but_category_sensitive() {
    let expected = bounded_restore_preview(&texts(&["a", "b"]), &Vec::new(), &Vec::new());
    let reordered = bounded_restore_preview(&texts(&["b", "a", "a"]), &Vec::new(), &Vec::new());
    assert!(expected.matches(&reordered));
    let reclassified = bounded_restore_preview(&texts(&["a"]), &texts(&["b"]), &Vec::new());
    assert_ne!(
        expected.path_summary.unwrap().sha256,
        reclassified.path_summary.unwrap().sha256
    );
}

#[test]
fn preview_text_limit_only_bounds_display_not_confirmation() {
    let paths: Vec<String> = (0..600)
        .map(|index| format!("/{index:04}/{}", "x".repeat(2048)))
        .collect();
    let preview = bounded_restore_preview(&paths, &texts(&["/overwrite"]), &texts(&["/delete"]));
    let summary = preview.path_summary.as_ref().unwrap();
    assert_eq!(summary.created, 600);
    assert!(preview.created_paths.len() < 600);
    let displayed_bytes: usize = preview
        .created_paths
        .iter()
        .chain(&preview.overwritten_paths)
        .chain(&preview.deleted_paths)
        .map(String::len)
        .sum();
    assert!(displayed_bytes <= MAX_RESTORE_PREVIEW_BYTES);
    assert_eq!(summary.overwritten, 1);
    assert_eq!(summary.deleted, 1);
}

#[test]
fn complete_recovered_stack_can_exceed_display_row_limit() {
    let paths: Vec<SnapshotPath> = (0..MAX_RESTORE_PREVIEW_ROWS + 1)
        .map(|index| snapshot(&format!("root/{index:06}"), false))
        .collect();
    let items = vec![publish("root", "/srv/recovered")];
    let targets = restore_targets(&paths, &items).unwrap();
    let roots = restore_roots(&Vec::new(), &items).unwrap();
    let ways: Vec<Vec<Standing>> = targets.iter().map(|_| vec![Standing::Missing]).collect();
    let changes = compare_restore_paths(&targets, &ways, &roots, &vec![None]).unwrap();
    let preview = bounded_restore_preview(&changes.created, &changes.overwritten, &changes.deleted);
    assert_eq!(
        preview.path_summary.unwrap().created,
        (MAX_RESTORE_PREVIEW_ROWS + 1) as u32
    );
    assert_eq!(preview.created_paths.len(), MAX_RESTORE_PREVIEW_ROWS);
}

#[test]
fn exact_restore_preflight_reports_create_overwrite_and_delete() {
    let paths = vec![
        snapshot("source/root", true),
        snapshot("source/root/old.txt", false),
        snapshot("source/root/new.txt", false),
    ];
    let items = vec![publish("source/root", "/srv/app")];
    let changes = compare(
        &paths,
        &items,
        &seen("app", vec![seen_file("old.txt"), seen_file("extra.txt")]),
    )
    .unwrap();
    assert!(changes.created.iter().any(|path| path.ends_with("new.txt")));
    assert!(changes
        .overwritten
        .iter()
        .any(|path| path.ends_with("old.txt")));
    assert!(changes
        .deleted
        .iter()
        .any(|path| path.ends_with("extra.txt")));
}

#[test]
fn existing_empty_directory_is_an_overwrite() {
    let changes = compare(
        &[snapshot("root", true)],
        &[publish("root", "/srv/app")],
        &seen("app", Vec::new()),
    )
    .unwrap();
    assert!(changes.created.is_empty());
    assert_eq!(changes.overwritten, vec!["/srv/app"]);
    assert!(changes.deleted.is_empty());
    assert_eq!(
        bounded_restore_preview(&changes.created, &changes.overwritten, &changes.deleted)
            .path_summary
            .unwrap()
            .overwritten,
        1
    );
}

#[test]
fn restore_preflight_never_follows_destination_symlinks() {
    for nested in [false, true] {
        let publish_root = if nested { "/srv/directory" } else { "/srv/root-link" };
        let link = if nested {
            "/srv/directory/nested-link"
        } else {
            "/srv/root-link"
        };
        let snapshot_root = if nested {
            "source/root/nested-link"
        } else {
            "source/root"
        };
        let mut paths = vec![
            snapshot(snapshot_root, true),
            snapshot(&format!("{snapshot_root}/restored.txt"), false),
        ];
        if nested {
            paths.push(snapshot("source/root", true));
        }
        let tree = if nested {
            seen("directory", vec![seen_file("nested-link")])
        } else {
            seen_file("root-link")
        };
        let changes = compare(&paths, &[publish("source/root", publish_root)], &tree).unwrap();
        assert_eq!(changes.created, vec![format!("{link}/restored.txt")]);
        let mut expected_overwritten = vec![link.to_string()];
        if nested {
            expected_overwritten.push(publish_root.to_string());
        }
        expected_overwritten.sort();
        assert_eq!(changes.overwritten, expected_overwritten);
        assert!(changes.deleted.is_empty());
    }
}

#[test]
fn missing_volume_preview_is_relative_and_does_not_inspect_host_paths() {
    let items = vec![publish(
        "snapshot/data",
        "/var/lib/docker/volumes/new-volume/_data",
    )];
    let paths = vec![snapshot("snapshot/data/config.toml", false)];
    let changes = compare_missing_volume_paths(&paths, &items, "new-volume").unwrap();
    assert_eq!(changes.created, ["volume://new-volume/config.toml"]);
    assert!(changes.overwritten.is_empty());
    assert!(changes.deleted.is_empty());
    let outside = vec![publish("snapshot/data", "/etc")];
    assert!(compare_missing_volume_paths(&paths, &outside, "new-volume").is_err());
}

#[test]
fn snapshot_paths_are_mapped_by_the_longest_match() {
    let items = vec![publish("root", "/srv/app"), publish("root/data", "/mnt/data")];
    let (index, destination) = map_snapshot_path("root/data/file", &items).unwrap().unwrap();
    assert!(destination == "/mnt/data/file" || destination == "file");
    assert_eq!(index, 1);
    assert_eq!(map_snapshot_path("elsewhere", &items), Ok(None));
    assert_eq!(
        map_snapshot_path("../root", &items),
        Err(PreviewError::UnsafeSnapshotPath)
    );
}

#[test]
fn nothing_stands_behind_a_link() {
    assert!(restore_preview_metadata(&vec![
        Standing::Directory,
        Standing::Other
    ]));
    assert!(!restore_preview_metadata(&vec![
        Standing::Other,
        Standing::Other
    ]));
    assert!(!restore_preview_metadata(&vec![
        Standing::Directory,
        Standing::Missing
    ]));
    let mut deleted: Vec<String> = Vec::new();
    collect_unexpected_paths(
        "/srv/app",
        &Some(seen("app", vec![seen_file("a"), seen_file("b")])),
        &texts(&["/srv/app", "/srv/app/a"]),
        &mut deleted,
    )
    .unwrap();
    assert_eq!(deleted, vec!["/srv/app/b"]);
}

#[test]
fn preflights_name_what_is_there() {
    let changes = PathChanges {
        created: texts(&["/srv/app"]),
        overwritten: Vec::new(),
        deleted: Vec::new(),
    };
    let existing = preflight_restore(Destination::Existing, &changes, texts(&["web"]));
    assert!(existing.destination_exists);
    assert_eq!(existing.containers_to_stop, vec!["web"]);
    let missing = preflight_restore(Destination::MissingVolume, &changes, texts(&["web"]));
    assert!(!missing.destination_exists);
    assert!(missing.containers_to_stop.is_empty());
    assert_eq!(
        judge_destination(true, false, false),
        Some(Destination::MissingVolume)
    );
    assert_eq!(
        judge_destination(false, false, false),
        Some(Destination::MissingStack)
    );
    assert_eq!(judge_destination(true, true, false), None);
}

#[test]
fn failed_staging_cleanup_requires_recovery_even_after_cancellation() {
    for error in [Some("snapshot restore failed".to_string()), None] {
        let result = finish_restore_before_publication(
            &error,
            &Err("cannot remove staging journal".to_string()),
        );
        assert_eq!(result.end, TransactionEnd::StagingCleanupFailed);
        let message = result.message.unwrap();
        assert!(message.contains("restore staging cleanup failed"));
        assert!(message.contains("cannot remove staging journal"));
        assert!(message.contains("snapshot restore failed") || message.contains("cancelled"));
    }
}

#[test]
fn successful_staging_cleanup_preserves_failure_or_proves_cancellation() {
    assert_eq!(
        finish_restore_before_publication(&Some("restore failed".to_string()), &Ok(())).end,
        TransactionEnd::FailedBeforePublication
    );
    assert_eq!(
        finish_restore_before_publication(&None, &Ok(())).end,
        TransactionEnd::Published {
            rolled_back: true,
            finalization_pending: false
        }
    );
}

#[test]
fn restore_verification_ignores_only_directory_storage_length() {
    for len in [0, 6, 4096, u64::MAX] {
        assert_eq!(restore_verification_len(true, len), 0);
        assert_eq!(restore_verification_len(false, len), len);
    }
}

#[test]
fn selected_volume_destinations_use_the_inspected_mountpoint() {
    let items = vec![publish(
        "source/_data/config/app.toml",
        "/var/lib/docker/volumes/app-data/_data/config/app.toml",
    )];
    let resolved = resolve_volume_publish_destinations(
        &items,
        "app-data",
        "/custom/docker/volumes/app-data/data",
        false,
    )
    .unwrap();
    assert_eq!(
        resolved[0].destination,
        "/custom/docker/volumes/app-data/data/config/app.toml"
    );
    assert_eq!(
        resolved[0].destination_root.as_deref(),
        Some("/custom/docker/volumes/app-data/data")
    );
}

#[test]
fn publish_failure_restores_original_destination() {
    let script = publish_restore_entry(&entry(false), true).unwrap();
    assert_eq!(script[0], EntryStep::MoveAside);
    assert!(script.contains(&EntryStep::MoveIn));
    assert_eq!(publish_failure(EntryStep::MoveIn), OnFailure::RollBack);
    assert_eq!(publish_failure(EntryStep::SyncDestination), OnFailure::Abort);
    let back = rollback_published(&entry(true), true, false).unwrap();
    assert!(back.contains(&EntryStep::MoveBack));
    assert_eq!(
        effect_of(&entry(true), EntryStep::MoveBack),
        Effect::Rename {
            from: "/srv/app.komodo-rollback-id".to_string(),
            to: "/srv/app".to_string(),
        }
    );
    assert!(discard_rollback(true).contains(&EntryStep::RemoveRollback));
}

#[test]
fn repeated_recovery_preserves_an_already_restored_original() {
    let again = rollback_published(&entry(false), false, true).unwrap();
    assert!(!again.contains(&EntryStep::RemoveDestination));
    assert!(!again.contains(&EntryStep::MoveBack));
}

#[test]
fn destination_existence_changes_are_detected_before_publish() {
    assert!(destination_existence_matches(&entry(false), true));
    assert!(!destination_existence_matches(&entry(false), false));
    assert!(publish_restore_entry(&entry(false), false).is_none());
    assert!(destinations_unchanged(&vec![entry(false)], &vec![true]));
    assert!(!destinations_unchanged(&vec![entry(false)], &vec![false]));
}

#[test]
fn rollback_names_preserve_complete_destination_filenames() {
    assert_eq!(
        restore_rollback_path("/srv/app.tar.gz", "id").unwrap(),
        "/srv/app.tar.gz.komodo-rollback-id"
    );
    assert_ne!(
        restore_rollback_path("/srv/config.toml", "id"),
        restore_rollback_path("/srv/config.yaml", "id")
    );
    assert!(restore_rollback_path("/", "id").is_err());
}

#[test]
fn rollback_names_must_not_alias_each_other_or_another_destination() {
    let items = vec![
        publish("source/config", "/real/config"),
        publish("source/config", "/real/config.komodo-rollback-id"),
    ];
    let (rollback, checks) =
        validate_restore_rollback_paths(&items, 0, &Vec::new(), "id").unwrap();
    assert_eq!(rollback, "/real/config.komodo-rollback-id");
    assert!(checks.iter().any(|check| check.left == check.right
        && check.error == PublishError::RollbackOverlapsDestination));
    let (_, checks) =
        validate_restore_rollback_paths(&items, 1, &vec![rollback.clone()], "id").unwrap();
    assert!(checks.iter().any(
        |check| check.right == rollback && check.error == PublishError::OverlappingRollbacks
    ));
}

#[test]
fn entries_are_planned_next_to_their_destination() {
    let plan = plan_entry("/srv/.stage", &publish("root", "/srv/app"), "id", 0).unwrap();
    assert_eq!(plan.destination_parent, "/srv");
    assert_eq!(plan.restored, "/srv/.stage/root");
    assert!(plan.source.starts_with("/srv/"));
    assert_ne!(plan.source, plan.destination);
    let planned = entry_of(plan, true);
    assert_eq!(planned.original_existed, Some(true));
    assert_eq!(
        plan_entry("/srv/.stage", &publish("../root", "/srv/app"), "id", 0),
        Err(PublishError::UnsafeSnapshotPath)
    );
    assert_eq!(
        plan_entry("/srv/.stage", &publish("root", "srv/app"), "id", 0),
        Err(PublishError::RelativeDestination)
    );
    assert_eq!(admit_staging(true, true), Err(PublishError::RollbackExists));
    assert_eq!(
        admit_staging(false, false),
        Err(PublishError::MissingSnapshotPath)
    );
    assert_eq!(admit_source(true), Err(PublishError::SourceExists));
    assert_eq!(admit_source(false), Ok(()));
}

#[test]
fn rolled_back_restore_retains_created_volume_ownership() {
    let opened = persist_restore_volume_journal(false, "data", "plan").unwrap();
    assert_eq!(
        opened.owned_volume,
        Some(RestoreOwnedVolume {
            volume_name: "data".to_string(),
            restore_plan_id: "plan".to_string(),
        })
    );
    assert!(persist_restore_volume_journal(true, "data", "plan").is_err());
    let published =
        open_publication_journal(Some(opened), "/srv/.stage", vec![entry(false)], false).unwrap();
    assert_eq!(published.entries.len(), 1);
    let kept = cleanup_rolled_back_restore(&published).unwrap();
    assert!(kept.entries.is_empty());
    assert!(kept.owned_volume.is_some());
    assert_eq!(
        open_publication_journal(Some(published), "/srv/.stage", Vec::new(), false),
        Err(PublishError::JournalInUse)
    );
}

#[test]
fn publications_are_journaled_first() {
    let mut stage = PublishStage::Validate;
    let mut stages: Vec<PublishStage> = Vec::new();
    while !matches!(stage, PublishStage::Ended { .. }) {
        stages.push(stage);
        assert!(stages.len() < 20);
        stage = publish_restore_in(stage, 2, false, PublishHappened::Succeeded);
    }
    assert_eq!(
        stage,
        PublishStage::Ended {
            end: PublishEnd::Published
        }
    );
    let journal = stages
        .iter()
        .position(|stage| *stage == PublishStage::OpenJournal)
        .unwrap();
    let first = stages
        .iter()
        .position(|stage| *stage == PublishStage::PublishEntry { index: 0 })
        .unwrap();
    assert!(journal < first);
    assert_eq!(
        publish_restore_in(
            PublishStage::StageEntry { index: 1 },
            2,
            false,
            PublishHappened::Failed
        ),
        PublishStage::Ended {
            end: PublishEnd::NotStarted
        }
    );
    assert_eq!(
        publish_restore_in(
            PublishStage::PublishEntry { index: 1 },
            2,
            false,
            PublishHappened::Failed
        ),
        PublishStage::RollBack
    );
    assert_eq!(
        publish_restore_in(
            PublishStage::PublishEntry { index: 1 },
            2,
            true,
            PublishHappened::Succeeded
        ),
        PublishStage::Ended {
            end: PublishEnd::Kept
        }
    );
    assert_eq!(
        publish_restore_in(PublishStage::RollBack, 2, true, PublishHappened::Succeeded),
        PublishStage::Ended {
            end: PublishEnd::RolledBack
        }
    );
    assert_eq!(
        publish_restore_in(PublishStage::Commit, 2, false, PublishHappened::Uncertain),
        PublishStage::Ended {
            end: PublishEnd::BrokeOff
        }
    );
}

#[test]
fn restores_stop_what_they_noted_and_end() {
    let facts = RunFacts {
        cancelled: false,
        volume: false,
        owned: false,
        containers: 2,
    };
    let mut stage = begin_restore(&facts);
    let mut stages: Vec<RunStage> = Vec::new();
    while stage != RunStage::Transact {
        stages.push(stage);
        assert!(stages.len() < 20);
        stage = run_restore(stage, &facts, Happened::Succeeded);
    }
    let noted = stages
        .iter()
        .position(|stage| *stage == RunStage::PersistQuiesce)
        .unwrap();
    let stopped = stages
        .iter()
        .position(|stage| *stage == RunStage::Stop { index: 0 })
        .unwrap();
    assert!(noted < stopped);
    let published = run_restore(
        stage,
        &facts,
        Happened::Ended {
            end: TransactionEnd::Published {
                rolled_back: false,
                finalization_pending: false,
            },
        },
    );
    assert_eq!(
        published,
        RunStage::Restart {
            reason: Reason::Published
        }
    );
    assert_eq!(
        run_restore(published, &facts, Happened::Succeeded),
        RunStage::Responded {
            ending: Ending::Restarted { rolled_back: false }
        }
    );
    assert_eq!(
        run_restore(RunStage::Preflight, &facts, Happened::Failed),
        RunStage::Failed {
            error: RunError::PreviewChanged
        }
    );
    let cancelled = RunFacts {
        cancelled: true,
        ..facts
    };
    assert_eq!(
        begin_restore(&cancelled),
        RunStage::Failed {
            error: RunError::Cancelled
        }
    );
}

#[test]
fn responses_tell_about_stopped_containers() {
    let told = Told {
        error: "disk full".to_string(),
        restarted: texts(&["web"]),
        restart_errors: texts(&["worker failed"]),
        cleanup_error: Some("volume busy".to_string()),
    };
    let restarted = restore_response(Ending::Restarted { rolled_back: false }, &told);
    assert!(restarted.complete);
    assert_eq!(restarted.containers_restarted, vec!["web"]);
    let kept = restore_response(Ending::VolumeKept, &told);
    assert!(kept.critical_error.unwrap().ends_with("volume busy"));
    let unsure = restore_response(Ending::Indeterminate, &told);
    assert!(unsure.critical_error.unwrap().ends_with("disk full"));
    let pending = restore_response(Ending::Pending, &told);
    assert!(pending.finalization_pending);
    assert_eq!(
        restore_completion_state(true, true),
        VykarBackupCompletionState::Prepared
    );
    assert_eq!(
        restore_completion_state(false, true),
        VykarBackupCompletionState::RecoveryRequired
    );
    assert_eq!(
        restore_completion_state(false, false),
        VykarBackupCompletionState::Complete
    );
    assert!(containers_confirmed(
        &texts(&["a", "b"]),
        &texts(&["b", "a"])
    ));
    assert!(!containers_confirmed(&texts(&["a"]), &texts(&["a", "a"])));
}

#[test]
fn transactions_clean_what_they_staged() {
    let mut stage = TransactionStage::NoteStaging;
    let mut steps: usize = 0;
    while stage != TransactionStage::Publish {
        stage = transactional_restore(stage, StepOutcome::Succeeded, false);
        steps += 1;
        assert!(steps < 10);
    }
    assert_eq!(
        transactional_restore(stage, StepOutcome::Published { rolled_back: false }, true),
        TransactionStage::Ended {
            end: TransactionEnd::Published {
                rolled_back: false,
                finalization_pending: true
            }
        }
    );
    assert_eq!(
        transactional_restore(TransactionStage::RestoreSnapshot, StepOutcome::Failed, false),
        TransactionStage::CleanStaging { cancelled: false }
    );
    assert_eq!(
        begin_transaction(&Vec::new(), "id", false),
        Err(BeginError::EmptyPlan)
    );
    assert_eq!(
        not_begun(BeginError::Cancelled),
        TransactionEnd::Published {
            rolled_back: true,
            finalization_pending: false
        }
    );
    assert!(begin_transaction(&vec![publish("root", "/srv/app")], "id", false)
        .unwrap()
        .starts_with("/srv/"));
}

#[test]
fn volumes_of_others_are_left_alone() {
    let plan = Some("plan".to_string());
    assert_eq!(
        prepare_restore_volume(true, &None, "plan", false),
        Ok(VolumePlan::Use)
    );
    assert_eq!(
        prepare_restore_volume(false, &None, "plan", false),
        Err(VolumeError::Missing)
    );
    assert_eq!(
        prepare_restore_volume(false, &None, "plan", true),
        Ok(VolumePlan::Create)
    );
    assert_eq!(
        prepare_restore_volume(true, &plan, "plan", true),
        Ok(VolumePlan::Adopt)
    );
    assert_eq!(
        prepare_restore_volume(true, &None, "plan", true),
        Err(VolumeError::Exists)
    );
    assert_eq!(
        check_created_volume(&None, "plan"),
        Err(VolumeError::Contested)
    );
    assert_eq!(check_created_volume(&plan, "plan"), Ok(()));
    assert_eq!(volume_plan_id("", "journal"), "journal");
    assert_eq!(volume_plan_id("plan", "journal"), "plan");
    let owned = RestoreOwnedVolume {
        volume_name: "data".to_string(),
        restore_plan_id: "plan".to_string(),
    };
    assert!(remove_owned_restore_volume(&Some(plan), &owned));
    assert!(!remove_owned_restore_volume(&Some(None), &owned));
    assert!(!remove_owned_restore_volume(&None, &owned));
}

#[test]
fn staged_paths_are_removed_in_reverse_and_then_the_note() {
    assert_eq!(
        plan_staging_cleanup(&vec![
            StagedFound::Directory,
            StagedFound::Gone,
            StagedFound::Other
        ]),
        StagingCleanup {
            removals: vec![2, 0],
            note_goes: true,
        }
    );
    assert_eq!(
        plan_staging_cleanup(&Vec::new()),
        StagingCleanup {
            removals: Vec::new(),
            note_goes: true,
        }
    );
}

#[test]
fn notes_stay_while_their_storage_may_be_out_of_reach() {
    for found in [StagedFound::GoneWithParent, StagedFound::Unknown] {
        assert_eq!(
            plan_staging_cleanup(&vec![StagedFound::Directory, found, StagedFound::Other]),
            StagingCleanup {
                removals: vec![2],
                note_goes: false,
            }
        );
    }
}
