//! Trees, their revisions, and where roots are.

use sha2::Digest;

use periphery::path::PathError;
use periphery::file_manager::operation::OperationError;
use periphery::file_manager::copying::CopyTarget;
use periphery::file_manager::actions::ActionError;
use periphery::config::PeripheryConfig;
use periphery::file_manager::applying::admit_text;
use periphery::file_manager::applying::apply_operation_planned;
use periphery::file_manager::applying::copied_mode;
use periphery::file_manager::applying::copy_entry_counted;
use periphery::file_manager::applying::judge_state_directory;
use periphery::file_manager::applying::judge_state_marker;
use periphery::file_manager::applying::operation_space_requirements;
use periphery::file_manager::applying::operation_work;
use periphery::file_manager::applying::remove_entry_progress;
use periphery::file_manager::applying::supports_action_journal;
use periphery::file_manager::applying::verify_plan_revisions;
use periphery::file_manager::applying::Application;
use periphery::file_manager::applying::CopyRefusal;
use periphery::file_manager::applying::EntrySeen;
use periphery::file_manager::applying::ExistingText;
use periphery::file_manager::applying::PlaceSeen;
use periphery::file_manager::applying::StateError;
use periphery::file_manager::applying::StateSeen;
use periphery::file_manager::applying::WriteError;
use periphery::file_manager::journal::PathRevision;
use periphery::file_manager::limits::LimitError;
use periphery::file_manager::limits::SpaceRequirements;
use periphery::file_manager::limits::WorkTotal;
use periphery::file_manager::listing::admit_read;
use periphery::file_manager::listing::list_directory;
use periphery::file_manager::listing::read_text;
use periphery::file_manager::listing::FoundEntry;
use periphery::file_manager::listing::TextError;
use periphery::file_manager::operation::FileManagerEntryKind;
use periphery::file_manager::operation::FileManagerOperation;
use periphery::file_manager::operation::FileManagerRevision;
use periphery::file_manager::revision::content_revision;
use periphery::file_manager::revision::hash_tree_entry;
use periphery::file_manager::revision::metadata_tree_revision;
use periphery::file_manager::revision::revision;
use periphery::file_manager::revision::revision_bytes;
use periphery::file_manager::revision::HashPart;
use periphery::file_manager::revision::TreeDigest;
use periphery::file_manager::roots::capabilities;
use periphery::file_manager::roots::ensure_outside_private_journal;
use periphery::file_manager::roots::journal_root;
use periphery::file_manager::roots::locate_root;
use periphery::file_manager::roots::managed_transaction_path;
use periphery::file_manager::roots::paths_overlap;
use periphery::file_manager::roots::resolve_root;
use periphery::file_manager::roots::FileManagerTarget;
use periphery::file_manager::roots::RootError;
use periphery::file_manager::roots::SeenPath;
use periphery::file_manager::roots::StackTarget;
use periphery::file_manager::snapshots::apply_recorded_file_metadata;
use periphery::file_manager::snapshots::capture_journal_metadata;
use periphery::file_manager::snapshots::restore_journal_metadata;
use periphery::file_manager::snapshots::OwnerStep;
use periphery::file_manager::tree::work_for_entry;
use periphery::file_manager::tree::Entry;
use periphery::file_manager::tree::EntryMetadata;
use periphery::file_manager::tree::LeafKind;
use periphery::file_manager::tree::SinceEpoch;

fn metadata(len: u64, mode: u32) -> EntryMetadata {
    EntryMetadata {
        device: 1,
        inode: 2,
        len,
        mode,
        uid: 10,
        gid: 20,
        modified: Some(SinceEpoch {
            seconds: 5,
            nanoseconds: 6,
        }),
    }
}

fn file(name: &str, len: u64) -> Entry {
    Entry::Leaf {
        name: name.as_bytes().to_vec(),
        kind: LeafKind::File,
        metadata: metadata(len, 0o644),
    }
}

fn directory(name: &str, children: Vec<Entry>) -> Entry {
    Entry::Directory {
        name: name.as_bytes().to_vec(),
        metadata: metadata(4096, 0o755),
        children,
    }
}

fn config() -> PeripheryConfig {
    PeripheryConfig {
        root_directory: "/etc/komodo".to_string(),
        stack_dir: "/etc/komodo/stacks".to_string(),
        repo_dir: "/etc/komodo/repos".to_string(),
        file_manager_max_entries: 100,
    }
}

fn stack() -> StackTarget {
    StackTarget {
        on_swarm: false,
        name: "demo".to_string(),
        files_on_host: false,
        run_directory: String::new(),
        linked_repo: None,
        repo: String::new(),
        clone_path: String::new(),
        compose_file: None,
    }
}

fn digest(bytes: &[u8]) -> String {
    hex::encode(sha2::Sha256::digest(bytes))
}

#[test]
fn revisions_are_digests_of_the_metadata() {
    let facts = metadata(3, 0o644);
    let mut bytes: Vec<u8> = Vec::new();
    bytes.extend_from_slice(&1u64.to_le_bytes());
    bytes.extend_from_slice(&2u64.to_le_bytes());
    bytes.extend_from_slice(&3u64.to_le_bytes());
    bytes.extend_from_slice(&0o644u32.to_le_bytes());
    bytes.extend_from_slice(&10u32.to_le_bytes());
    bytes.extend_from_slice(&20u32.to_le_bytes());
    bytes.push(1);
    bytes.extend_from_slice(&5u64.to_le_bytes());
    bytes.extend_from_slice(&6u32.to_le_bytes());
    let made = revision_bytes(&facts, FileManagerEntryKind::File);
    assert_eq!(&made[..bytes.len()], &bytes[..]);
    assert_eq!(made.len(), bytes.len() + 1);
    let id = revision(&facts, FileManagerEntryKind::File).id;
    assert_eq!(id, digest(&made));
    let mut with_contents = id.clone().into_bytes();
    with_contents.extend_from_slice(b"text");
    assert_eq!(
        content_revision(&facts, FileManagerEntryKind::File, &b"text".to_vec()).id,
        digest(&with_contents)
    );
    let mut stream = TreeDigest::start();
    stream.add_text("ab");
    stream.add_bytes(&vec![99]);
    assert_eq!(stream.finish().id, digest(b"abc"));
}

#[test]
fn metadata_revision_detects_permission_changes() {
    let before = revision(&metadata(3, 0o644), FileManagerEntryKind::File);
    let after = revision(&metadata(3, 0o600), FileManagerEntryKind::File);
    assert_ne!(before.id, after.id);
    assert_ne!(
        before.id,
        revision(&metadata(3, 0o644), FileManagerEntryKind::Symlink).id
    );
}

#[test]
fn metadata_tree_revision_detects_nested_metadata_changes() {
    let before = metadata_tree_revision(
        &Some(directory("d", vec![directory("e", vec![file("a", 1)])])),
        10,
    )
    .unwrap();
    let after = metadata_tree_revision(
        &Some(directory("d", vec![directory("e", vec![file("a", 2)])])),
        10,
    )
    .unwrap();
    assert_ne!(before, after);
    assert_eq!(metadata_tree_revision(&None, 10), Ok(None));
    assert_eq!(
        metadata_tree_revision(&Some(directory("d", vec![file("a", 1)])), 1),
        Err(LimitError::TooManyEntries { maximum: 1 })
    );
}

#[test]
fn contents_are_part_of_a_hashed_tree() {
    let mut parts: Vec<HashPart> = Vec::new();
    let counted = hash_tree_entry(
        &directory("d", vec![file("a", 1)]),
        &b"d".to_vec(),
        &mut parts,
        0,
        0,
        10,
    );
    assert_eq!(counted, Ok(2));
    assert!(parts.contains(&HashPart::Contents {
        path: b"d/a".to_vec()
    }));
}

#[test]
fn names_need_not_be_texts() {
    let odd = |len: u64| Entry::Leaf {
        name: b"\xff".to_vec(),
        kind: LeafKind::File,
        metadata: metadata(len, 0o644),
    };
    let tree = directory("d", vec![file("a", 3), odd(4)]);
    assert_eq!(tree.text(), Some("d".to_string()));
    assert_eq!(odd(4).text(), None);
    let work = work_for_entry(&tree, 0, 10).unwrap();
    assert_eq!((work.entries, work.bytes), (3, 7));
    assert_eq!(copy_entry_counted(&tree, 0, 10), Ok(3));
    assert_eq!(
        remove_entry_progress(&tree, &b"x".to_vec())[1].path,
        b"x/\xff"
    );
    let mut parts: Vec<HashPart> = Vec::new();
    assert_eq!(
        hash_tree_entry(&tree, &b"d".to_vec(), &mut parts, 0, 0, 10),
        Ok(3)
    );
    assert!(parts.contains(&HashPart::Bytes(b"\xff".to_vec())));
    assert!(parts.contains(&HashPart::Contents {
        path: b"d/\xff".to_vec()
    }));
    assert_ne!(
        metadata_tree_revision(&Some(tree), 10),
        metadata_tree_revision(&Some(directory("d", vec![file("a", 3), file("b", 4)])), 10)
    );
    assert!(capture_journal_metadata(&directory("d", vec![odd(4)])).is_none());
}

#[test]
fn work_is_counted_within_its_limits() {
    let tree = directory("d", vec![file("a", 3), file("b", 4)]);
    assert_eq!(
        work_for_entry(&tree, 0, 10),
        Ok(WorkTotal {
            entries: 3,
            bytes: 7,
        })
    );
    assert_eq!(
        work_for_entry(&tree, 0, 2),
        Err(LimitError::TooManyEntries { maximum: 2 })
    );
    let mut deep = file("leaf", 1);
    for _ in 0..130 {
        deep = directory("d", vec![deep]);
    }
    assert_eq!(work_for_entry(&deep, 0, 1_000), Err(LimitError::TooDeep));
}

#[test]
fn extraction_capacity_includes_outer_rollback_and_local_staging() {
    let operation = FileManagerOperation::ExtractArchive {
        path: "archive.zip".to_string(),
        destination: "output".to_string(),
    };
    let watched = vec![Some(directory("output", vec![file("existing.txt", 4)]))];
    assert_eq!(
        operation_space_requirements(
            &operation,
            &watched,
            WorkTotal {
                entries: 1,
                bytes: 8,
            },
            8,
            100,
        )
        .unwrap(),
        SpaceRequirements {
            journal_bytes: 4,
            target_bytes: 8,
        }
    );
}

#[test]
fn operations_are_measured_by_their_selection() {
    let delete = FileManagerOperation::Delete {
        paths: vec!["d".to_string()],
    };
    let work = operation_work(
        &delete,
        &vec![Some(directory("d", vec![file("a", 3)]))],
        WorkTotal::zero(),
        10,
    )
    .unwrap();
    assert_eq!(work.entries, 2);
}

#[test]
fn names_are_enough_where_nothing_is_copied() {
    let rename = FileManagerOperation::Rename {
        path: "a".to_string(),
        new_name: "b".to_string(),
    };
    let source = Some(EntrySeen {
        device: 1,
        directory: false,
    });
    let place = |device: u64| {
        vec![PlaceSeen {
            parent_device: device,
            entry: None,
        }]
    };
    assert_eq!(
        supports_action_journal(&rename, &Vec::new(), 1, &vec![source], &place(1)),
        Ok(true)
    );
    assert_eq!(
        supports_action_journal(&rename, &Vec::new(), 1, &vec![source], &place(2)),
        Ok(false)
    );
}

#[test]
fn items_are_applied_as_they_were_planned() {
    let rename = FileManagerOperation::Rename {
        path: "a/old".to_string(),
        new_name: "new".to_string(),
    };
    assert_eq!(
        apply_operation_planned(&rename, &Vec::new(), &Vec::new(), 0, false).unwrap(),
        Application::Rename {
            from: "a/old".to_string(),
            to: "a/new".to_string(),
            replace: false,
        }
    );
    assert!(apply_operation_planned(&rename, &Vec::new(), &Vec::new(), 0, true).is_err());
}

#[test]
fn nothing_is_applied_outside_of_the_root() {
    let targets = vec![CopyTarget {
        source: "a".to_string(),
        destination: "../x".to_string(),
    }];
    for operation in [
        FileManagerOperation::CreateFile {
            path: "../x".to_string(),
        },
        FileManagerOperation::CreateDirectory {
            path: "../x".to_string(),
        },
        FileManagerOperation::Delete {
            paths: vec!["../x".to_string()],
        },
        FileManagerOperation::Copy {
            paths: vec!["a".to_string()],
            destination: "..".to_string(),
        },
        FileManagerOperation::WriteText {
            path: "../x".to_string(),
            contents: String::new(),
            expected_revision: FileManagerRevision { id: String::new() },
        },
    ] {
        assert_eq!(
            apply_operation_planned(&operation, &targets, &Vec::new(), 0, false),
            Err(ActionError::Operation(OperationError::Path(
                PathError::NotNormal
            )))
        );
    }
}

#[test]
fn copies_lose_privileges_unless_they_are_kept() {
    assert_eq!(copied_mode(0o104755, false), 0o755);
    assert_eq!(copied_mode(0o104755, true), 0o4755);
    assert_eq!(copy_entry_counted(&directory("d", vec![file("a", 1)]), 0, 10), Ok(2));
    let link = Entry::Leaf {
        name: b"l".to_vec(),
        kind: LeafKind::Symlink,
        metadata: metadata(0, 0o777),
    };
    assert_eq!(copy_entry_counted(&link, 0, 10), Err(CopyRefusal::Symlink));
    let special = Entry::Leaf {
        name: b"s".to_vec(),
        kind: LeafKind::Special,
        metadata: metadata(0, 0o777),
    };
    assert_eq!(copy_entry_counted(&special, 0, 10), Err(CopyRefusal::Special));
}

#[test]
fn directories_go_after_what_they_hold() {
    let steps = remove_entry_progress(&directory("d", vec![file("a", 3)]), &b"x/d".to_vec());
    assert_eq!(steps.len(), 2);
    assert_eq!(steps[0].path, b"x/d/a");
    assert_eq!(steps[0].bytes, 3);
    assert_eq!(steps[1].path, b"x/d");
    assert!(steps[1].directory);
}

#[test]
fn text_write_rejects_a_stale_content_revision() {
    let known = FileManagerRevision {
        id: "old".to_string(),
    };
    let stale = Some(ExistingText {
        regular: true,
        revision: FileManagerRevision {
            id: "new".to_string(),
        },
    });
    assert_eq!(admit_text(&stale, &known), Err(WriteError::Changed));
    let current = Some(ExistingText {
        regular: true,
        revision: FileManagerRevision {
            id: "old".to_string(),
        },
    });
    assert_eq!(admit_text(&current, &known), Ok(()));
    let link = Some(ExistingText {
        regular: false,
        revision: FileManagerRevision {
            id: "old".to_string(),
        },
    });
    assert_eq!(admit_text(&link, &known), Err(WriteError::NotRegular));
    assert_eq!(admit_text(&None, &known), Err(WriteError::Missing));
    let new = FileManagerRevision { id: String::new() };
    assert_eq!(admit_text(&None, &new), Ok(()));
}

#[test]
fn planned_revision_recheck_rejects_post_snapshot_change() {
    let noted = vec![PathRevision {
        path: "a".to_string(),
        revision: Some(FileManagerRevision {
            id: "r".to_string(),
        }),
    }];
    let same = vec![Some(FileManagerRevision {
        id: "r".to_string(),
    })];
    let other = vec![Some(FileManagerRevision {
        id: "s".to_string(),
    })];
    assert!(verify_plan_revisions(&noted, &same));
    assert!(!verify_plan_revisions(&noted, &other));
    assert!(!verify_plan_revisions(&noted, &vec![None]));
}

#[test]
fn target_local_recovery_state_requires_ownership_marker() {
    assert_eq!(judge_state_directory(StateSeen::Missing, 1), Ok(true));
    assert_eq!(
        judge_state_directory(StateSeen::Directory { owner: 1 }, 1),
        Ok(false)
    );
    assert_eq!(
        judge_state_directory(StateSeen::Directory { owner: 2 }, 1),
        Err(StateError::NotOwned)
    );
    assert_eq!(
        judge_state_directory(StateSeen::Other, 1),
        Err(StateError::NotADirectory)
    );
    assert_eq!(judge_state_marker(&None), Err(StateError::NotManaged));
    assert_eq!(
        judge_state_marker(&Some(b"other".to_vec())),
        Err(StateError::InvalidMarker)
    );
    assert_eq!(
        judge_state_marker(&Some(b"Komodo File Manager state v1\n".to_vec())),
        Ok(())
    );
}

#[test]
fn listings_are_sorted_and_hide_what_is_private() {
    let found = |name: &str, kind: FileManagerEntryKind| FoundEntry {
        name: name.to_string(),
        kind,
        metadata: metadata(1, 0o644),
        modified_at: 7,
    };
    let entries = list_directory(
        "data",
        &vec![
            found("b.txt", FileManagerEntryKind::File),
            found(".komodo-file-manager", FileManagerEntryKind::Directory),
            found(".komodo-upload-1", FileManagerEntryKind::File),
            found("zoo", FileManagerEntryKind::Directory),
            found("A.txt", FileManagerEntryKind::File),
        ],
        &Some("data/b.txt".to_string()),
        10,
    )
    .unwrap();
    let names: Vec<&str> = entries.iter().map(|entry| entry.name.as_str()).collect();
    assert_eq!(names, vec!["zoo", "A.txt", "b.txt"]);
    assert_eq!(entries[2].path, "data/b.txt");
    assert!(entries[2].managed);
    assert!(!entries[1].managed);
    assert!(list_directory(
        "data",
        &vec![found("a", FileManagerEntryKind::File)],
        &None,
        0
    )
    .is_err());
}

#[test]
fn only_text_is_read_as_text() {
    assert_eq!(admit_read(false, 1), Err(TextError::NotRegular));
    assert_eq!(admit_read(true, 4 * 1024 * 1024 + 1), Err(TextError::TooLarge));
    assert_eq!(admit_read(true, 4 * 1024 * 1024), Ok(()));
    let facts = metadata(4, 0o644);
    let read = |bytes: &[u8]| read_text("a".to_string(), &facts, bytes.to_vec());
    let text = read("t\u{e9}xt".as_bytes()).unwrap();
    assert_eq!(text.contents, "t\u{e9}xt");
    assert_eq!(
        text.revision,
        content_revision(
            &facts,
            FileManagerEntryKind::File,
            &"t\u{e9}xt".as_bytes().to_vec()
        )
    );
    assert_eq!(read(b"a\0b"), Err(TextError::Binary));
    assert_eq!(read(b"\xff"), Err(TextError::NotUtf8));
}

#[test]
fn roots_are_where_stacks_and_volumes_are() {
    let volume = FileManagerTarget::Volume {
        mountpoint: "/var/lib/docker/volumes/data/_data".to_string(),
    };
    let location = locate_root(&volume, &config()).unwrap();
    assert_eq!(location.path, "/var/lib/docker/volumes/data/_data");
    let root = resolve_root(location);
    assert!(!root.read_only);
    assert_eq!(root.key, digest(b"/var/lib/docker/volumes/data/_data"));
    assert_eq!(
        locate_root(
            &FileManagerTarget::Volume {
                mountpoint: String::new()
            },
            &config()
        ),
        Err(RootError::NoMountpoint)
    );
    let swarm = StackTarget {
        on_swarm: true,
        ..stack()
    };
    assert_eq!(
        locate_root(&FileManagerTarget::Stack(swarm), &config()),
        Err(RootError::Swarm)
    );
    let managed = locate_root(&FileManagerTarget::Stack(stack()), &config()).unwrap();
    assert_eq!(managed.path, "/etc/komodo/stacks/demo");
    assert_eq!(managed.managed_file.as_deref(), Some("compose.yaml"));
    assert!(!managed.read_only);
}

#[test]
fn transactions_are_stored_under_their_uuid() {
    assert_eq!(journal_root(&config()), "/etc/komodo/file-manager-journal");
    assert_eq!(
        managed_transaction_path(&config(), "67E55044-10B1-426F-9247-BB680E5FE0C8").unwrap(),
        "/etc/komodo/file-manager-journal/managed-transactions/67e55044-10b1-426f-9247-bb680e5fe0c8.json"
    );
    assert!(managed_transaction_path(&config(), "../escape").is_none());
}

#[test]
fn private_journal_overlap_detects_aliased_parent() {
    let seen = |path: &str, identity: Option<(u64, u64)>, ancestors: Vec<Option<(u64, u64)>>| {
        SeenPath {
            path: path.to_string(),
            identity,
            ancestors,
        }
    };
    let journal = seen(
        "/srv/private/journal",
        Some((1, 3)),
        vec![Some((1, 3)), Some((1, 2)), Some((1, 1))],
    );
    let alias = seen("/alias", Some((1, 2)), vec![Some((1, 2)), Some((1, 1))]);
    assert!(paths_overlap(&alias, &journal));
    assert!(paths_overlap(&journal, &alias));
    assert_eq!(
        ensure_outside_private_journal(&alias, &journal),
        Err(RootError::PrivateJournal)
    );
    let apart = seen("/apart", Some((1, 9)), vec![Some((1, 9)), Some((1, 1))]);
    assert_eq!(ensure_outside_private_journal(&apart, &journal), Ok(()));
}

#[test]
fn unavailable_roots_are_told_why() {
    let location = locate_root(&FileManagerTarget::Stack(stack()), &config()).unwrap();
    let can = capabilities(resolve_root(location), false, true, true);
    assert!(can.available);
    assert_eq!(can.managed_file.as_deref(), Some("compose.yaml"));
    let volume = locate_root(
        &FileManagerTarget::Volume {
            mountpoint: "/missing".to_string(),
        },
        &config(),
    )
    .unwrap();
    let cannot = capabilities(resolve_root(volume), true, false, false);
    assert!(!cannot.available);
    assert!(cannot
        .reason
        .unwrap()
        .contains("PERIPHERY_DOCKER_VOLUME_ROOT"));
}

#[test]
fn owners_are_recorded_and_put_back() {
    let recorded = capture_journal_metadata(&directory("d", vec![file("a", 1)])).unwrap();
    assert_eq!(recorded.len(), 2);
    assert_eq!(recorded[0].path, "");
    assert_eq!(recorded[1].path, "a");
    assert_eq!(recorded[1].mode & 0o777, 0o644);
    let steps = restore_journal_metadata("x/d", &recorded).unwrap();
    assert_eq!(steps.len(), 2);
    assert!(steps.iter().any(|step| step.path == "x/d/a"));
    let step = OwnerStep {
        path: "x".to_string(),
        mode: 0o644,
        uid: 1,
        gid: 1,
    };
    let change =
        apply_recorded_file_metadata(FileManagerEntryKind::File, 0, 0, &step, true).unwrap();
    assert!(change.change_owner);
}
