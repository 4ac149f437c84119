//! The course of a backup, its manifest, and comparing restored trees.

use sha2::Digest;

use periphery::backup::publication::PublishError;
use periphery::backup::publication::admit_copy;
use periphery::backup::verification::same_tree;
use periphery::backup::verification::ComparedDigest;
use periphery::backup::backup_run::TaskEnd;
use periphery::backup::backup_run::respond_batch;
use periphery::backup::backup_run::next_task;
use periphery::backup::backup_run::repository_results;
use periphery::backup::backup_run::RepositoryStep;
use periphery::backup::backup_run::next_repository_step;
use periphery::backup::backup_run::first_repository_step;
use periphery::backup::backup_run::BackupIdentity;
use periphery::backup::backup_run::begin_backup;
use periphery::backup::backup_run::describe_backup;
use periphery::backup::backup_run::internal_storage_dir;
use periphery::backup::backup_run::left_out;
use periphery::backup::backup_run::plan_batch;
use periphery::backup::backup_run::respond_unstopped_batch;
use periphery::backup::backup_run::respond_unwritten;
use periphery::backup::backup_run::respond_written;
use periphery::backup::backup_run::run_backup;
use periphery::backup::backup_run::run_backup_repositories;
use periphery::backup::backup_run::run_repository_backup;
use periphery::backup::backup_run::state_directory;
use periphery::backup::backup_run::vykar_cache_dir;
use periphery::backup::backup_run::write_manifest;
use periphery::backup::backup_run::BackupEnding;
use periphery::backup::backup_run::BackupError;
use periphery::backup::backup_run::BackupFacts;
use periphery::backup::backup_run::BackupHappened;
use periphery::backup::backup_run::BackupStage;
use periphery::backup::backup_run::Discovery;
use periphery::backup::backup_run::RepositoryEnd;
use periphery::backup::backup_run::RetryError;
use periphery::backup::backup_run::StateDirectory;
use periphery::backup::backup_run::StoredSnapshot;
use periphery::backup::backup_run::WritePlan;
use periphery::backup::verification::tree_digest;
use periphery::backup::verification::Attribute;
use periphery::backup::verification::ComparedEntry;
use periphery::backup::verification::DigestPart;
use periphery::backup::verification::EntryFacts;

fn texts(list: &[&str]) -> Vec<String> {
    list.iter().map(|text| text.to_string()).collect()
}

fn digest(bytes: &[u8]) -> String {
    hex::encode(sha2::Sha256::digest(bytes))
}

fn facts(len: u64) -> EntryFacts {
    EntryFacts {
        mode: 0o100644,
        len,
        uid: 1,
        gid: 2,
        modified_seconds: 3,
        modified_nanoseconds: 4,
        attributes: vec![Attribute {
            name: b"user.a".to_vec(),
            value: Some(b"v".to_vec()),
        }],
    }
}

#[test]
fn stopped_containers_are_started_again() {
    let facts = BackupFacts {
        cancelled: false,
        stop_containers: true,
        containers: 2,
    };
    let mut stage = begin_backup(&facts);
    let mut stages: Vec<BackupStage> = Vec::new();
    while !matches!(stage, BackupStage::Responded { .. }) {
        stages.push(stage);
        assert!(stages.len() < 20);
        stage = run_backup(stage, &facts, BackupHappened::Succeeded);
    }
    assert_eq!(
        stage,
        BackupStage::Responded {
            ending: BackupEnding::Written
        }
    );
    assert!(stages.contains(&BackupStage::Restart { written: true }));
    assert_eq!(
        run_backup(BackupStage::Write, &facts, BackupHappened::Failed),
        BackupStage::Restart { written: false }
    );
    assert_eq!(
        run_backup(
            BackupStage::Stop { index: 1 },
            &facts,
            BackupHappened::Failed
        ),
        BackupStage::RestartUnstopped
    );
    let cancelled = BackupFacts {
        cancelled: true,
        ..facts
    };
    assert_eq!(
        begin_backup(&cancelled),
        BackupStage::Failed {
            error: BackupError::Cancelled
        }
    );
}

#[test]
fn containers_are_left_alone_where_nothing_is_stopped() {
    let facts = BackupFacts {
        cancelled: false,
        stop_containers: false,
        containers: 2,
    };
    assert_eq!(
        run_backup(BackupStage::Discover, &facts, BackupHappened::Succeeded),
        BackupStage::Write
    );
}

#[test]
fn repositories_tell_what_they_stored() {
    let stored = run_repository_backup(&RepositoryEnd::Stored(StoredSnapshot {
        partial: true,
        files: 3,
        original_size: 20,
        stored_size: 10,
    }));
    assert!(!stored.complete);
    assert!(stored.partial);
    assert_eq!(stored.files, 3);
    let broke = run_repository_backup(&RepositoryEnd::Broke("panic".to_string()));
    assert_eq!(broke.error.as_deref(), Some("Vykar worker failed: panic"));
    let failed = run_repository_backup(&RepositoryEnd::Failed("no space".to_string()));
    assert_eq!(failed.error.as_deref(), Some("no space"));
    assert!(left_out().complete);
}

#[test]
fn retries_write_one_repository() {
    assert_eq!(
        run_backup_repositories(false, false, true),
        Ok(WritePlan {
            write_primary: true,
            write_mirror: true,
        })
    );
    assert_eq!(
        run_backup_repositories(true, false, true),
        Ok(WritePlan {
            write_primary: true,
            write_mirror: false,
        })
    );
    assert_eq!(
        run_backup_repositories(true, true, true),
        Err(RetryError::Both)
    );
    assert_eq!(
        run_backup_repositories(false, true, false),
        Err(RetryError::NoMirror)
    );
}

#[test]
fn responses_name_the_containers() {
    let response = respond_unwritten(
        BackupEnding::StopFailed,
        "web did not stop",
        texts(&["web"]),
        texts(&["web"]),
        Vec::new(),
    );
    assert_eq!(
        response.primary.error.as_deref(),
        Some("Failed to quiesce every affected container: web did not stop")
    );
    assert_eq!(response.stopped_containers, vec!["web"]);
    let written = respond_written(left_out(), None, Vec::new(), Vec::new(), texts(&["error"]));
    assert_eq!(written.restart_errors, vec!["error"]);
    let batch = respond_unstopped_batch("web did not stop", Vec::new());
    assert_eq!(
        batch.discovery_errors,
        vec!["Failed to quiesce every affected container on the node: web did not stop"]
    );
}

#[test]
fn every_task_of_a_batch_is_accounted_for() {
    let plan = plan_batch(
        &texts(&["one", "two", "three", "four"]),
        &vec![
            Discovery::Found {
                paths: texts(&["/srv/one"]),
                running: texts(&["web", "db"]),
            },
            Discovery::Excluded("anonymous".to_string()),
            Discovery::Failed("no such stack".to_string()),
            Discovery::Found {
                paths: texts(&["/srv/four"]),
                running: texts(&["web"]),
            },
        ],
    );
    assert_eq!(plan.found, vec![0, 3]);
    assert_eq!(plan.results.len(), 1);
    assert_eq!(plan.results[0].source_label, "two");
    assert_eq!(plan.results[0].result.excluded.as_deref(), Some("anonymous"));
    assert_eq!(plan.discovery_errors, vec!["three: no such stack"]);
    assert_eq!(plan.running, vec!["db", "web"]);
}

#[test]
fn manifests_hold_the_digests_of_what_they_describe() {
    let identity = BackupIdentity {
        run_id: "run".to_string(),
        source_label: "stack".to_string(),
        hostname: "host".to_string(),
        komodo_version: "1.0".to_string(),
    };
    let manifest = write_manifest(
        identity.clone(),
        b"target".to_vec(),
        texts(&["/srv/a", "/srv/b"]),
        vec![("/link".to_string(), "/real".to_string())],
    )
    .unwrap();
    assert_eq!(manifest.schema, "komodo.backup-manifest/v1");
    assert_eq!(manifest.version, 1);
    assert_eq!(manifest.run_id, "run");
    assert_eq!(manifest.source_label, "stack");
    assert_eq!(manifest.hostname, "host");
    assert_eq!(manifest.komodo_version, "1.0");
    assert_eq!(manifest.target, b"target");
    assert_eq!(manifest.configuration_sha256, digest(b"target"));
    assert_eq!(
        manifest.paths_sha256,
        digest(br#"["/srv/a","/srv/b"]"#)
    );
    assert_eq!(
        manifest.path_aliases_sha256,
        digest(br#"{"/link":"/real"}"#)
    );
    let described = describe_backup(
        identity,
        b"target".to_vec(),
        Vec::new(),
        &b"[]".to_vec(),
        Vec::new(),
        &b"{}".to_vec(),
    );
    assert_eq!(described.paths_sha256, digest(b"[]"));
}

#[test]
fn state_is_kept_in_its_own_directories() {
    assert_eq!(
        internal_storage_dir("/etc/komodo/stacks"),
        "/etc/komodo/stacks/.komodo-vykar"
    );
    assert_eq!(
        vykar_cache_dir("/etc/komodo/stacks", "host"),
        format!("/etc/komodo/stacks/.komodo-vykar/{}", digest(b"host"))
    );
    assert_eq!(
        state_directory("/etc/komodo/stacks", StateDirectory::RestoreJournals),
        "/etc/komodo/stacks/.komodo-vykar/restore-journals"
    );
    assert_eq!(
        state_directory("/etc/komodo/stacks", StateDirectory::Receipts),
        "/etc/komodo/stacks/.komodo-vykar/backup-completion-journals"
    );
}

#[test]
fn restored_trees_are_compared_by_what_they_hold() {
    let tree = |directory_len: u64, file_len: u64| ComparedEntry::Directory {
        name: b"root".to_vec(),
        facts: facts(directory_len),
        children: vec![
            ComparedEntry::File {
                name: b"a".to_vec(),
                facts: facts(file_len),
            },
            ComparedEntry::Symlink {
                name: b"l".to_vec(),
                facts: facts(1),
                target: b"a".to_vec(),
            },
        ],
    };
    assert_eq!(tree_digest(&tree(10, 3)), tree_digest(&tree(4096, 3)));
    assert_ne!(tree_digest(&tree(10, 3)), tree_digest(&tree(10, 4)));

    let parts = tree_digest(&ComparedEntry::File {
        name: b"f".to_vec(),
        facts: facts(9),
    });
    let mut expected: Vec<u8> = Vec::new();
    expected.extend_from_slice(&0o100644u32.to_le_bytes());
    expected.extend_from_slice(&9u64.to_le_bytes());
    expected.extend_from_slice(&1u32.to_le_bytes());
    expected.extend_from_slice(&2u32.to_le_bytes());
    expected.extend_from_slice(&3i64.to_le_bytes());
    expected.extend_from_slice(&4i64.to_le_bytes());
    expected.extend_from_slice(b"user.av");
    assert_eq!(
        parts,
        vec![
            DigestPart::Bytes(expected),
            DigestPart::Bytes(b"file".to_vec()),
            DigestPart::Contents {
                path: Vec::new()
            },
        ]
    );
}

#[test]
fn digests_of_trees_forget_the_order_of_reading() {
    let with = |names: [&str; 2]| EntryFacts {
        attributes: names
            .iter()
            .map(|name| Attribute {
                name: name.as_bytes().to_vec(),
                value: Some(b"1".to_vec()),
            })
            .collect(),
        ..facts(3)
    };
    let leaf = |name: &[u8], names: [&str; 2]| ComparedEntry::File {
        name: name.to_vec(),
        facts: with(names),
    };
    let tree = |children: Vec<ComparedEntry>| ComparedEntry::Directory {
        name: b"root".to_vec(),
        facts: facts(1),
        children: vec![
            ComparedEntry::Directory {
                name: b"d".to_vec(),
                facts: facts(1),
                children,
            },
            leaf(b"c", ["user.x", "user.y"]),
        ],
    };
    let first = tree_digest(&tree(vec![
        leaf(b"b", ["user.x", "user.y"]),
        leaf(b"a", ["user.y", "user.x"]),
    ]));
    let second = tree_digest(&tree(vec![
        leaf(b"a", ["user.x", "user.y"]),
        leaf(b"b", ["user.y", "user.x"]),
    ]));
    assert_eq!(first, second);
    let files: Vec<&DigestPart> = first
        .iter()
        .filter(|part| matches!(part, DigestPart::Contents { .. }))
        .collect();
    assert_eq!(
        files,
        vec![
            &DigestPart::Contents {
                path: b"c".to_vec()
            },
            &DigestPart::Contents {
                path: b"d/a".to_vec()
            },
            &DigestPart::Contents {
                path: b"d/b".to_vec()
            },
        ]
    );
    let odd = tree_digest(&tree(vec![leaf(b"\xff", ["user.x", "user.y"])]));
    assert!(odd.contains(&DigestPart::Contents {
        path: b"d/\xff".to_vec()
    }));
    assert!(odd.iter().any(|part| match part {
        DigestPart::Bytes(bytes) => bytes.starts_with("d/\u{fffd}".as_bytes()),
        _ => false,
    }));
}

#[test]
fn trees_are_told_apart_by_their_digests() {
    let tree = |names: [&[u8]; 2]| ComparedEntry::Directory {
        name: b"root".to_vec(),
        facts: facts(1),
        children: names
            .iter()
            .map(|name| ComparedEntry::File {
                name: name.to_vec(),
                facts: facts(3),
            })
            .collect(),
    };
    let digest_with = |root: &ComparedEntry, second: &[u8]| {
        let mut digest = ComparedDigest::start(root);
        let mut wanted: Vec<Vec<u8>> = Vec::new();
        while let Some(path) = digest.next_file() {
            if path == b"b" {
                digest.add_contents(&second.to_vec());
            } else {
                digest.add_contents(&b"o".to_vec());
                digest.add_contents(&b"ne".to_vec());
            }
            wanted.push(path);
        }
        assert_eq!(wanted, vec![b"a".to_vec(), b"b".to_vec()]);
        digest.finish()
    };
    let first = digest_with(&tree([b"a", b"b"]), b"two");
    let mut bytes: Vec<u8> = Vec::new();
    for part in tree_digest(&tree([b"a", b"b"])) {
        match part {
            DigestPart::Bytes(more) => bytes.extend(more),
            DigestPart::Contents { path } if path == b"b" => bytes.extend(b"two"),
            DigestPart::Contents { .. } => bytes.extend(b"one"),
        }
    }
    assert_eq!(hex::encode(&first), digest(&bytes));
    assert!(same_tree(&first, &digest_with(&tree([b"b", b"a"]), b"two")));
    assert!(!same_tree(&first, &digest_with(&tree([b"a", b"b"]), b"six")));
    assert_eq!(admit_copy(&first, &first.clone()), Ok(()));
    assert_eq!(
        admit_copy(&first, &digest_with(&tree([b"a", b"b"]), b"six")),
        Err(PublishError::CopyDiffers)
    );
}

#[test]
fn repositories_tell_what_was_stored() {
    let stored = || {
        Some(RepositoryEnd::Stored(StoredSnapshot {
            partial: false,
            files: 3,
            original_size: 9,
            stored_size: 4,
        }))
    };
    let both = run_backup_repositories(false, false, true).unwrap();
    assert_eq!(first_repository_step(both), RepositoryStep::WritePrimary);
    let checking = next_repository_step(RepositoryStep::WritePrimary, both, false);
    assert_eq!(checking, RepositoryStep::CheckCancelled);
    assert_eq!(
        next_repository_step(checking, both, false),
        RepositoryStep::WriteMirror
    );
    assert_eq!(next_repository_step(checking, both, true), RepositoryStep::Done);
    let (primary, mirror) =
        repository_results(both, true, &stored(), false, &stored()).unwrap();
    assert_eq!((primary.files, mirror.unwrap().files), (3, 3));
    assert_eq!(
        repository_results(both, true, &stored(), true, &None),
        Err(RetryError::CancelledBeforeMirror)
    );
    let alone = run_backup_repositories(false, false, false).unwrap();
    let (_, mirror) = repository_results(alone, false, &stored(), false, &None).unwrap();
    assert_eq!(mirror, None);
    let retry = run_backup_repositories(false, true, true).unwrap();
    assert_eq!(first_repository_step(retry), RepositoryStep::CheckCancelled);
    let (primary, _) = repository_results(retry, true, &None, false, &stored()).unwrap();
    assert_eq!(primary, left_out());
    let retry = run_backup_repositories(true, false, true).unwrap();
    let (_, mirror) = repository_results(retry, true, &stored(), false, &None).unwrap();
    assert_eq!(mirror, Some(left_out()));
}

#[test]
fn batches_tell_of_the_tasks_that_were_carried_out() {
    let labels = texts(&["one", "two", "three", "four"]);
    let found = || Discovery::Found {
        paths: Vec::new(),
        running: Vec::new(),
    };
    let plan = plan_batch(
        &labels,
        &vec![
            found(),
            Discovery::Excluded("anonymous".to_string()),
            found(),
            found(),
        ],
    );
    assert_eq!(next_task(&plan, 0, false), Some(0));
    assert_eq!(next_task(&plan, 1, false), Some(2));
    assert_eq!(next_task(&plan, 2, true), None);
    assert_eq!(next_task(&plan, 3, false), None);
    let response = respond_batch(
        plan,
        &labels,
        vec![
            TaskEnd::Written {
                primary: left_out(),
                mirror: None,
            },
            TaskEnd::Failed("no space".to_string()),
        ],
        texts(&["web"]),
    );
    let told: Vec<&str> = response
        .results
        .iter()
        .map(|result| result.source_label.as_str())
        .collect();
    assert_eq!(told, vec!["two", "one"]);
    assert_eq!(response.results[1].result.primary, left_out());
    assert_eq!(response.results[1].result.excluded, None);
    assert_eq!(response.discovery_errors, vec!["three: no space"]);
    assert_eq!(response.restart_errors, vec!["web"]);
}
