//! Archives: what is recognized, admitted and published.

use periphery::file_manager::archive::add_archive_entry;
use periphery::file_manager::archive::admit_seven_zip_entry;
use periphery::file_manager::archive::admit_tar_entry;
use periphery::file_manager::archive::admit_zip_entry;
use periphery::file_manager::archive::archive_relative;
use periphery::file_manager::archive::check_extracted;
use periphery::file_manager::archive::create;
use periphery::file_manager::archive::create_download_zip;
use periphery::file_manager::archive::detect_format;
use periphery::file_manager::archive::directory_name;
use periphery::file_manager::archive::extraction_capacity_bytes;
use periphery::file_manager::archive::extraction_work;
use periphery::file_manager::archive::host_bytes;
use periphery::file_manager::archive::validate_archive_name;
use periphery::file_manager::archive::validate_staged_tree;
use periphery::file_manager::archive::ArchiveError;
use periphery::file_manager::archive::ArchiveItem;
use periphery::file_manager::archive::ArchivePlan;
use periphery::file_manager::archive::DetectedArchive;
use periphery::file_manager::archive::EntryHeader;
use periphery::file_manager::conflict::collect_merge_conflicts;
use periphery::file_manager::conflict::MergeError;
use periphery::file_manager::conflict::MergeRefusal;
use periphery::file_manager::conflict::merge_entry;
use periphery::file_manager::conflict::FileManagerConflict;
use periphery::file_manager::conflict::FileManagerConflictAction;
use periphery::file_manager::conflict::FileManagerConflictDecision;
use periphery::file_manager::conflict::MergeStep;
use periphery::file_manager::extraction::extract;
use periphery::file_manager::extraction::publish_staged_entry;
use periphery::file_manager::extraction::rollback_publish;
use periphery::file_manager::extraction::BackMove;
use periphery::file_manager::extraction::ExtractHappened;
use periphery::file_manager::extraction::ExtractStage;
use periphery::file_manager::extraction::PublishMove;
use periphery::file_manager::extraction::Resolver;
use periphery::file_manager::limits::LimitError;
use periphery::file_manager::limits::WorkTotal;
use periphery::file_manager::operation::FileManagerEntryKind;
use periphery::file_manager::progress::ConflictResolution;
use periphery::file_manager::tree::Entry;
use periphery::file_manager::tree::EntryMetadata;
use periphery::file_manager::tree::LeafKind;
use periphery::path::PathError;

fn metadata(len: u64) -> EntryMetadata {
    EntryMetadata {
        device: 1,
        inode: 2,
        len,
        mode: 0o644,
        uid: 0,
        gid: 0,
        modified: None,
    }
}

fn leaf(name: &str, kind: LeafKind, len: u64) -> Entry {
    Entry::Leaf {
        name: name.as_bytes().to_vec(),
        kind,
        metadata: metadata(len),
    }
}

fn file(name: &str) -> Entry {
    leaf(name, LeafKind::File, 8)
}

fn directory(name: &str, children: Vec<Entry>) -> Entry {
    Entry::Directory {
        name: name.as_bytes().to_vec(),
        metadata: metadata(4096),
        children,
    }
}

fn decision(path: &str, action: FileManagerConflictAction) -> FileManagerConflictDecision {
    FileManagerConflictDecision {
        path: path.to_string(),
        action,
    }
}

fn header(name: &str, size: u64) -> EntryHeader {
    EntryHeader {
        name: name.to_string(),
        size,
        directory: false,
        encrypted: false,
        mode: Some(0o100644),
        anti_item: false,
        plain: true,
    }
}

#[test]
fn rejects_archive_traversal_and_windows_paths() {
    for path in [
        "../escape",
        "a/../../escape",
        "/absolute",
        "C:/escape",
        "a\\..\\escape",
    ] {
        assert!(archive_relative(path).is_err(), "accepted {path:?}");
    }
}

#[test]
fn recognizes_supported_and_deferred_signatures() {
    assert!(matches!(
        detect_format(&b"Rar!\x1a\x07\x01\x00".to_vec()).unwrap(),
        DetectedArchive::Rar
    ));
    assert_eq!(
        detect_format(&b"PK\x03\x04".to_vec()),
        Ok(DetectedArchive::Zip)
    );
    assert_eq!(
        detect_format(&b"\x1f\x8b\x08".to_vec()),
        Ok(DetectedArchive::TarGz)
    );
    assert_eq!(
        detect_format(&b"7z\xbc\xaf\x27\x1c".to_vec()),
        Ok(DetectedArchive::SevenZip)
    );
    let mut tar = vec![0u8; 512];
    tar[257..262].copy_from_slice(b"ustar");
    assert_eq!(detect_format(&tar), Ok(DetectedArchive::Tar));
    assert_eq!(
        detect_format(&b"plain".to_vec()),
        Err(ArchiveError::Unsupported)
    );
}

#[test]
fn extraction_publish_rolls_back_same_filesystem_renames() {
    let staging = directory("staging", vec![file("a-new.txt"), file("z-conflict.txt")]);
    let destination = directory("destination", vec![file("z-conflict.txt")]);
    let publication = publish_staged_entry(
        &staging,
        Some(&destination),
        "staging",
        "destination",
        0,
        &Vec::new(),
    );
    assert_eq!(
        publication.conflict.unwrap().path,
        "destination/z-conflict.txt"
    );
    assert_eq!(
        publication.moves,
        vec![PublishMove::Place {
            from: "staging/a-new.txt".to_string(),
            to: "destination/a-new.txt".to_string(),
        }]
    );
    assert_eq!(
        rollback_publish(&publication.moves, 1),
        vec![BackMove::Withdraw {
            from: "destination/a-new.txt".to_string(),
            to: "staging/a-new.txt".to_string(),
        }]
    );
}

#[test]
fn extraction_publish_overwrites_only_the_selected_conflict() {
    let staging = directory("staging", vec![file("overwrite.txt"), file("skip.txt")]);
    let destination = directory("destination", vec![file("overwrite.txt"), file("skip.txt")]);
    let decisions = vec![
        decision(
            "destination/overwrite.txt",
            FileManagerConflictAction::Overwrite,
        ),
        decision("destination/skip.txt", FileManagerConflictAction::Skip),
    ];
    let publication = publish_staged_entry(
        &staging,
        Some(&destination),
        "staging",
        "destination",
        0,
        &decisions,
    );
    assert!(publication.conflict.is_none());
    assert_eq!(
        publication.moves,
        vec![
            PublishMove::SetAside {
                path: "destination/overwrite.txt".to_string(),
                backup: 0,
            },
            PublishMove::Place {
                from: "staging/overwrite.txt".to_string(),
                to: "destination/overwrite.txt".to_string(),
            },
        ]
    );
    assert_eq!(
        rollback_publish(&publication.moves, 2),
        vec![
            BackMove::Withdraw {
                from: "destination/overwrite.txt".to_string(),
                to: "staging/overwrite.txt".to_string(),
            },
            BackMove::PutBack {
                backup: 0,
                path: "destination/overwrite.txt".to_string(),
            },
        ]
    );
}

#[test]
fn each_refused_entry_is_told_why() {
    assert_eq!(archive_relative(""), Err(ArchiveError::UnsafeName));
    assert_eq!(archive_relative("a\\b"), Err(ArchiveError::UnsafeName));
    assert_eq!(archive_relative("/a"), Err(ArchiveError::AbsoluteName));
    assert_eq!(archive_relative("C:a"), Err(ArchiveError::AbsoluteName));
    assert_eq!(archive_relative("a/../b"), Err(ArchiveError::Traversal));
    assert_eq!(archive_relative("."), Err(ArchiveError::Depth));
    assert_eq!(archive_relative("./a//b/"), Ok("a/b".to_string()));
    assert_eq!(validate_archive_name("a/b"), Ok(()));
    assert_eq!(validate_archive_name("../b"), Err(ArchiveError::Traversal));

    let encrypted = EntryHeader {
        encrypted: true,
        ..header("a", 1)
    };
    assert_eq!(
        admit_zip_entry(&encrypted, 0, 1),
        Err(ArchiveError::Encrypted)
    );
    let link = EntryHeader {
        mode: Some(0o120777),
        ..header("a", 1)
    };
    assert_eq!(
        admit_zip_entry(&link, 0, 1),
        Err(ArchiveError::SpecialEntry)
    );
    let admitted = admit_zip_entry(&header("a/b", 10), 5, 1).unwrap();
    assert_eq!(admitted.place, "a/b");
    assert_eq!(admitted.expanded, 15);
    assert_eq!(
        admit_zip_entry(&header("a", u64::MAX), 1, 1),
        Err(ArchiveError::SizeOverflow)
    );
    assert_eq!(
        admit_zip_entry(&header("a", 1_001), 0, 1),
        Err(ArchiveError::Limit(LimitError::ExpansionRatio))
    );
    let device = EntryHeader {
        plain: false,
        ..header("a", 1)
    };
    assert_eq!(
        admit_tar_entry(&device, 0, 0, 1, 10),
        Err(ArchiveError::SpecialEntry)
    );
    assert_eq!(
        admit_tar_entry(&header("a", 1), 10, 0, 1, 10),
        Err(ArchiveError::Limit(LimitError::TooManyEntries { maximum: 10 }))
    );
    let anti = EntryHeader {
        anti_item: true,
        ..header("a", 1)
    };
    assert_eq!(
        admit_seven_zip_entry(&anti, 0, 0, 0, 1, 10),
        Err(ArchiveError::AntiItem)
    );
    assert_eq!(
        admit_seven_zip_entry(&header("a", 1), 0o120777 << 16, 0, 0, 1, 10),
        Err(ArchiveError::SpecialEntry)
    );
    assert!(admit_seven_zip_entry(&header("a", 1), 0o100644 << 16, 0, 0, 1, 10).is_ok());
    assert_eq!(check_extracted(3, 4), Err(ArchiveError::SizeChanged));
    assert_eq!(check_extracted(4, 4), Ok(()));
}

#[test]
fn extraction_is_measured_by_what_is_announced() {
    assert_eq!(
        extraction_work(DetectedArchive::Zip, 100, &vec![3, 4], 10),
        Ok(WorkTotal {
            entries: 2,
            bytes: 7,
        })
    );
    assert_eq!(
        extraction_work(DetectedArchive::TarGz, 100, &Vec::new(), 10),
        Ok(WorkTotal {
            entries: 0,
            bytes: 100,
        })
    );
    assert_eq!(
        extraction_work(DetectedArchive::Rar, 100, &Vec::new(), 10),
        Err(ArchiveError::Rar)
    );
    assert_eq!(
        extraction_capacity_bytes(DetectedArchive::Tar, 100, &Vec::new(), 10),
        Ok(100_000)
    );
    assert_eq!(
        extraction_capacity_bytes(DetectedArchive::SevenZip, 100, &vec![3, 4], 10),
        Ok(7)
    );
}

#[test]
fn only_files_and_directories_are_packed() {
    let mut items: Vec<ArchiveItem> = Vec::new();
    let tree = directory("d", vec![leaf("a", LeafKind::File, 3)]);
    assert_eq!(add_archive_entry(&tree, "d", &mut items, 10), Ok(()));
    assert_eq!(items.len(), 2);
    assert_eq!(items[1].name, "d/a");
    assert_eq!(items[1].size, 3);
    assert_eq!(directory_name("d"), "d/");
    assert_eq!(
        add_archive_entry(&leaf("l", LeafKind::Symlink, 0), "l", &mut items, 10),
        Err(ArchiveError::Symlink)
    );
    assert_eq!(
        add_archive_entry(&leaf("s", LeafKind::Special, 0), "s", &mut items, 10),
        Err(ArchiveError::Special)
    );
    assert_eq!(host_bytes(&tree), 3);
    assert_eq!(validate_staged_tree(&vec![file("a"), file("b")], 0, 5), Ok(2));
    assert!(validate_staged_tree(&vec![leaf("l", LeafKind::Symlink, 0)], 0, 5).is_err());
}

#[test]
fn answers_settle_the_conflicts_that_they_are_about() {
    let conflicts = vec![
        FileManagerConflict {
            path: "a".to_string(),
            existing_kind: FileManagerEntryKind::File,
            incoming_kind: FileManagerEntryKind::File,
        },
        FileManagerConflict {
            path: "b".to_string(),
            existing_kind: FileManagerEntryKind::File,
            incoming_kind: FileManagerEntryKind::File,
        },
    ];
    let mut resolver = Resolver::new(Vec::new());
    assert_eq!(resolver.late_resolution(), None);
    assert_eq!(resolver.next_question(&conflicts, 0), Some(0));
    resolver.answer(
        "a",
        ConflictResolution {
            action: FileManagerConflictAction::Overwrite,
            apply_to_all: false,
        },
    );
    assert_eq!(resolver.next_question(&conflicts, 0), Some(1));
    resolver.answer(
        "b",
        ConflictResolution {
            action: FileManagerConflictAction::Skip,
            apply_to_all: true,
        },
    );
    assert_eq!(resolver.next_question(&conflicts, 0), None);
    assert_eq!(
        resolver.late_resolution(),
        Some(ConflictResolution {
            action: FileManagerConflictAction::Skip,
            apply_to_all: true,
        })
    );
    resolver.answer_late(
        "a",
        ConflictResolution {
            action: FileManagerConflictAction::Skip,
            apply_to_all: false,
        },
    );
    assert_eq!(
        resolver.decisions.last(),
        Some(&decision("a", FileManagerConflictAction::Skip))
    );
}

#[test]
fn merges_and_archives_go_through_texts_only() {
    let odd = || Entry::Leaf {
        name: b"\xff".to_vec(),
        kind: LeafKind::File,
        metadata: metadata(8),
    };
    let source = directory("source", vec![directory("d", vec![odd()])]);
    let free = directory("target", Vec::new());
    let mut conflicts: Vec<FileManagerConflict> = Vec::new();
    assert_eq!(
        collect_merge_conflicts(&source, Some(&free), "target", &mut conflicts, 10),
        Ok(())
    );
    assert!(merge_entry(&source, Some(&free), "source", "target", true, &Vec::new()).is_ok());
    let merged = directory("target", vec![directory("d", Vec::new())]);
    assert_eq!(
        collect_merge_conflicts(&source, Some(&merged), "target", &mut conflicts, 10),
        Err(MergeError::NotText)
    );
    assert_eq!(
        merge_entry(&source, Some(&merged), "source", "target", true, &Vec::new()),
        Err(MergeRefusal::NotText)
    );
    let publication =
        publish_staged_entry(&source, Some(&merged), "source", "target", 0, &Vec::new());
    assert!(publication.not_text);
    assert!(publication.moves.is_empty());
    let mut items: Vec<ArchiveItem> = Vec::new();
    assert_eq!(
        add_archive_entry(&source, "source", &mut items, 10),
        Err(ArchiveError::NotText)
    );
}

#[test]
fn recursive_copy_applies_per_file_conflict_decisions() {
    let source = directory("source", vec![file("kept.txt"), file("replaced.txt")]);
    let target = directory("target", vec![file("kept.txt"), file("replaced.txt")]);
    let mut conflicts: Vec<FileManagerConflict> = Vec::new();
    collect_merge_conflicts(&source, Some(&target), "target", &mut conflicts, 10).unwrap();
    assert_eq!(conflicts.len(), 2);
    assert_eq!(
        merge_entry(&source, Some(&target), "source", "target", false, &Vec::new()),
        Err(MergeRefusal::Undecided)
    );
    let decisions = vec![
        decision("target/kept.txt", FileManagerConflictAction::Skip),
        decision("target/replaced.txt", FileManagerConflictAction::Overwrite),
    ];
    let (steps, gone) =
        merge_entry(&source, Some(&target), "source", "target", false, &decisions).unwrap();
    assert_eq!(
        steps,
        vec![
            MergeStep::Remove("target/replaced.txt".to_string()),
            MergeStep::Copy {
                from: "source/replaced.txt".to_string(),
                to: "target/replaced.txt".to_string(),
            },
        ]
    );
    assert!(!gone);
}

#[test]
fn extractions_publish_last() {
    let mut stage = ExtractStage::Staging;
    let mut seen: Vec<ExtractStage> = Vec::new();
    while stage != ExtractStage::Extracted {
        seen.push(stage);
        assert!(seen.len() < 20);
        stage = extract(stage, ExtractHappened::Succeeded);
    }
    assert_eq!(seen.last(), Some(&ExtractStage::Publishing));
    assert_eq!(
        extract(ExtractStage::Publishing, ExtractHappened::Conflict),
        ExtractStage::RollingBack { conflict: true }
    );
}

fn item(name: &str, directory: bool, size: u64) -> ArchiveItem {
    ArchiveItem {
        name: name.to_string(),
        directory,
        size,
    }
}

#[test]
fn archives_hold_what_was_selected() {
    let paths = vec!["a.txt".to_string(), "sub/b".to_string()];
    let selected = || {
        vec![
            Some(file("a.txt")),
            Some(directory("b", vec![file("c.txt")])),
        ]
    };
    let wanted = vec![
        item("a.txt", false, 8),
        item("sub/b", true, 0),
        item("sub/b/c.txt", false, 8),
    ];
    let none: Vec<FileManagerConflictDecision> = Vec::new();
    assert_eq!(
        create(&paths, &selected(), "all.zip", false, &none, 10),
        Ok(ArchivePlan::Write {
            replace: false,
            items: wanted.clone(),
        })
    );
    assert_eq!(
        create(&paths, &selected(), "all.zip", true, &none, 10),
        Err(ArchiveError::DestinationExists)
    );
    assert_eq!(
        create(
            &paths,
            &selected(),
            "all.zip",
            true,
            &vec![decision("all.zip", FileManagerConflictAction::Skip)],
            10
        ),
        Ok(ArchivePlan::Skip)
    );
    assert_eq!(
        create(
            &paths,
            &selected(),
            "all.zip",
            true,
            &vec![decision("all.zip", FileManagerConflictAction::Overwrite)],
            10
        ),
        Ok(ArchivePlan::Write {
            replace: true,
            items: wanted.clone(),
        })
    );
    assert_eq!(create_download_zip(&paths, &selected(), 3), Ok(wanted));
    assert_eq!(
        create_download_zip(&paths, &selected(), 2),
        Err(ArchiveError::Limit(LimitError::TooManyEntries { maximum: 2 }))
    );
}

#[test]
fn archives_of_refused_selections_are_not_written() {
    let none: Vec<FileManagerConflictDecision> = Vec::new();
    assert_eq!(
        create(&Vec::new(), &Vec::new(), "all.zip", false, &none, 10),
        Err(ArchiveError::EmptySelection)
    );
    assert_eq!(
        create_download_zip(&Vec::new(), &Vec::new(), 10),
        Err(ArchiveError::EmptySelection)
    );
    let path = vec!["a.txt".to_string()];
    assert_eq!(
        create(&path, &vec![Some(file("a.txt"))], "../all.zip", false, &none, 10),
        Err(ArchiveError::Path(PathError::NotNormal))
    );
    assert_eq!(
        create_download_zip(&path, &vec![None], 10),
        Err(ArchiveError::MissingSource)
    );
    assert_eq!(
        create_download_zip(&vec!["/a.txt".to_string()], &vec![Some(file("a.txt"))], 10),
        Err(ArchiveError::Path(PathError::Absolute))
    );
    assert_eq!(
        create_download_zip(&path, &vec![Some(leaf("a.txt", LeafKind::Symlink, 1))], 10),
        Err(ArchiveError::Symlink)
    );
    assert_eq!(
        create_download_zip(&path, &vec![Some(leaf("a.txt", LeafKind::Special, 1))], 10),
        Err(ArchiveError::Special)
    );
}

#[test]
fn merges_stop_at_the_first_fault() {
    let odd = || Entry::Leaf {
        name: b"\xff".to_vec(),
        kind: LeafKind::File,
        metadata: metadata(8),
    };
    let source = directory("source", vec![file("a"), directory("d", vec![odd()])]);
    let target = directory("target", vec![file("a"), directory("d", Vec::new())]);
    let mut conflicts: Vec<FileManagerConflict> = Vec::new();
    assert_eq!(
        collect_merge_conflicts(&source, Some(&target), "target", &mut conflicts, 0),
        Err(MergeError::Limit(LimitError::TooManyEntries { maximum: 0 }))
    );
    assert_eq!(
        collect_merge_conflicts(&source, Some(&target), "target", &mut conflicts, 9),
        Err(MergeError::NotText)
    );
    assert_eq!(
        merge_entry(&source, Some(&target), "source", "target", true, &Vec::new()),
        Err(MergeRefusal::Undecided)
    );
    let publication =
        publish_staged_entry(&source, Some(&target), "source", "target", 0, &Vec::new());
    assert_eq!(publication.conflict.unwrap().path, "target/a");
    assert!(!publication.not_text);
    let decided = vec![decision("target/a", FileManagerConflictAction::Skip)];
    assert_eq!(
        merge_entry(&source, Some(&target), "source", "target", true, &decided),
        Err(MergeRefusal::NotText)
    );
}

#[test]
fn conflicts_are_told_with_forward_slashes() {
    let source = directory("source", vec![file("a\\b")]);
    let target = directory("target", vec![file("a\\b")]);
    let mut conflicts: Vec<FileManagerConflict> = Vec::new();
    collect_merge_conflicts(&source, Some(&target), "target", &mut conflicts, 9).unwrap();
    assert_eq!(conflicts[0].path, "target/a/b");
    let met = vec![decision("target/a\\b", FileManagerConflictAction::Skip)];
    assert!(merge_entry(&source, Some(&target), "source", "target", true, &met).is_ok());
}
