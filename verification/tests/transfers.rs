//! Downloads, uploads and the progress of operations.

use periphery::file_manager::transfer::DownloadDigest;
use periphery::file_manager::conflict::FileManagerConflict;
use periphery::file_manager::conflict::FileManagerConflictAction;
use periphery::file_manager::limits::WorkTotal;
use periphery::file_manager::operation::FileManagerEntryKind;
use periphery::file_manager::operation::FileManagerRevision;
use periphery::file_manager::operation::ResolvedRoot;
use periphery::file_manager::progress::FileManagerOperationStatus;
use periphery::file_manager::progress::cancel_file_manager_operation;
use periphery::file_manager::progress::list_active_operations;
use periphery::file_manager::progress::operation_status;
use periphery::file_manager::progress::register_status;
use periphery::file_manager::progress::resolve_operation_conflict;
use periphery::file_manager::progress::ArrivedDecision;
use periphery::file_manager::progress::ConflictResolution;
use periphery::file_manager::progress::FileManagerOperationPhase;
use periphery::file_manager::progress::FileManagerOperationState;
use periphery::file_manager::progress::OperationProgress;
use periphery::file_manager::progress::OperationStatusRecord;
use periphery::file_manager::progress::StatusError;
use periphery::file_manager::transfer::add_download_credits;
use periphery::file_manager::transfer::admit_begin;
use periphery::file_manager::transfer::admit_download;
use periphery::file_manager::transfer::admit_replacement;
use periphery::file_manager::transfer::admit_upload;
use periphery::file_manager::transfer::begin_download;
use periphery::file_manager::transfer::chunk_sent;
use periphery::file_manager::transfer::clears_destination;
use periphery::file_manager::transfer::download_begin_mode;
use periphery::file_manager::transfer::finish_download;
use periphery::file_manager::transfer::heed_download_message;
use periphery::file_manager::transfer::is_cancellation;
use periphery::file_manager::transfer::may_send;
use periphery::file_manager::transfer::shape_download;
use periphery::file_manager::transfer::start_download;
use periphery::file_manager::transfer::admit_publish;
use periphery::file_manager::transfer::start_upload;
use periphery::file_manager::transfer::UploadHappened;
use periphery::file_manager::transfer::takes_over_metadata;
use periphery::file_manager::transfer::verify_upload_staging_identity;
use periphery::file_manager::transfer::wait_for_download_credit;
use periphery::file_manager::transfer::DownloadError;
use periphery::file_manager::transfer::DownloadHappened;
use periphery::file_manager::transfer::DownloadPhase;
use periphery::file_manager::transfer::FileIdentity;
use periphery::file_manager::transfer::FileTransferMessage;
use periphery::file_manager::transfer::StagingSeen;
use periphery::file_manager::transfer::TransferError;
use periphery::file_manager::transfer::UploadError;
use periphery::file_manager::transfer::UploadSession;
use periphery::file_manager::transfer::UploadStage;
use periphery::file_manager::transfer::UploadStep;
use periphery::file_manager::transfer::WaitOutcome;
use periphery::file_manager::transfer::MAX_DOWNLOAD_CREDITS;
use periphery::registry::Registry;

const HELLO_SHA256: &str = "2cf24dba5fb0a30e26e83b2ac5b9e29e1b161e5c1fa7425e73043362938b9824";

fn root() -> ResolvedRoot {
    ResolvedRoot {
        path: "/unused".to_string(),
        key: "root".to_string(),
        read_only: false,
        managed_file: Some("compose.yaml".to_string()),
        create_if_missing: false,
    }
}

fn revision(id: &str) -> FileManagerRevision {
    FileManagerRevision { id: id.to_string() }
}

#[test]
fn download_credit_is_positive_and_bounded() {
    assert!(add_download_credits(0, 0).is_err());
    assert_eq!(add_download_credits(0, 4).unwrap(), 4);
    assert_eq!(
        add_download_credits(31, u32::MAX).unwrap(),
        MAX_DOWNLOAD_CREDITS
    );
}

#[test]
fn download_heartbeat_requires_the_additive_begin_variant() {
    assert_eq!(
        download_begin_mode(&FileTransferMessage::BeginWithCredit { credits: 4 }).unwrap(),
        (Some(4), false)
    );
    assert_eq!(
        download_begin_mode(&FileTransferMessage::BeginWithCreditAndHeartbeat { credits: 4 })
            .unwrap(),
        (Some(4), true)
    );
}

#[test]
fn heartbeats_are_heeded_only_where_they_were_agreed() {
    assert_eq!(
        download_begin_mode(&FileTransferMessage::Begin),
        Ok((None, false))
    );
    assert_eq!(
        download_begin_mode(&FileTransferMessage::Heartbeat),
        Err(TransferError::BadBegin)
    );
    assert_eq!(
        wait_for_download_credit(&FileTransferMessage::Heartbeat, true),
        Ok(WaitOutcome::WaitOn)
    );
    assert!(wait_for_download_credit(&FileTransferMessage::Heartbeat, false).is_err());
    assert_eq!(
        wait_for_download_credit(&FileTransferMessage::Credit { credits: 3 }, false),
        Ok(WaitOutcome::Go(3))
    );
    assert_eq!(
        wait_for_download_credit(&FileTransferMessage::Credit { credits: 0 }, false),
        Err(TransferError::NoCredit)
    );
    assert_eq!(
        wait_for_download_credit(&FileTransferMessage::Cancel, true),
        Err(TransferError::Cancelled)
    );
    assert_eq!(
        heed_download_message(Some(2), &FileTransferMessage::Credit { credits: 3 }, false),
        Ok(Some(5))
    );
}

#[test]
fn no_chunk_is_sent_without_leave() {
    assert!(may_send(None));
    assert!(may_send(Some(1)));
    assert!(!may_send(Some(0)));
    assert_eq!(chunk_sent(Some(2)), Some(1));
    assert_eq!(chunk_sent(None), None);
}

#[test]
fn downloads_send_what_they_announced() {
    let mut session = begin_download(3);
    assert_eq!(session.phase, DownloadPhase::AwaitBegin);
    session = start_download(
        session,
        &DownloadHappened::Received(FileTransferMessage::BeginWithCredit { credits: 1 }),
    );
    assert_eq!(session.phase, DownloadPhase::CheckCancelled);
    session = start_download(session, &DownloadHappened::Succeeded);
    assert_eq!(session.phase, DownloadPhase::Poll);
    session = start_download(session, &DownloadHappened::NothingReceived);
    assert_eq!(session.phase, DownloadPhase::Read);
    session = start_download(session, &DownloadHappened::WasRead(3));
    assert_eq!(session.phase, DownloadPhase::Send);
    session = start_download(session, &DownloadHappened::Succeeded);
    assert_eq!(session.phase, DownloadPhase::CheckCancelled);
    session = start_download(session, &DownloadHappened::Succeeded);
    assert_eq!(session.phase, DownloadPhase::AwaitCredit);
    session = start_download(
        session,
        &DownloadHappened::Received(FileTransferMessage::Credit { credits: 1 }),
    );
    session = start_download(session, &DownloadHappened::NothingReceived);
    session = start_download(session, &DownloadHappened::WasRead(0));
    assert_eq!(session.phase, DownloadPhase::CheckFinally);
    session = start_download(session, &DownloadHappened::Succeeded);
    assert_eq!(session.phase, DownloadPhase::Complete);
    assert_eq!(
        finish_download(3, 3, vec![7]),
        Ok(FileTransferMessage::Complete {
            bytes: 3,
            sha256: vec![7],
        })
    );
    assert_eq!(
        finish_download(2, 3, vec![7]),
        Err(TransferError::CountChanged)
    );
}

#[test]
fn a_changed_size_or_a_lost_peer_ends_a_download() {
    let mut short = begin_download(3);
    short = start_download(
        short,
        &DownloadHappened::Received(FileTransferMessage::Begin),
    );
    short = start_download(short, &DownloadHappened::Succeeded);
    short = start_download(short, &DownloadHappened::NothingReceived);
    let ended = start_download(short.clone(), &DownloadHappened::WasRead(0));
    assert_eq!(
        ended.phase,
        DownloadPhase::Failed(TransferError::CountChanged)
    );
    let lost = start_download(short, &DownloadHappened::Failed(TransferError::TimedOut));
    assert_eq!(lost.phase, DownloadPhase::Failed(TransferError::TimedOut));
    let cancelled = start_download(
        begin_download(3),
        &DownloadHappened::Received(FileTransferMessage::Cancel),
    );
    assert!(matches!(cancelled.phase, DownloadPhase::Failed(_)));
    let closed = start_download(begin_download(3), &DownloadHappened::NothingReceived);
    assert_eq!(closed.phase, DownloadPhase::Failed(TransferError::Closed));
}

#[test]
fn downloads_are_named_by_what_is_selected() {
    assert_eq!(
        admit_download(&root(), &Vec::new(), true),
        Err(DownloadError::EmptySelection)
    );
    assert_eq!(
        admit_download(&root(), &vec!["compose.yaml".to_string()], false),
        Err(DownloadError::ManagedFile)
    );
    assert_eq!(
        admit_download(&root(), &vec!["compose.yaml".to_string()], true),
        Ok(())
    );
    let one = shape_download(Some(("a.txt".to_string(), true)));
    assert!(!one.packed);
    assert_eq!(one.file_name, "a.txt");
    let tree = shape_download(Some(("a".to_string(), false)));
    assert!(tree.packed);
    assert_eq!(tree.file_name, "a.zip");
    assert_eq!(shape_download(None).file_name, "komodo-download.zip");
}

#[test]
fn uploads_are_checked_against_their_digest() {
    assert_eq!(admit_begin(&FileTransferMessage::Begin), Ok(()));
    assert_eq!(
        admit_begin(&FileTransferMessage::Heartbeat),
        Err(TransferError::BadBegin)
    );
    let session = UploadSession::start(5);
    let step = session
        .receive(&FileTransferMessage::Chunk(b"hel".to_vec()))
        .ok()
        .unwrap();
    let session = match step {
        UploadStep::More(session) => session,
        UploadStep::Done { .. } => panic!("ended too early"),
    };
    let step = session
        .receive(&FileTransferMessage::Chunk(b"lo".to_vec()))
        .ok()
        .unwrap();
    let session = match step {
        UploadStep::More(session) => session,
        UploadStep::Done { .. } => panic!("ended too early"),
    };
    let end = FileTransferMessage::Complete {
        bytes: 5,
        sha256: hex::decode(HELLO_SHA256).unwrap(),
    };
    match session.receive(&end) {
        Ok(UploadStep::Done { bytes, sha256 }) => {
            assert_eq!(bytes, 5);
            assert_eq!(hex::encode(sha256), HELLO_SHA256);
        }
        _ => panic!("not accepted"),
    }
}

#[test]
fn uploads_of_other_contents_are_refused() {
    let refused = |total: u64, message: FileTransferMessage| match UploadSession::start(total)
        .receive(&message)
    {
        Ok(_) => panic!("accepted"),
        Err(error) => error,
    };
    assert_eq!(
        refused(2, FileTransferMessage::Chunk(b"abc".to_vec())),
        TransferError::TooLarge
    );
    assert_eq!(
        refused(
            0,
            FileTransferMessage::Complete {
                bytes: 0,
                sha256: Vec::new()
            }
        ),
        TransferError::Mismatch
    );
    assert_eq!(refused(2, FileTransferMessage::Cancel), TransferError::Cancelled);
    assert_eq!(
        refused(2, FileTransferMessage::Heartbeat),
        TransferError::Unexpected
    );
}

#[test]
fn uploads_do_not_replace_what_was_not_confirmed() {
    assert_eq!(
        admit_upload(&root(), "data", "file.txt"),
        Ok("data/file.txt".to_string())
    );
    assert_eq!(
        admit_upload(&root(), "", "compose.yaml"),
        Err(UploadError::ManagedFile)
    );
    assert!(matches!(
        admit_upload(&root(), "data", "a/b"),
        Err(UploadError::Path(_))
    ));
    let read_only = ResolvedRoot {
        read_only: true,
        ..root()
    };
    assert_eq!(
        admit_upload(&read_only, "data", "a"),
        Err(UploadError::ReadOnly)
    );
    let old = Some(revision("old"));
    let new = Some(revision("new"));
    assert_eq!(admit_replacement(false, &old, &None), Err(UploadError::Exists));
    assert_eq!(
        admit_replacement(true, &new, &old),
        Err(UploadError::ChangedAfterConfirmation)
    );
    assert_eq!(admit_replacement(true, &old, &old), Ok(()));
    assert_eq!(admit_replacement(false, &None, &None), Ok(()));
    assert_eq!(takes_over_metadata(&old, &old), Ok(true));
    assert_eq!(takes_over_metadata(&None, &None), Ok(false));
    assert_eq!(
        takes_over_metadata(&new, &old),
        Err(UploadError::ChangedWhilePreparing)
    );
    assert_eq!(clears_destination(None, false), Ok(false));
    assert_eq!(clears_destination(Some(true), true), Ok(false));
    assert_eq!(clears_destination(Some(false), true), Ok(true));
    assert_eq!(
        clears_destination(Some(true), false),
        Err(UploadError::DestinationChanged)
    );
}

#[test]
fn upload_staging_has_to_stay_the_same_file() {
    let identity = FileIdentity {
        device: 1,
        inode: 2,
    };
    let other = FileIdentity {
        device: 1,
        inode: 3,
    };
    let seen = |right_kind: bool, identity: FileIdentity| {
        Some(StagingSeen {
            right_kind,
            identity,
        })
    };
    assert_eq!(
        verify_upload_staging_identity(seen(true, identity), identity),
        Ok(())
    );
    assert_eq!(
        verify_upload_staging_identity(seen(true, other), identity),
        Err(UploadError::Changed)
    );
    assert_eq!(
        verify_upload_staging_identity(seen(false, identity), identity),
        Err(UploadError::Changed)
    );
    assert_eq!(
        verify_upload_staging_identity(None, identity),
        Err(UploadError::Moved)
    );
}

#[test]
fn uploads_are_published_or_undone() {
    let mut stage = UploadStage::Beginning;
    let mut steps: usize = 0;
    let revision = |id: &str| Some(FileManagerRevision { id: id.to_string() });
    let compared = |found: &str| UploadHappened::Compared {
        found: revision(found),
        prepared: revision("before"),
    };
    while stage != UploadStage::Published {
        let happened = match stage {
            UploadStage::Verifying | UploadStage::VerifyingAgain => compared("before"),
            _ => UploadHappened::Succeeded,
        };
        stage = start_upload(stage, &happened);
        steps += 1;
        assert!(steps < 30);
    }
    assert_eq!(
        start_upload(UploadStage::Verifying, &compared("changed")),
        UploadStage::Failed { retained: false }
    );
    assert_eq!(
        start_upload(UploadStage::Verifying, &UploadHappened::Succeeded),
        UploadStage::Failed { retained: false }
    );
    assert_eq!(
        start_upload(UploadStage::VerifyingAgain, &compared("changed")),
        UploadStage::RetiringUnused
    );
    assert_eq!(
        admit_publish(&revision("changed"), &revision("before")),
        Err(UploadError::DestinationChanged)
    );
    assert_eq!(
        admit_publish(&None, &revision("before")),
        Err(UploadError::DestinationChanged)
    );
    assert_eq!(admit_publish(&revision("before"), &revision("before")), Ok(()));
    assert_eq!(admit_publish(&None, &None), Ok(()));
    assert_eq!(
        start_upload(UploadStage::Publishing, &UploadHappened::Failed),
        UploadStage::Restoring
    );
    assert_eq!(
        start_upload(UploadStage::Restoring, &UploadHappened::Failed),
        UploadStage::Failed { retained: true }
    );
    assert!(is_cancellation("Upload cancelled"));
    assert!(!is_cancellation("Upload failed"));
}

#[test]
fn operation_progress_tracks_phase_work_and_completion() {
    let mut progress =
        OperationProgress::new("operation-1".to_string(), "Copy files".to_string(), 1);

    let queued = progress.snapshot();
    assert_eq!(queued.state, FileManagerOperationState::Pending);
    assert_eq!(queued.phase, FileManagerOperationPhase::Queued);
    assert_eq!(queued.description, "Copy files");

    progress.phase(
        FileManagerOperationPhase::Applying,
        WorkTotal {
            entries: 2,
            bytes: 12,
        },
        2,
    );
    progress.add_entry(3);
    progress.add_bytes(5, 3);
    progress.add_entry(3);
    progress.add_entry(3);
    progress.add_bytes(50, 3);
    let running = progress.snapshot();
    assert_eq!(running.state, FileManagerOperationState::Running);
    assert_eq!(running.phase, FileManagerOperationPhase::Applying);
    assert_eq!(running.completed_entries, 2);
    assert_eq!(running.total_entries, 2);
    assert_eq!(running.completed_bytes, 12);
    assert_eq!(running.total_bytes, 12);

    progress.add_temporary_storage_bytes(7, 3);
    assert_eq!(progress.snapshot().temporary_storage_bytes, 7);

    progress.complete(4);
    let complete = progress.snapshot();
    assert_eq!(complete.state, FileManagerOperationState::Complete);
    assert_eq!(complete.phase, FileManagerOperationPhase::Finalizing);
    assert_eq!(complete.completed_entries, 2);
    assert_eq!(complete.completed_bytes, 12);
    assert!(complete.error.is_none());
}

#[test]
fn operation_progress_preserves_terminal_error_states() {
    let mut failed =
        OperationProgress::new("operation-2".to_string(), "Extract archive".to_string(), 1);
    failed.fail("ZIP extraction failed: archive is corrupt".to_string(), 2);
    let failed = failed.snapshot();
    assert_eq!(failed.state, FileManagerOperationState::Failed);
    assert_eq!(
        failed.error.as_deref(),
        Some("ZIP extraction failed: archive is corrupt")
    );

    let mut cancelled =
        OperationProgress::new("operation-3".to_string(), "Upload file".to_string(), 1);
    cancelled.cancel("Upload cancelled".to_string(), 2);
    let cancelled = cancelled.snapshot();
    assert_eq!(cancelled.state, FileManagerOperationState::Cancelled);
    assert_eq!(cancelled.error.as_deref(), Some("Upload cancelled"));
}

#[test]
fn conflict_wait_is_recoverable_and_requires_an_opaque_id() {
    let mut progress = OperationProgress::new(
        "operation-conflict".to_string(),
        "Extract archive".to_string(),
        1,
    );
    progress.ask_about_conflict(
        "decision".to_string(),
        FileManagerConflict {
            path: "output/config.txt".to_string(),
            existing_kind: FileManagerEntryKind::File,
            incoming_kind: FileManagerEntryKind::File,
        },
        2,
    );
    let pending = progress.snapshot().pending_conflict.unwrap();
    assert_eq!(
        progress.snapshot().state,
        FileManagerOperationState::WaitingForInput
    );
    progress.decisions.push(ArrivedDecision {
        decision_id: pending.decision_id.clone(),
        resolution: ConflictResolution {
            action: FileManagerConflictAction::Skip,
            apply_to_all: true,
        },
    });
    assert!(progress.take_decision("another", 3).is_none());
    let resolution = progress.take_decision(&pending.decision_id, 4).unwrap();
    assert_eq!(resolution.action, FileManagerConflictAction::Skip);
    assert!(resolution.apply_to_all);
    assert_eq!(progress.snapshot().state, FileManagerOperationState::Running);
}

#[test]
fn cancelled_operations_are_told_as_cancelled() {
    let mut progress = OperationProgress::new("a".to_string(), "Copy".to_string(), 1);
    assert!(progress.check_cancelled());
    progress.request_cancel(2);
    assert!(!progress.check_cancelled());
    progress.fail("interrupted".to_string(), 3);
    assert_eq!(
        progress.snapshot().state,
        FileManagerOperationState::Cancelled
    );
}

#[test]
fn operations_are_told_to_their_actor() {
    let mut statuses: Registry<OperationStatusRecord> = Registry::new();
    register_status(
        &mut statuses,
        "one".to_string(),
        "actor",
        "root",
        "Copy".to_string(),
        10,
    );
    let asked = operation_status(&mut statuses, "one", "actor", "root", 11).unwrap();
    assert_eq!(
        asked,
        OperationProgress::new("one".to_string(), "Copy".to_string(), 10).snapshot()
    );
    assert!(matches!(
        operation_status(&mut statuses, "one", "other", "root", 11),
        Err(StatusError::NotFound)
    ));
    assert_eq!(
        list_active_operations(&mut statuses, "actor", "root", 11).len(),
        1
    );
    assert!(matches!(
        resolve_operation_conflict(
            &mut statuses,
            "one",
            "actor",
            "root",
            "decision".to_string(),
            FileManagerConflictAction::Skip,
            false,
        ),
        Err(StatusError::StaleDecision)
    ));
    let cancelled =
        cancel_file_manager_operation(&mut statuses, "one", "actor", "root", 12).unwrap();
    assert_eq!(
        cancelled,
        FileManagerOperationStatus {
            cancellable: false,
            description: "Cancelling file operation".to_string(),
            updated_at: 12,
            ..asked
        }
    );
}

#[test]
fn downloads_are_answered_with_what_was_read() {
    let mut digest = DownloadDigest::start();
    assert!(digest.add_chunk(&b"he".to_vec()));
    assert!(digest.add_chunk(&b"llo".to_vec()));
    let answer = digest.download_answer("a.txt".to_string());
    assert_eq!(answer.file_name, "a.txt");
    assert_eq!(answer.total_bytes, 5);
    assert_eq!(
        answer.sha256_text,
        "2cf24dba5fb0a30e26e83b2ac5b9e29e1b161e5c1fa7425e73043362938b9824"
    );
    assert_eq!(hex::encode(&answer.sha256), answer.sha256_text);
    assert!(answer.supports_download_credit);
    assert!(answer.supports_download_heartbeat);
}
