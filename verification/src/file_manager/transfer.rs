//! Uploads and downloads: the messages of a transfer, how much may be sent, and
//! what an upload must prove before it is published.

use vstd::prelude::*;

use crate::file_manager::applying::same_revision;
use crate::file_manager::operation::FileManagerRevision;
use crate::file_manager::operation::ResolvedRoot;
use crate::file_manager::revision;
use crate::outside;
use crate::outside::StreamDigest;
use crate::path;
use crate::path::PathError;
use crate::text;
use crate::text::texts;

verus! {

/// How many chunks may be on their way at most.
pub const MAX_DOWNLOAD_CREDITS: u32 = 32;

/// A message of a transfer.
#[derive(Clone, Debug, PartialEq, Eq)]
pub enum FileTransferMessage {
    /// The other side is ready.
    Begin,
    /// The other side is ready for so many chunks.
    BeginWithCredit { credits: u32 },
    /// The other side is ready for so many chunks, and shows that it lives.
    BeginWithCreditAndHeartbeat { credits: u32 },
    /// The other side is ready for more chunks.
    Credit { credits: u32 },
    /// The other side lives.
    Heartbeat,
    /// Contents.
    Chunk(Vec<u8>),
    /// All contents have been sent.
    Complete { bytes: u64, sha256: Vec<u8> },
    /// The transfer is given up.
    Cancel,
}

/// Why a transfer fails.
#[derive(Clone, Copy, Debug, PartialEq, Eq, Structural)]
pub enum TransferError {
    /// A grant of no chunks.
    NoCredit,
    /// The transfer did not begin correctly.
    BadBegin,
    /// The message does not belong here.
    Unexpected,
    /// The other side gave the transfer up.
    Cancelled,
    /// The size cannot be counted.
    SizeOverflow,
    /// More came than was announced.
    TooLarge,
    /// The contents are not those that were sent.
    Mismatch,
    /// The contents changed while they were sent.
    CountChanged,
    /// The other side did not answer in time.
    TimedOut,
    /// The connection is gone.
    Closed,
    /// The contents could not be read or sent.
    Failed,
}

// ---------------------------------------------------------------------------
// Downloads
// ---------------------------------------------------------------------------

/// The chunks that may be sent once more have been granted.
pub open spec fn granted(current: u32, additional: u32) -> u32 {
    if current + additional > MAX_DOWNLOAD_CREDITS {
        MAX_DOWNLOAD_CREDITS
    } else {
        (current + additional) as u32
    }
}

/// The chunks that may be sent once more have been granted. No grant is empty,
/// and no more than a fixed number is kept.
pub fn add_download_credits(current: u32, additional: u32) -> (credits: Result<u32, TransferError>)
    ensures
        credits == if additional == 0 {
            Err(TransferError::NoCredit)
        } else {
            Ok(granted(current, additional))
        },
{
    if additional == 0 {
        return Err(TransferError::NoCredit);
    }
    let sum: u32 = current.saturating_add(additional);
    if sum > MAX_DOWNLOAD_CREDITS {
        Ok(MAX_DOWNLOAD_CREDITS)
    } else {
        Ok(sum)
    }
}

/// How a download that begins with the message goes: how many chunks may be
/// sent, if that is limited, and whether the other side shows that it lives.
pub open spec fn begins_as(begin: FileTransferMessage) -> Result<(Option<u32>, bool), TransferError> {
    match begin {
        FileTransferMessage::Begin => Ok((None, false)),
        FileTransferMessage::BeginWithCredit { credits } => if credits == 0 {
            Err(TransferError::NoCredit)
        } else {
            Ok((Some(granted(0, credits)), false))
        },
        FileTransferMessage::BeginWithCreditAndHeartbeat { credits } => if credits == 0 {
            Err(TransferError::NoCredit)
        } else {
            Ok((Some(granted(0, credits)), true))
        },
        _ => Err(TransferError::BadBegin),
    }
}

/// How a download that begins with the message goes.
pub fn download_begin_mode(begin: &FileTransferMessage) -> (mode: Result<
    (Option<u32>, bool),
    TransferError,
>)
    ensures
        mode == begins_as(*begin),
{
    match begin {
        FileTransferMessage::Begin => Ok((None, false)),
        FileTransferMessage::BeginWithCredit { credits } => match add_download_credits(
            0,
            *credits,
        ) {
            Ok(available) => Ok((Some(available), false)),
            Err(error) => Err(error),
        },
        FileTransferMessage::BeginWithCreditAndHeartbeat {
            credits,
        } => match add_download_credits(0, *credits) {
            Ok(available) => Ok((Some(available), true)),
            Err(error) => Err(error),
        },
        _ => Err(TransferError::BadBegin),
    }
}

/// What a message means for a download that waits until it may send.
#[derive(Clone, Copy, Debug, PartialEq, Eq, Structural)]
pub enum WaitOutcome {
    /// So many chunks may be sent.
    Go(u32),
    /// The other side lives: wait on.
    WaitOn,
}

/// What a message means for a download that waits until it may send.
pub open spec fn while_waiting(message: FileTransferMessage, heartbeat: bool) -> Result<
    WaitOutcome,
    TransferError,
> {
    match message {
        FileTransferMessage::Credit { credits } => if credits == 0 {
            Err(TransferError::NoCredit)
        } else {
            Ok(WaitOutcome::Go(granted(0, credits)))
        },
        FileTransferMessage::Cancel => Err(TransferError::Cancelled),
        FileTransferMessage::Heartbeat => if heartbeat {
            Ok(WaitOutcome::WaitOn)
        } else {
            Err(TransferError::Unexpected)
        },
        _ => Err(TransferError::Unexpected),
    }
}

/// What a message means for a download that waits until it may send.
pub fn wait_for_download_credit(message: &FileTransferMessage, heartbeat_enabled: bool) -> (outcome:
    Result<WaitOutcome, TransferError>)
    ensures
        outcome == while_waiting(*message, heartbeat_enabled),
{
    match message {
        FileTransferMessage::Credit { credits } => match add_download_credits(0, *credits) {
            Ok(available) => Ok(WaitOutcome::Go(available)),
            Err(error) => Err(error),
        },
        FileTransferMessage::Cancel => Err(TransferError::Cancelled),
        FileTransferMessage::Heartbeat => if heartbeat_enabled {
            Ok(WaitOutcome::WaitOn)
        } else {
            Err(TransferError::Unexpected)
        },
        _ => Err(TransferError::Unexpected),
    }
}

/// How many chunks may be sent after a message that arrives between two chunks.
pub open spec fn between_chunks(
    available: Option<u32>,
    message: FileTransferMessage,
    heartbeat: bool,
) -> Result<Option<u32>, TransferError> {
    match message {
        FileTransferMessage::Credit { credits } => match available {
            Some(current) => if credits == 0 {
                Err(TransferError::NoCredit)
            } else {
                Ok(Some(granted(current, credits)))
            },
            None => Err(TransferError::Unexpected),
        },
        FileTransferMessage::Cancel => Err(TransferError::Cancelled),
        FileTransferMessage::Heartbeat => if heartbeat {
            Ok(available)
        } else {
            Err(TransferError::Unexpected)
        },
        _ => Err(TransferError::Unexpected),
    }
}

/// How many chunks may be sent after a message that arrives between two chunks.
pub fn heed_download_message(
    available: Option<u32>,
    message: &FileTransferMessage,
    heartbeat_enabled: bool,
) -> (credits: Result<Option<u32>, TransferError>)
    ensures
        credits == between_chunks(available, *message, heartbeat_enabled),
{
    match message {
        FileTransferMessage::Credit { credits } => match available {
            Some(current) => match add_download_credits(current, *credits) {
                Ok(sum) => Ok(Some(sum)),
                Err(error) => Err(error),
            },
            None => Err(TransferError::Unexpected),
        },
        FileTransferMessage::Cancel => Err(TransferError::Cancelled),
        FileTransferMessage::Heartbeat => if heartbeat_enabled {
            Ok(available)
        } else {
            Err(TransferError::Unexpected)
        },
        _ => Err(TransferError::Unexpected),
    }
}

/// Whether a chunk may be sent.
pub fn may_send(available: Option<u32>) -> (may: bool)
    ensures
        may == (available != Some(0u32)),
{
    match available {
        Some(credits) => credits != 0,
        None => true,
    }
}

/// How many chunks may be sent after one has been.
pub fn chunk_sent(available: Option<u32>) -> (left: Option<u32>)
    requires
        available != Some(0u32),
    ensures
        left == match available {
            Some(credits) => Some((credits - 1) as u32),
            None => None,
        },
{
    match available {
        Some(credits) => Some(credits - 1),
        None => None,
    }
}

/// How a download ends whose contents have all been read.
pub fn finish_download(sent: u64, total: u64, sha256: Vec<u8>) -> (end: Result<
    FileTransferMessage,
    TransferError,
>)
    ensures
        end == if sent == total {
            Ok(FileTransferMessage::Complete { bytes: sent, sha256 })
        } else {
            Err(TransferError::CountChanged)
        },
{
    if sent != total {
        return Err(TransferError::CountChanged);
    }
    Ok(FileTransferMessage::Complete { bytes: sent, sha256 })
}

/// What happens in a download with limited chunks.
pub enum DownloadEvent {
    Granted(u32),
    Sent,
}

/// The events of a download with limited chunks can happen: no grant is empty,
/// and nothing is sent that may not be. The result tells how many chunks may
/// still be sent.
pub open spec fn credits_after(start: u32, events: Seq<DownloadEvent>) -> Option<u32>
    decreases events.len(),
{
    if events.len() == 0 {
        Some(start)
    } else {
        match credits_after(start, events.drop_last()) {
            None => None,
            Some(available) => match events.last() {
                DownloadEvent::Granted(more) => if more == 0 {
                    None
                } else {
                    Some(granted(available, more))
                },
                DownloadEvent::Sent => if available == 0 {
                    None
                } else {
                    Some((available - 1) as u32)
                },
            },
        }
    }
}

/// The chunks that have been granted.
pub open spec fn granted_by(events: Seq<DownloadEvent>) -> nat
    decreases events.len(),
{
    if events.len() == 0 {
        0
    } else {
        granted_by(events.drop_last()) + match events.last() {
            DownloadEvent::Granted(more) => more as nat,
            DownloadEvent::Sent => 0,
        }
    }
}

/// The chunks that have been sent.
pub open spec fn sent_by(events: Seq<DownloadEvent>) -> nat
    decreases events.len(),
{
    if events.len() == 0 {
        0
    } else {
        sent_by(events.drop_last()) + match events.last() {
            DownloadEvent::Granted(_) => 0nat,
            DownloadEvent::Sent => 1nat,
        }
    }
}

/// A download never sends more chunks than have been granted, and never keeps
/// more than the fixed number of grants.
pub proof fn downloads_respect_their_credit(start: u32, events: Seq<DownloadEvent>)
    requires
        start <= MAX_DOWNLOAD_CREDITS,
    ensures
        credits_after(start, events) matches Some(available) ==> available <= MAX_DOWNLOAD_CREDITS
            && sent_by(events) + available <= start + granted_by(events),
    decreases events.len(),
{
    if events.len() > 0 {
        downloads_respect_their_credit(start, events.drop_last());
    }
}

/// Why a download is refused.
#[derive(Clone, Copy, Debug, PartialEq, Eq, Structural)]
pub enum DownloadError {
    /// Nothing is selected.
    EmptySelection,
    /// The managed file is only shown in the editor.
    ManagedFile,
}

/// Whether the paths may be downloaded.
pub fn admit_download(root: &ResolvedRoot, paths: &Vec<String>, allow_managed: bool) -> (outcome: Result<
    (),
    DownloadError,
>)
    ensures
        outcome == if paths@.len() == 0 {
            Err(DownloadError::EmptySelection)
        } else if (root.managed_file matches Some(managed) && texts(paths@).contains(managed@))
            && !allow_managed {
            Err(DownloadError::ManagedFile)
        } else {
            Ok(())
        },
{
    if paths.len() == 0 {
        return Err(DownloadError::EmptySelection);
    }
    let selected = match &root.managed_file {
        Some(managed) => text::contains_text(paths, managed.as_str()),
        None => false,
    };
    if selected && !allow_managed {
        return Err(DownloadError::ManagedFile);
    }
    Ok(())
}

/// How a download is prepared: under which name it is offered, and whether its
/// contents are packed into an archive.
#[derive(Clone, Debug, PartialEq, Eq)]
pub struct DownloadShape {
    pub file_name: String,
    pub packed: bool,
}

/// How a download is prepared. A single file is offered as it is; `single` is
/// the name of a single selected entry and whether it is a regular file.
pub fn shape_download(single: Option<(String, bool)>) -> (shape: DownloadShape)
    ensures
        match single {
            Some((name, true)) => !shape.packed && shape.file_name@ == name@,
            Some((name, false)) => shape.packed && shape.file_name@ == name@ + ".zip"@,
            None => shape.packed && shape.file_name@ == "komodo-download.zip"@,
        },
{
    match single {
        Some((name, regular)) => if regular {
            DownloadShape { file_name: name, packed: false }
        } else {
            DownloadShape { file_name: text::concat2(name.as_str(), ".zip"), packed: true }
        },
        None => DownloadShape { file_name: "komodo-download.zip".to_owned(), packed: true },
    }
}

/// The contents of a download, digested and counted as they are read.
pub struct DownloadDigest {
    count: u64,
    digest: StreamDigest,
}

/// What is answered to a request for a download.
#[derive(Clone, Debug, PartialEq, Eq)]
pub struct DownloadAnswer {
    pub file_name: String,
    pub total_bytes: u64,
    /// The SHA-256 digest of the contents.
    pub sha256: Vec<u8>,
    /// The digest in hexadecimal digits.
    pub sha256_text: String,
    pub supports_download_credit: bool,
    pub supports_download_heartbeat: bool,
}

impl DownloadDigest {
    /// The contents that were read.
    pub closed spec fn bytes(self) -> Seq<u8> {
        outside::absorbed(self.digest)
    }

    /// As many bytes are counted as were read.
    pub closed spec fn well_formed(self) -> bool {
        self.count == self.bytes().len()
    }

    /// Nothing was read.
    pub fn start() -> (digest: DownloadDigest)
        ensures
            digest.well_formed(),
            digest.bytes() == Seq::<u8>::empty(),
    {
        DownloadDigest { count: 0, digest: StreamDigest::start() }
    }

    /// A chunk was read. It is not taken where there are more bytes than can be
    /// counted.
    pub fn add_chunk(&mut self, chunk: &Vec<u8>) -> (taken: bool)
        requires
            old(self).well_formed(),
        ensures
            final(self).well_formed(),
            taken == (old(self).bytes().len() + chunk@.len() <= u64::MAX),
            final(self).bytes() == if taken {
                old(self).bytes() + chunk@
            } else {
                old(self).bytes()
            },
    {
        match self.count.checked_add(chunk.len() as u64) {
            None => false,
            Some(count) => {
                self.count = count;
                self.digest.update(chunk);
                true
            },
        }
    }

    /// What is answered once everything was read.
    pub fn download_answer(self, file_name: String) -> (answer: DownloadAnswer)
        requires
            self.well_formed(),
        ensures
            answer.file_name == file_name,
            answer.total_bytes == self.bytes().len(),
            answer.sha256@ == outside::sha256_of(self.bytes()),
            answer.sha256_text@ == revision::digest_text(self.bytes()),
            answer.supports_download_credit,
            answer.supports_download_heartbeat,
    {
        let sha256 = self.digest.finish();
        DownloadAnswer {
            file_name,
            total_bytes: self.count,
            sha256_text: outside::hex_encode(&sha256),
            sha256,
            supports_download_credit: true,
            supports_download_heartbeat: true,
        }
    }
}

/// What a download does next.
#[derive(Clone, Copy, Debug, PartialEq, Eq, Structural)]
pub enum DownloadPhase {
    /// Wait for the first message.
    AwaitBegin,
    /// See whether the download was cancelled here.
    CheckCancelled,
    /// Wait for a message that grants more chunks.
    AwaitCredit,
    /// Take the messages that have come, if any have.
    Poll,
    /// Read the next chunk.
    Read,
    /// Send the chunk that was read.
    Send,
    /// See whether the download was cancelled here, at last.
    CheckFinally,
    /// Everything has been sent.
    Complete,
    /// The download has failed.
    Failed(TransferError),
}

/// A download that is being sent.
#[derive(Clone, Copy, Debug, PartialEq, Eq, Structural)]
pub struct DownloadSession {
    pub phase: DownloadPhase,
    /// How many chunks may be sent, if that is limited.
    pub credits: Option<u32>,
    /// The other side shows that it lives.
    pub heartbeat: bool,
    pub sent: u64,
    pub total: u64,
}

/// What came of what a download did.
#[derive(Clone, Debug, PartialEq, Eq)]
pub enum DownloadHappened {
    /// It went well.
    Succeeded,
    /// It did not.
    Failed(TransferError),
    /// A message came.
    Received(FileTransferMessage),
    /// No message has come.
    NothingReceived,
    /// So many bytes were read.
    WasRead(u64),
}

/// The session with another phase.
pub open spec fn in_phase(session: DownloadSession, phase: DownloadPhase) -> DownloadSession {
    DownloadSession { phase, ..session }
}

/// The session with another phase and another number of chunks that may be sent.
pub open spec fn with_credits(
    session: DownloadSession,
    credits: Option<u32>,
    phase: DownloadPhase,
) -> DownloadSession {
    DownloadSession { phase, credits, ..session }
}

/// The download after something has happened.
pub open spec fn download_next(session: DownloadSession, happened: DownloadHappened) -> DownloadSession {
    if session.phase == DownloadPhase::Complete || session.phase is Failed {
        session
    } else {
        match happened {
            DownloadHappened::Failed(error) => in_phase(session, DownloadPhase::Failed(error)),
            DownloadHappened::Received(message) => match session.phase {
                DownloadPhase::AwaitBegin => match begins_as(message) {
                    Ok((credits, heartbeat)) => DownloadSession {
                        phase: DownloadPhase::CheckCancelled,
                        credits,
                        heartbeat,
                        sent: session.sent,
                        total: session.total,
                    },
                    Err(error) => in_phase(session, DownloadPhase::Failed(error)),
                },
                DownloadPhase::AwaitCredit => match while_waiting(message, session.heartbeat) {
                    Ok(WaitOutcome::Go(credits)) => with_credits(
                        session,
                        Some(credits),
                        DownloadPhase::Poll,
                    ),
                    Ok(WaitOutcome::WaitOn) => session,
                    Err(error) => in_phase(session, DownloadPhase::Failed(error)),
                },
                DownloadPhase::Poll => match between_chunks(
                    session.credits,
                    message,
                    session.heartbeat,
                ) {
                    Ok(credits) => with_credits(session, credits, DownloadPhase::Poll),
                    Err(error) => in_phase(session, DownloadPhase::Failed(error)),
                },
                _ => in_phase(session, DownloadPhase::Failed(TransferError::Unexpected)),
            },
            DownloadHappened::NothingReceived => if session.phase == DownloadPhase::Poll {
                in_phase(session, DownloadPhase::Read)
            } else {
                in_phase(session, DownloadPhase::Failed(TransferError::Closed))
            },
            DownloadHappened::WasRead(count) => if session.phase != DownloadPhase::Read {
                in_phase(session, DownloadPhase::Failed(TransferError::Unexpected))
            } else if count == 0 {
                if session.sent == session.total {
                    in_phase(session, DownloadPhase::CheckFinally)
                } else {
                    in_phase(session, DownloadPhase::Failed(TransferError::CountChanged))
                }
            } else if session.sent + count > u64::MAX {
                in_phase(session, DownloadPhase::Failed(TransferError::SizeOverflow))
            } else {
                DownloadSession {
                    phase: DownloadPhase::Send,
                    credits: session.credits,
                    heartbeat: session.heartbeat,
                    sent: (session.sent + count) as u64,
                    total: session.total,
                }
            },
            DownloadHappened::Succeeded => match session.phase {
                DownloadPhase::CheckCancelled => if session.credits == Some(0u32) {
                    in_phase(session, DownloadPhase::AwaitCredit)
                } else {
                    in_phase(session, DownloadPhase::Poll)
                },
                DownloadPhase::Send => with_credits(
                    session,
                    match session.credits {
                        Some(credits) => if credits > 0 {
                            Some((credits - 1) as u32)
                        } else {
                            Some(0u32)
                        },
                        None => None,
                    },
                    DownloadPhase::CheckCancelled,
                ),
                DownloadPhase::CheckFinally => in_phase(session, DownloadPhase::Complete),
                _ => in_phase(session, DownloadPhase::Failed(TransferError::Unexpected)),
            },
        }
    }
}

fn moved(session: DownloadSession, phase: DownloadPhase) -> (next: DownloadSession)
    ensures
        next == in_phase(session, phase),
{
    DownloadSession {
        phase,
        credits: session.credits,
        heartbeat: session.heartbeat,
        sent: session.sent,
        total: session.total,
    }
}

fn moved_with(session: DownloadSession, credits: Option<u32>, phase: DownloadPhase) -> (next:
    DownloadSession)
    ensures
        next == with_credits(session, credits, phase),
{
    DownloadSession {
        phase,
        credits,
        heartbeat: session.heartbeat,
        sent: session.sent,
        total: session.total,
    }
}

/// A download of so many bytes that waits for its first message.
pub fn begin_download(total: u64) -> (session: DownloadSession)
    ensures
        session == (DownloadSession {
            phase: DownloadPhase::AwaitBegin,
            credits: None,
            heartbeat: false,
            sent: 0,
            total,
        }),
{
    DownloadSession {
        phase: DownloadPhase::AwaitBegin,
        credits: None,
        heartbeat: false,
        sent: 0,
        total,
    }
}

/// The download after something has happened.
pub fn start_download(session: DownloadSession, happened: &DownloadHappened) -> (next:
    DownloadSession)
    ensures
        next == download_next(session, *happened),
{
    match session.phase {
        DownloadPhase::Complete => {
            return session;
        },
        DownloadPhase::Failed(_) => {
            return session;
        },
        _ => {},
    }
    match happened {
        DownloadHappened::Failed(error) => moved(session, DownloadPhase::Failed(*error)),
        DownloadHappened::Received(message) => match session.phase {
            DownloadPhase::AwaitBegin => match download_begin_mode(message) {
                Ok((credits, heartbeat)) => DownloadSession {
                    phase: DownloadPhase::CheckCancelled,
                    credits,
                    heartbeat,
                    sent: session.sent,
                    total: session.total,
                },
                Err(error) => moved(session, DownloadPhase::Failed(error)),
            },
            DownloadPhase::AwaitCredit => match wait_for_download_credit(
                message,
                session.heartbeat,
            ) {
                Ok(WaitOutcome::Go(credits)) => moved_with(
                    session,
                    Some(credits),
                    DownloadPhase::Poll,
                ),
                Ok(WaitOutcome::WaitOn) => session,
                Err(error) => moved(session, DownloadPhase::Failed(error)),
            },
            DownloadPhase::Poll => match heed_download_message(
                session.credits,
                message,
                session.heartbeat,
            ) {
                Ok(credits) => moved_with(session, credits, DownloadPhase::Poll),
                Err(error) => moved(session, DownloadPhase::Failed(error)),
            },
            _ => moved(session, DownloadPhase::Failed(TransferError::Unexpected)),
        },
        DownloadHappened::NothingReceived => match session.phase {
            DownloadPhase::Poll => moved(session, DownloadPhase::Read),
            _ => moved(session, DownloadPhase::Failed(TransferError::Closed)),
        },
        DownloadHappened::WasRead(count) => match session.phase {
            DownloadPhase::Read => if *count == 0 {
                if session.sent == session.total {
                    moved(session, DownloadPhase::CheckFinally)
                } else {
                    moved(session, DownloadPhase::Failed(TransferError::CountChanged))
                }
            } else {
                match session.sent.checked_add(*count) {
                    None => moved(session, DownloadPhase::Failed(TransferError::SizeOverflow)),
                    Some(sent) => DownloadSession {
                        phase: DownloadPhase::Send,
                        credits: session.credits,
                        heartbeat: session.heartbeat,
                        sent,
                        total: session.total,
                    },
                }
            },
            _ => moved(session, DownloadPhase::Failed(TransferError::Unexpected)),
        },
        DownloadHappened::Succeeded => match session.phase {
            DownloadPhase::CheckCancelled => if may_send(session.credits) {
                moved(session, DownloadPhase::Poll)
            } else {
                moved(session, DownloadPhase::AwaitCredit)
            },
            DownloadPhase::Send => {
                let left = if may_send(session.credits) {
                    chunk_sent(session.credits)
                } else {
                    session.credits
                };
                moved_with(session, left, DownloadPhase::CheckCancelled)
            },
            DownloadPhase::CheckFinally => moved(session, DownloadPhase::Complete),
            _ => moved(session, DownloadPhase::Failed(TransferError::Unexpected)),
        },
    }
}

/// The download may send where it sends: it has a chunk left, or is not limited.
pub open spec fn keeps_within_credit(session: DownloadSession) -> bool {
    session.phase == DownloadPhase::Poll || session.phase == DownloadPhase::Read || session.phase
        == DownloadPhase::Send ==> session.credits != Some(0u32)
}

/// The download is complete only if it has sent all that was announced.
pub open spec fn is_whole(session: DownloadSession) -> bool {
    session.phase == DownloadPhase::CheckFinally || session.phase == DownloadPhase::Complete
        ==> session.sent == session.total
}

/// No chunk is sent without leave, and no download is complete that has not sent
/// as much as was announced, whatever messages come and whatever fails.
pub proof fn downloads_stay_within_credit_and_end_whole(
    session: DownloadSession,
    happened: DownloadHappened,
)
    requires
        keeps_within_credit(session),
        is_whole(session),
    ensures
        keeps_within_credit(download_next(session, happened)),
        is_whole(download_next(session, happened)),
{
}

// ---------------------------------------------------------------------------
// Receiving an upload
// ---------------------------------------------------------------------------

/// An upload that is being received.
pub struct UploadSession {
    total: u64,
    received: u64,
    digest: StreamDigest,
}

/// What a message means for an upload.
pub enum UploadStep {
    /// More contents have come.
    More(UploadSession),
    /// All contents have come.
    Done { bytes: u64, sha256: Vec<u8> },
}

impl UploadSession {
    /// What has been received so far.
    pub closed spec fn contents(self) -> Seq<u8> {
        outside::absorbed(self.digest)
    }

    /// How many bytes have been announced.
    pub closed spec fn announced(self) -> u64 {
        self.total
    }

    /// No more has been received than was announced, and the count is right.
    pub closed spec fn well_formed(self) -> bool {
        self.received == outside::absorbed(self.digest).len() && self.received <= self.total
    }

    /// An upload of which nothing has been received.
    pub fn start(total: u64) -> (session: UploadSession)
        ensures
            session.well_formed(),
            session.contents() == Seq::<u8>::empty(),
            session.announced() == total,
    {
        UploadSession { total, received: 0, digest: StreamDigest::start() }
    }

    /// Takes in a message. Contents may not exceed what was announced; the end
    /// must name their size and their SHA-256 digest.
    pub fn receive(self, message: &FileTransferMessage) -> (step: Result<UploadStep, TransferError>)
        requires
            self.well_formed(),
        ensures
            match *message {
                FileTransferMessage::Chunk(bytes) => match step {
                    Ok(UploadStep::More(session)) => {
                        &&& session.well_formed()
                        &&& session.contents() == self.contents() + bytes@
                        &&& session.announced() == self.announced()
                    },
                    Ok(UploadStep::Done { .. }) => false,
                    Err(error) => {
                        let size = self.contents().len() + bytes@.len();
                        &&& size > self.announced()
                        &&& error == if size > u64::MAX {
                            TransferError::SizeOverflow
                        } else {
                            TransferError::TooLarge
                        }
                    },
                },
                FileTransferMessage::Complete { bytes, sha256 } => {
                    let whole = self.contents().len() == self.announced() && bytes
                        == self.contents().len() && sha256@ == outside::sha256_of(self.contents());
                    match step {
                        Ok(UploadStep::Done { bytes: size, sha256: digest }) => whole && size
                            == bytes && digest@ == sha256@,
                        Ok(UploadStep::More(_)) => false,
                        Err(error) => !whole && error == TransferError::Mismatch,
                    }
                },
                FileTransferMessage::Cancel => step == Err::<UploadStep, TransferError>(
                    TransferError::Cancelled,
                ),
                _ => step == Err::<UploadStep, TransferError>(TransferError::Unexpected),
            },
    {
        match message {
            FileTransferMessage::Chunk(bytes) => {
                let received = match self.received.checked_add(bytes.len() as u64) {
                    Some(sum) => sum,
                    None => {
                        return Err(TransferError::SizeOverflow);
                    },
                };
                if received > self.total {
                    return Err(TransferError::TooLarge);
                }
                let mut digest = self.digest;
                digest.update(bytes);
                Ok(UploadStep::More(UploadSession { total: self.total, received, digest }))
            },
            FileTransferMessage::Complete { bytes, sha256 } => {
                let total: u64 = self.total;
                let received: u64 = self.received;
                let actual = self.digest.finish();
                if received != total || *bytes != received || !same_bytes(sha256, &actual) {
                    return Err(TransferError::Mismatch);
                }
                Ok(UploadStep::Done { bytes: received, sha256: actual })
            },
            FileTransferMessage::Cancel => Err(TransferError::Cancelled),
            _ => Err(TransferError::Unexpected),
        }
    }
}

fn same_bytes(a: &Vec<u8>, b: &Vec<u8>) -> (equal: bool)
    ensures
        equal == (a@ == b@),
{
    if a.len() != b.len() {
        return false;
    }
    for i in 0..a.len()
        invariant
            a@.len() == b@.len(),
            forall|k: int| 0 <= k < i ==> a@[k] == b@[k],
    {
        if a[i] != b[i] {
            return false;
        }
    }
    assert(a@ =~= b@);
    true
}

/// Whether an upload begins correctly.
pub fn admit_begin(begin: &FileTransferMessage) -> (outcome: Result<(), TransferError>)
    ensures
        outcome == if begin is Begin {
            Ok(())
        } else {
            Err(TransferError::BadBegin)
        },
{
    match begin {
        FileTransferMessage::Begin => Ok(()),
        _ => Err(TransferError::BadBegin),
    }
}

// ---------------------------------------------------------------------------
// Publishing an upload
// ---------------------------------------------------------------------------

/// Why an upload is refused or not published.
#[derive(Clone, Copy, Debug, PartialEq, Eq, Structural)]
pub enum UploadError {
    /// The root is read-only.
    ReadOnly,
    /// The destination is refused.
    Path(PathError),
    /// The managed file is only changed in the editor.
    ManagedFile,
    /// The destination changed after the caller agreed to replace it.
    ChangedAfterConfirmation,
    /// Something stands at the destination.
    Exists,
    /// The destination changed while the upload was prepared.
    ChangedWhilePreparing,
    /// The staging file or directory is gone.
    Moved,
    /// The staging file or directory is another one.
    Changed,
    /// The destination changed while the upload was received.
    DestinationChanged,
}

/// Why an upload is refused, or where it goes.
pub open spec fn upload_place(root: ResolvedRoot, destination: Seq<char>, file_name: Seq<char>) -> Result<
    Seq<char>,
    UploadError,
> {
    if root.read_only {
        Err(UploadError::ReadOnly)
    } else {
        match path::relative_path_outcome(destination, true) {
            Some(error) => Err(UploadError::Path(error)),
            None => match path::single_name_outcome(file_name) {
                Err(error) => Err(UploadError::Path(error)),
                Ok(name) => {
                    let place = path::joined(destination, name);
                    if root.managed_file matches Some(managed) && managed@ == place {
                        Err(UploadError::ManagedFile)
                    } else {
                        Ok(place)
                    }
                },
            },
        }
    }
}

/// Where an upload goes.
pub fn admit_upload(root: &ResolvedRoot, destination: &str, file_name: &str) -> (place: Result<
    String,
    UploadError,
>)
    ensures
        match (place, upload_place(*root, destination@, file_name@)) {
            (Ok(path), Ok(expected)) => path@ == expected,
            (Err(a), Err(b)) => a == b,
            _ => false,
        },
{
    if root.read_only {
        return Err(UploadError::ReadOnly);
    }
    match path::relative_path(destination, true) {
        Err(error) => Err(UploadError::Path(error)),
        Ok(_) => match path::single_name(file_name) {
            Err(error) => Err(UploadError::Path(error)),
            Ok(name) => {
                let place = path::join(destination, name.as_str());
                if text::is_some_text(&root.managed_file, place.as_str()) {
                    Err(UploadError::ManagedFile)
                } else {
                    Ok(place)
                }
            },
        },
    }
}

fn equal_revisions(a: &Option<FileManagerRevision>, b: &Option<FileManagerRevision>) -> (equal: bool)
    ensures
        equal == same_revision(*a, *b),
{
    match (a, b) {
        (Some(x), Some(y)) => text::same(x.id.as_str(), y.id.as_str()),
        (None, None) => true,
        _ => false,
    }
}

/// Whether an upload may replace what stands at its destination: only what the
/// caller agreed to replace.
pub fn admit_replacement(
    overwrite: bool,
    found: &Option<FileManagerRevision>,
    expected: &Option<FileManagerRevision>,
) -> (outcome: Result<(), UploadError>)
    ensures
        outcome == if overwrite && !same_revision(*found, *expected) {
            Err(UploadError::ChangedAfterConfirmation)
        } else if !overwrite && found is Some {
            Err(UploadError::Exists)
        } else {
            Ok(())
        },
{
    if overwrite && !equal_revisions(found, expected) {
        return Err(UploadError::ChangedAfterConfirmation);
    }
    if !overwrite && found.is_some() {
        return Err(UploadError::Exists);
    }
    Ok(())
}

/// Whether an upload may be published: only while the destination is as it was
/// when the upload began.
pub fn admit_publish(
    found: &Option<FileManagerRevision>,
    prepared: &Option<FileManagerRevision>,
) -> (outcome: Result<(), UploadError>)
    ensures
        outcome == if same_revision(*found, *prepared) {
            Ok(())
        } else {
            Err(UploadError::DestinationChanged)
        },
{
    if equal_revisions(found, prepared) {
        Ok(())
    } else {
        Err(UploadError::DestinationChanged)
    }
}

/// Whether an upload takes over mode and owner of what it replaces: of a regular
/// file, which must be the one that was found. `current` is the revision of a
/// regular file at the destination.
pub fn takes_over_metadata(
    current: &Option<FileManagerRevision>,
    found: &Option<FileManagerRevision>,
) -> (takes: Result<bool, UploadError>)
    ensures
        takes == if current is None {
            Ok(false)
        } else if same_revision(*found, *current) {
            Ok(true)
        } else {
            Err(UploadError::ChangedWhilePreparing)
        },
{
    if current.is_none() {
        return Ok(false);
    }
    if equal_revisions(found, current) {
        Ok(true)
    } else {
        Err(UploadError::ChangedWhilePreparing)
    }
}

/// What tells a file or directory apart from others.
#[derive(Clone, Copy, Debug, PartialEq, Eq, Structural)]
pub struct FileIdentity {
    pub device: u64,
    pub inode: u64,
}

/// What is seen at the place of the staging file or directory.
#[derive(Clone, Copy, Debug, PartialEq, Eq, Structural)]
pub struct StagingSeen {
    /// It is of the kind that was created, and no symbolic link.
    pub right_kind: bool,
    pub identity: FileIdentity,
}

/// Whether the staging file or directory is the one that was created.
pub fn verify_upload_staging_identity(seen: Option<StagingSeen>, expected: FileIdentity) -> (outcome:
    Result<(), UploadError>)
    ensures
        outcome == match seen {
            None => Err(UploadError::Moved),
            Some(staging) => if staging.right_kind && staging.identity == expected {
                Ok(())
            } else {
                Err(UploadError::Changed)
            },
        },
{
    match seen {
        None => Err(UploadError::Moved),
        Some(staging) => if staging.right_kind && staging.identity.device == expected.device
            && staging.identity.inode == expected.inode {
            Ok(())
        } else {
            Err(UploadError::Changed)
        },
    }
}

/// Whether what stands at the destination is removed before the upload is
/// renamed to it: anything but a regular file, which the rename replaces.
/// `regular` tells whether a regular file stands there.
pub fn clears_destination(regular: Option<bool>, overwrite: bool) -> (clears: Result<
    bool,
    UploadError,
>)
    ensures
        clears == match regular {
            None => Ok(false),
            Some(file) => if overwrite {
                Ok(!file)
            } else {
                Err(UploadError::DestinationChanged)
            },
        },
{
    match regular {
        None => Ok(false),
        Some(file) => if overwrite {
            Ok(!file)
        } else {
            Err(UploadError::DestinationChanged)
        },
    }
}

/// What is done next for an upload.
#[derive(Clone, Copy, Debug, PartialEq, Eq, Structural)]
pub enum UploadStage {
    /// Wait for the first message.
    Beginning,
    /// Look at the destination and open the staging file.
    Preparing,
    /// Receive the contents.
    Receiving,
    /// Compare the destination and the staging file with what they were.
    Verifying,
    /// Copy what stands at the destination into a journal.
    Snapshotting,
    /// Compare the destination once more.
    VerifyingAgain,
    /// Retire a journal that nothing was changed under.
    RetiringUnused,
    /// Rename the staging file to the destination.
    Publishing,
    /// Close the journal.
    Closing,
    /// Put back what stood at the destination.
    Restoring,
    /// Retire the journal.
    Retiring,
    /// The upload has been published.
    Published,
    /// The upload failed. Its journal is retained for recovery, or is not
    /// needed.
    Failed { retained: bool },
}

/// What came of a stage of an upload.
#[derive(Clone, Debug, PartialEq, Eq)]
pub enum UploadHappened {
    Succeeded,
    Failed,
    /// What stands at the destination has been compared with what stood there
    /// when the upload began.
    Compared { found: Option<FileManagerRevision>, prepared: Option<FileManagerRevision> },
}

/// Whether a stage has done its work. Where the destination is compared, nothing
/// else counts.
pub open spec fn stage_succeeded(stage: UploadStage, happened: UploadHappened) -> bool {
    match happened {
        UploadHappened::Failed => false,
        UploadHappened::Succeeded => !(stage is Verifying || stage is VerifyingAgain),
        UploadHappened::Compared { found, prepared } => (stage is Verifying || stage
            is VerifyingAgain) && same_revision(found, prepared),
    }
}

/// What is done next for an upload after what came of a stage.
pub open spec fn upload_next(stage: UploadStage, happened: UploadHappened) -> UploadStage {
    let succeeded = stage_succeeded(stage, happened);
    match stage {
        UploadStage::Published => UploadStage::Published,
        UploadStage::Failed { retained } => UploadStage::Failed { retained },
        UploadStage::RetiringUnused => UploadStage::Failed { retained: false },
        UploadStage::Retiring => UploadStage::Failed { retained: false },
        UploadStage::Restoring => if succeeded {
            UploadStage::Retiring
        } else {
            UploadStage::Failed { retained: true }
        },
        UploadStage::Closing => if succeeded {
            UploadStage::Published
        } else {
            UploadStage::Restoring
        },
        UploadStage::Publishing => if succeeded {
            UploadStage::Closing
        } else {
            UploadStage::Restoring
        },
        UploadStage::VerifyingAgain => if succeeded {
            UploadStage::Publishing
        } else {
            UploadStage::RetiringUnused
        },
        UploadStage::Beginning => if succeeded {
            UploadStage::Preparing
        } else {
            UploadStage::Failed { retained: false }
        },
        UploadStage::Preparing => if succeeded {
            UploadStage::Receiving
        } else {
            UploadStage::Failed { retained: false }
        },
        UploadStage::Receiving => if succeeded {
            UploadStage::Verifying
        } else {
            UploadStage::Failed { retained: false }
        },
        UploadStage::Verifying => if succeeded {
            UploadStage::Snapshotting
        } else {
            UploadStage::Failed { retained: false }
        },
        UploadStage::Snapshotting => if succeeded {
            UploadStage::VerifyingAgain
        } else {
            UploadStage::Failed { retained: false }
        },
    }
}

/// What is done next for an upload after what came of a stage.
pub fn start_upload(stage: UploadStage, happened: &UploadHappened) -> (next: UploadStage)
    ensures
        next == upload_next(stage, *happened),
{
    let comparing = match stage {
        UploadStage::Verifying | UploadStage::VerifyingAgain => true,
        _ => false,
    };
    let succeeded = match happened {
        UploadHappened::Failed => false,
        UploadHappened::Succeeded => !comparing,
        UploadHappened::Compared { found, prepared } => comparing && admit_publish(
            found,
            prepared,
        ).is_ok(),
    };
    match stage {
        UploadStage::Published => UploadStage::Published,
        UploadStage::Failed { retained } => UploadStage::Failed { retained },
        UploadStage::RetiringUnused
        | UploadStage::Retiring => UploadStage::Failed { retained: false },
        UploadStage::Restoring => if succeeded {
            UploadStage::Retiring
        } else {
            UploadStage::Failed { retained: true }
        },
        UploadStage::Closing => if succeeded {
            UploadStage::Published
        } else {
            UploadStage::Restoring
        },
        UploadStage::Publishing => if succeeded {
            UploadStage::Closing
        } else {
            UploadStage::Restoring
        },
        UploadStage::VerifyingAgain => if succeeded {
            UploadStage::Publishing
        } else {
            UploadStage::RetiringUnused
        },
        _ => if !succeeded {
            UploadStage::Failed { retained: false }
        } else {
            match stage {
                UploadStage::Beginning => UploadStage::Preparing,
                UploadStage::Preparing => UploadStage::Receiving,
                UploadStage::Receiving => UploadStage::Verifying,
                UploadStage::Verifying => UploadStage::Snapshotting,
                _ => UploadStage::VerifyingAgain,
            }
        },
    }
}

/// How far a stage lies along the course of an upload.
pub open spec fn upload_rank(stage: UploadStage) -> nat {
    match stage {
        UploadStage::Beginning => 0,
        UploadStage::Preparing => 1,
        UploadStage::Receiving => 2,
        UploadStage::Verifying => 3,
        UploadStage::Snapshotting => 4,
        UploadStage::VerifyingAgain => 5,
        UploadStage::Publishing => 6,
        UploadStage::Closing => 7,
        UploadStage::Restoring => 8,
        UploadStage::RetiringUnused => 9,
        UploadStage::Retiring => 9,
        UploadStage::Published => 10,
        UploadStage::Failed { .. } => 10,
    }
}

/// Every upload ends, and one that failed once its publication had begun was put
/// back or retains the journal that puts it back.
pub proof fn uploads_end_published_or_undone(stage: UploadStage, happened: UploadHappened)
    requires
        !(stage is Published || stage is Failed),
    ensures
        upload_rank(upload_next(stage, happened)) > upload_rank(stage),
        (stage is Publishing || stage is Closing) && happened != UploadHappened::Succeeded
            ==> upload_next(stage, happened) is Restoring,
        stage is Restoring && happened != UploadHappened::Succeeded ==> upload_next(stage, happened)
            == (UploadStage::Failed { retained: true }),
        upload_next(stage, happened) is Published ==> stage is Closing && happened
            == UploadHappened::Succeeded,
{
}

/// The stage that an upload has come to after what came of its stages.
pub open spec fn upload_run(events: Seq<UploadHappened>) -> UploadStage
    decreases events.len(),
{
    if events.len() == 0 {
        UploadStage::Beginning
    } else {
        upload_next(upload_run(events.drop_last()), events.last())
    }
}

/// The destination was found as it was when the upload began.
pub open spec fn found_unchanged(happened: UploadHappened) -> bool {
    happened matches UploadHappened::Compared { found, prepared } && same_revision(found, prepared)
}

/// Whatever happens, nothing at the destination is touched before the contents
/// were received whole and the destination was found unchanged twice: before its
/// snapshot was taken and once more behind it.
pub proof fn published_uploads_replace_what_was_seen(events: Seq<UploadHappened>)
    requires
        upload_rank(upload_run(events)) >= 6,
        !(upload_run(events) is RetiringUnused),
        !(upload_run(events) matches UploadStage::Failed { retained: false }),
    ensures
        events.len() >= 6,
        events[2] == UploadHappened::Succeeded,
        found_unchanged(events[3]),
        found_unchanged(events[5]),
{
    lemma_upload_run(events);
}

proof fn lemma_upload_run(events: Seq<UploadHappened>)
    ensures
        ({
            let stage = upload_run(events);
            let n = events.len();
            let touched = upload_rank(stage) >= 6 && !(stage is RetiringUnused) && !(stage matches UploadStage::Failed {
                retained: false,
            });
            &&& upload_rank(stage) <= 5 ==> n == upload_rank(stage)
            &&& touched ==> n >= 6
            &&& (touched || upload_rank(stage) <= 5) && n >= 3 ==> events[2]
                == UploadHappened::Succeeded
            &&& (touched || upload_rank(stage) <= 5) && n >= 4 ==> found_unchanged(events[3])
            &&& touched ==> found_unchanged(events[5])
        }),
    decreases events.len(),
{
    if events.len() > 0 {
        lemma_upload_run(events.drop_last());
        let before = events.drop_last();
        assert(before.len() >= 3 ==> before[2] == events[2]);
        assert(before.len() >= 4 ==> before[3] == events[3]);
        assert(before.len() >= 6 ==> before[5] == events[5]);
    }
}

/// An error text tells of a cancellation.
pub open spec fn tells_of_cancel(error: Seq<char>) -> bool {
    exists|i: int|
        0 <= i <= error.len() - 6 && #[trigger] error.subrange(i, i + 6) == "cancel"@
}

/// Whether an error text tells of a cancellation.
pub fn is_cancellation(error: &str) -> (cancelled: bool)
    ensures
        cancelled == tells_of_cancel(error@),
{
    let chars = text::chars_of(error);
    proof {
        reveal_strlit("cancel");
    }
    if chars.len() < 6 {
        return false;
    }
    let mut i: usize = 0;
    while chars.len() - i >= 6
        invariant
            chars@ == error@,
            chars@.len() >= 6,
            i <= chars@.len() - 5,
            "cancel"@ == seq!['c', 'a', 'n', 'c', 'e', 'l'],
            forall|k: int| 0 <= k < i ==> #[trigger] error@.subrange(k, k + 6) != "cancel"@,
        decreases chars.len() - i,
    {
        let ghost part = error@.subrange(i as int, i + 6);
        if chars[i] == 'c' && chars[i + 1] == 'a' && chars[i + 2] == 'n' && chars[i + 3] == 'c'
            && chars[i + 4] == 'e' && chars[i + 5] == 'l' {
            assert(part =~= "cancel"@);
            return true;
        }
        proof {
            if part == "cancel"@ {
                assert(part[0] == 'c' && part[1] == 'a' && part[2] == 'n' && part[3] == 'c'
                    && part[4] == 'e' && part[5] == 'l');
            }
        }
        i = i + 1;
    }
    false
}

/// The stage was reached on the way, and left with success or without.
#[verifier::opaque]
pub open spec fn upload_passed(
    events: Seq<UploadHappened>,
    stage: UploadStage,
    well: bool,
) -> bool {
    exists|i: int|
        0 <= i < events.len() && upload_run(#[trigger] events.take(i)) == stage && stage_succeeded(
            stage,
            events[i],
        ) == well
}

proof fn lemma_upload_passed(events: Seq<UploadHappened>)
    requires
        events.len() > 0,
    ensures
        upload_passed(
            events,
            upload_run(events.drop_last()),
            stage_succeeded(upload_run(events.drop_last()), events.last()),
        ),
        forall|stage: UploadStage, well: bool| #[trigger]
            upload_passed(events.drop_last(), stage, well) ==> upload_passed(events, stage, well),
{
    reveal(upload_passed);
    let before = events.drop_last();
    let last = events.len() - 1;
    assert(events.take(last) =~= before);
    assert(upload_run(events.take(last)) == upload_run(before));
    assert forall|stage: UploadStage, well: bool| #[trigger]
        upload_passed(before, stage, well) implies upload_passed(events, stage, well) by {
        let i = choose|i: int|
            0 <= i < before.len() && upload_run(#[trigger] before.take(i)) == stage
                && stage_succeeded(stage, before[i]) == well;
        assert(events.take(i) =~= before.take(i));
        assert(upload_run(events.take(i)) == stage);
    }
}

/// The end of an upload tells what became of the destination. Only a published
/// upload has been renamed to it and its journal closed. The journal is retained
/// only where what stood there could not be put back. Otherwise nothing was changed,
/// or it was put back.
pub proof fn uploads_tell_how_they_ended(events: Seq<UploadHappened>)
    ensures
        match upload_run(events) {
            UploadStage::Published => upload_passed(events, UploadStage::Receiving, true)
                && upload_passed(events, UploadStage::Snapshotting, true) && upload_passed(
                events,
                UploadStage::Publishing,
                true,
            ) && upload_passed(events, UploadStage::Closing, true),
            UploadStage::Failed { retained: true } => upload_passed(
                events,
                UploadStage::Restoring,
                false,
            ),
            UploadStage::Failed { retained: false } => upload_passed(
                events,
                UploadStage::Restoring,
                true,
            ) || !(upload_passed(events, UploadStage::Publishing, true) || upload_passed(
                events,
                UploadStage::Publishing,
                false,
            )),
            UploadStage::Restoring => upload_passed(events, UploadStage::Publishing, false)
                || upload_passed(events, UploadStage::Closing, false),
            UploadStage::Retiring => upload_passed(events, UploadStage::Restoring, true),
            UploadStage::Closing => upload_passed(events, UploadStage::Receiving, true)
                && upload_passed(events, UploadStage::Snapshotting, true) && upload_passed(
                events,
                UploadStage::Publishing,
                true,
            ),
            UploadStage::Publishing => upload_passed(events, UploadStage::Receiving, true)
                && upload_passed(events, UploadStage::Snapshotting, true),
            UploadStage::VerifyingAgain => upload_passed(events, UploadStage::Receiving, true)
                && upload_passed(events, UploadStage::Snapshotting, true),
            UploadStage::Snapshotting => upload_passed(events, UploadStage::Receiving, true),
            UploadStage::Verifying => upload_passed(events, UploadStage::Receiving, true),
            _ => true,
        },
        upload_run(events) is RetiringUnused || upload_rank(upload_run(events)) <= 6
            ==> !upload_passed(events, UploadStage::Publishing, true) && !upload_passed(
            events,
            UploadStage::Publishing,
            false,
        ),
    decreases events.len(),
{
    if events.len() == 0 {
        reveal(upload_passed);
    } else {
        let before = events.drop_last();
        uploads_tell_how_they_ended(before);
        lemma_upload_passed(events);
        if !(upload_run(before) is Publishing) {
            lemma_upload_passed_back(events, UploadStage::Publishing, true);
            lemma_upload_passed_back(events, UploadStage::Publishing, false);
        }
    }
}

proof fn lemma_upload_passed_back(events: Seq<UploadHappened>, stage: UploadStage, well: bool)
    requires
        events.len() > 0,
        upload_run(events.drop_last()) != stage,
    ensures
        upload_passed(events, stage, well) ==> upload_passed(events.drop_last(), stage, well),
{
    reveal(upload_passed);
    let before = events.drop_last();
    if upload_passed(events, stage, well) {
        let i = choose|i: int|
            0 <= i < events.len() && upload_run(#[trigger] events.take(i)) == stage
                && stage_succeeded(stage, events[i]) == well;
        assert(events.take(events.len() - 1) =~= before);
        assert(before.take(i) =~= events.take(i));
        assert(upload_run(before.take(i)) == stage);
    }
}

/// An upload that nothing goes wrong with is published.
pub proof fn undisturbed_uploads_are_published(events: Seq<UploadHappened>)
    requires
        events.len() == 8,
        found_unchanged(events[3]),
        found_unchanged(events[5]),
        forall|i: int|
            0 <= i < 8 && i != 3 && i != 5 ==> #[trigger] events[i] == UploadHappened::Succeeded,
    ensures
        upload_run(events) is Published,
{
    reveal_with_fuel(upload_run, 9);
    assert(events[0] == UploadHappened::Succeeded);
    assert(events[1] == UploadHappened::Succeeded);
    assert(events[2] == UploadHappened::Succeeded);
    assert(events[4] == UploadHappened::Succeeded);
    assert(events[6] == UploadHappened::Succeeded);
    assert(events[7] == UploadHappened::Succeeded);
}

/// The session of a download after all that happened.
pub open spec fn download_run(total: u64, events: Seq<DownloadHappened>) -> DownloadSession
    decreases events.len(),
{
    if events.len() == 0 {
        DownloadSession {
            phase: DownloadPhase::AwaitBegin,
            credits: None,
            heartbeat: false,
            sent: 0,
            total,
        }
    } else {
        download_next(download_run(total, events.drop_last()), events.last())
    }
}

/// How many bytes were read on the way.
pub open spec fn read_by(events: Seq<DownloadHappened>) -> nat
    decreases events.len(),
{
    if events.len() == 0 {
        0
    } else {
        read_by(events.drop_last()) + match events.last() {
            DownloadHappened::WasRead(count) => count as nat,
            _ => 0,
        }
    }
}

/// A download that has not failed counts just the bytes that were read, and is
/// complete only when these are as many as were announced.
pub proof fn downloads_count_what_was_read(total: u64, events: Seq<DownloadHappened>)
    ensures
        download_run(total, events).total == total,
        !(download_run(total, events).phase is Failed || download_run(total, events).phase
            is Complete) ==> download_run(total, events).sent == read_by(events),
        download_run(total, events).phase is CheckFinally || download_run(total, events).phase
            is Complete ==> download_run(total, events).sent == total,
    decreases events.len(),
{
    if events.len() > 0 {
        downloads_count_what_was_read(total, events.drop_last());
    }
}

/// A step of a download changes what it may send only as the other side grants it
/// or a chunk is sent: a sent chunk takes one away, a grant between chunks adds to
/// what is left, and nothing else changes it once the download has begun.
pub proof fn credits_change_by_grants_and_chunks(
    session: DownloadSession,
    happened: DownloadHappened,
)
    requires
        !(download_next(session, happened).phase is Failed),
        !(session.phase is AwaitBegin),
    ensures
        ({
            let next = download_next(session, happened);
            &&& next.heartbeat == session.heartbeat
            &&& session.credits is Some ==> next.credits is Some
            &&& session.credits is None && !(session.phase is AwaitCredit) ==> next.credits is None
            &&& session.credits is Some && session.credits->Some_0 <= MAX_DOWNLOAD_CREDITS ==> {
                let left = session.credits->Some_0;
                match happened {
                    DownloadHappened::Received(FileTransferMessage::Credit { credits }) => {
                        let base = if session.phase is AwaitCredit {
                            0int
                        } else {
                            left as int
                        };
                        session.phase is Complete || next.credits->Some_0 == if base + credits
                            <= MAX_DOWNLOAD_CREDITS {
                            base + credits
                        } else {
                            MAX_DOWNLOAD_CREDITS as int
                        }
                    },
                    DownloadHappened::Succeeded => if session.phase is Send && left > 0 {
                        next.credits->Some_0 == left - 1
                    } else {
                        next.credits == session.credits
                    },
                    _ => next.credits == session.credits,
                }
            }
        }),
{
}

/// A download goes on as soon as it can: a chunk that was read is sent, after which
/// the next is read unless the credit is used up, and everything having been sent
/// the download is complete.
pub proof fn downloads_go_on(session: DownloadSession, count: u64)
    requires
        session.phase is Read,
        session.sent + count <= u64::MAX,
    ensures
        ({
            let sending = download_next(session, DownloadHappened::WasRead(count));
            let sent = download_next(sending, DownloadHappened::Succeeded);
            let checked = download_next(sent, DownloadHappened::Succeeded);
            &&& count > 0 ==> {
                &&& sending.phase is Send
                &&& sent.phase is CheckCancelled
                &&& session.credits == Some(1u32) ==> checked.phase is AwaitCredit
                &&& session.credits is None || session.credits->Some_0 > 1 ==> {
                    &&& checked.phase is Poll
                    &&& download_next(checked, DownloadHappened::NothingReceived).phase is Read
                }
            }
            &&& count == 0 && session.sent == session.total ==> {
                &&& sending.phase is CheckFinally
                &&& sent.phase is Complete
            }
            &&& count == 0 && session.sent != session.total ==> sending.phase
                == DownloadPhase::Failed(TransferError::CountChanged)
        }),
{
}

/// A cancelled download fails, whatever it was doing, and so does one whose other
/// side falls silent or fails.
pub proof fn cancelled_downloads_fail(session: DownloadSession, error: TransferError)
    requires
        !(session.phase is Complete || session.phase is Failed),
    ensures
        download_next(session, DownloadHappened::Failed(error)).phase == DownloadPhase::Failed(
            error,
        ),
        session.phase is AwaitCredit || session.phase is Poll ==> download_next(
            session,
            DownloadHappened::Received(FileTransferMessage::Cancel),
        ).phase == DownloadPhase::Failed(TransferError::Cancelled),
        download_next(
            session,
            DownloadHappened::Received(FileTransferMessage::Cancel),
        ).phase is Failed,
{
}

/// A download begins as the other side asks: without limit, or with the credit that
/// it grants, and heeding its heartbeats if it announces them.
pub proof fn downloads_begin_as_asked(total: u64, begin: FileTransferMessage)
    ensures
        ({
            let session = download_next(
                download_run(total, Seq::empty()),
                DownloadHappened::Received(begin),
            );
            match begin {
                FileTransferMessage::Begin => session.phase is CheckCancelled && session.credits
                    is None && !session.heartbeat,
                FileTransferMessage::BeginWithCredit { credits } => if credits == 0 {
                    session.phase == DownloadPhase::Failed(TransferError::NoCredit)
                } else {
                    session.phase is CheckCancelled && session.credits is Some
                        && session.credits->Some_0 <= credits && (session.credits->Some_0
                        == credits || session.credits->Some_0 == MAX_DOWNLOAD_CREDITS)
                        && !session.heartbeat
                },
                FileTransferMessage::BeginWithCreditAndHeartbeat { credits } => if credits == 0 {
                    session.phase == DownloadPhase::Failed(TransferError::NoCredit)
                } else {
                    session.phase is CheckCancelled && session.credits is Some
                        && session.credits->Some_0 <= credits && (session.credits->Some_0
                        == credits || session.credits->Some_0 == MAX_DOWNLOAD_CREDITS)
                        && session.heartbeat
                },
                _ => session.phase == DownloadPhase::Failed(TransferError::BadBegin),
            }
        }),
{
}

/// An upload goes into the directory that was asked for, under the name that was
/// given, and never to a read-only root or over the managed file.
pub proof fn uploads_go_where_they_were_asked_to(
    root: ResolvedRoot,
    destination: Seq<char>,
    file_name: Seq<char>,
)
    ensures
        upload_place(root, destination, file_name) matches Ok(place) ==> {
            &&& !root.read_only
            &&& path::path_names(file_name).len() == 1
            &&& place == path::joined(destination, path::path_names(file_name)[0])
            &&& root.managed_file matches Some(managed) ==> managed@ != place
            &&& path::relative_path_outcome(destination, true) is None
        },
        !root.read_only && path::relative_path_outcome(destination, true) is None
            && path::relative_path_outcome(file_name, false) is None && path::path_names(
            file_name,
        ).len() == 1 && root.managed_file is None ==> upload_place(root, destination, file_name)
            is Ok,
{
}

} // verus!
