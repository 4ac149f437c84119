//! The course of a backup.

use vstd::prelude::*;
use vstd::utf8::encode_utf8;

use crate::backup::receipts::RunVykarBackupBatchResponse;
use crate::backup::receipts::RunVykarBackupResponse;
use crate::backup::receipts::VykarBackupRepositoryResult;
use crate::backup::receipts::VykarBackupTaskResult;
use crate::file_manager::revision;
use crate::outside;
use crate::path;
use crate::text;
use crate::text::in_order;
use crate::text::texts;

verus! {

// ---------------------------------------------------------------------------
// The steps
// ---------------------------------------------------------------------------

/// What is known of a backup while it runs.
#[derive(Clone, Copy, Debug, PartialEq, Eq, Structural)]
pub struct BackupFacts {
    /// The backup was cancelled before it was admitted.
    pub cancelled: bool,
    /// Containers are stopped for the backup.
    pub stop_containers: bool,
    /// How many containers use what is backed up.
    pub containers: usize,
}

/// Why a backup fails without a response.
#[derive(Clone, Copy, Debug, PartialEq, Eq, Structural)]
pub enum BackupError {
    /// The backup was cancelled before it was admitted.
    Cancelled,
    /// Something else works on the files.
    Locked,
    /// An earlier operation has to be recovered first.
    PendingRecovery,
    /// What is to be backed up could not be found.
    Discovery,
    /// It could not be noted which containers are stopped.
    QuiesceJournal,
    /// A container could not be stopped; those before it run again.
    StopFailed,
    /// Nothing was written; the containers run again.
    WriteFailed,
    /// The note of the stopped containers could not be read.
    Restart,
}

/// What the response of a backup tells.
#[derive(Clone, Copy, Debug, PartialEq, Eq, Structural)]
pub enum BackupEnding {
    /// A container could not be stopped, and not all run again.
    StopFailed,
    /// Nothing was written, and not all containers run again.
    WriteFailed,
    /// The repositories were written.
    Written,
}

/// What is done next for a backup.
#[derive(Clone, Copy, Debug, PartialEq, Eq, Structural)]
pub enum BackupStage {
    /// Take the lease of the files.
    Lock,
    /// See whether an earlier operation has to be recovered.
    CheckRecovery,
    /// Find what is backed up.
    Discover,
    /// Note which containers are stopped.
    PersistQuiesce,
    /// Stop the container with this number.
    Stop { index: usize },
    /// See whether the backup was cancelled, and write the repositories.
    Write,
    /// Start the containers again after one could not be stopped.
    RestartUnstopped,
    /// Start the containers again after the repositories were written, or not.
    Restart { written: bool },
    /// The backup has failed.
    Failed { error: BackupError },
    /// The backup has a response.
    Responded { ending: BackupEnding },
}

/// What came of a step.
#[derive(Clone, Copy, Debug, PartialEq, Eq, Structural)]
pub enum BackupHappened {
    Succeeded,
    Failed,
    /// Some of the containers could not be started.
    SomeFailed,
}

/// The backup has ended.
pub open spec fn backup_is_over(stage: BackupStage) -> bool {
    stage is Failed || stage is Responded
}

/// What is done first for a backup.
pub open spec fn first_backup_stage(facts: BackupFacts) -> BackupStage {
    if facts.cancelled {
        BackupStage::Failed { error: BackupError::Cancelled }
    } else {
        BackupStage::Lock
    }
}

/// What is done after a step.
pub open spec fn next_backup_stage(
    stage: BackupStage,
    facts: BackupFacts,
    happened: BackupHappened,
) -> BackupStage {
    let ok = happened == BackupHappened::Succeeded;
    match stage {
        BackupStage::Lock => if ok {
            BackupStage::CheckRecovery
        } else {
            BackupStage::Failed { error: BackupError::Locked }
        },
        BackupStage::CheckRecovery => if ok {
            BackupStage::Discover
        } else {
            BackupStage::Failed { error: BackupError::PendingRecovery }
        },
        BackupStage::Discover => if !ok {
            BackupStage::Failed { error: BackupError::Discovery }
        } else if facts.stop_containers {
            BackupStage::PersistQuiesce
        } else {
            BackupStage::Write
        },
        BackupStage::PersistQuiesce => if !ok {
            BackupStage::Failed { error: BackupError::QuiesceJournal }
        } else if facts.containers == 0 {
            BackupStage::Write
        } else {
            BackupStage::Stop { index: 0 }
        },
        BackupStage::Stop { index } => if !ok {
            BackupStage::RestartUnstopped
        } else if index + 1 >= facts.containers {
            BackupStage::Write
        } else {
            BackupStage::Stop { index: (index + 1) as usize }
        },
        BackupStage::Write => BackupStage::Restart { written: ok },
        BackupStage::RestartUnstopped => match happened {
            BackupHappened::Succeeded => BackupStage::Failed { error: BackupError::StopFailed },
            BackupHappened::SomeFailed => BackupStage::Responded {
                ending: BackupEnding::StopFailed,
            },
            BackupHappened::Failed => BackupStage::Failed { error: BackupError::Restart },
        },
        BackupStage::Restart { written } => match happened {
            BackupHappened::Failed => BackupStage::Failed { error: BackupError::Restart },
            _ => if written {
                BackupStage::Responded { ending: BackupEnding::Written }
            } else if ok {
                BackupStage::Failed { error: BackupError::WriteFailed }
            } else {
                BackupStage::Responded { ending: BackupEnding::WriteFailed }
            },
        },
        BackupStage::Failed { error } => stage,
        BackupStage::Responded { ending } => stage,
    }
}

/// What is done first for a backup.
pub fn begin_backup(facts: &BackupFacts) -> (stage: BackupStage)
    ensures
        stage == first_backup_stage(*facts),
{
    if facts.cancelled {
        BackupStage::Failed { error: BackupError::Cancelled }
    } else {
        BackupStage::Lock
    }
}

/// What is done after a step of a backup, of one source or of a batch.
pub fn run_backup(stage: BackupStage, facts: &BackupFacts, happened: BackupHappened) -> (next:
    BackupStage)
    ensures
        next == next_backup_stage(stage, *facts, happened),
{
    let ok = happened == BackupHappened::Succeeded;
    match stage {
        BackupStage::Lock => if ok {
            BackupStage::CheckRecovery
        } else {
            BackupStage::Failed { error: BackupError::Locked }
        },
        BackupStage::CheckRecovery => if ok {
            BackupStage::Discover
        } else {
            BackupStage::Failed { error: BackupError::PendingRecovery }
        },
        BackupStage::Discover => if !ok {
            BackupStage::Failed { error: BackupError::Discovery }
        } else if facts.stop_containers {
            BackupStage::PersistQuiesce
        } else {
            BackupStage::Write
        },
        BackupStage::PersistQuiesce => if !ok {
            BackupStage::Failed { error: BackupError::QuiesceJournal }
        } else if facts.containers == 0 {
            BackupStage::Write
        } else {
            BackupStage::Stop { index: 0 }
        },
        BackupStage::Stop { index } => if !ok {
            BackupStage::RestartUnstopped
        } else if index >= facts.containers || index == facts.containers - 1 {
            BackupStage::Write
        } else {
            BackupStage::Stop { index: index + 1 }
        },
        BackupStage::Write => BackupStage::Restart { written: ok },
        BackupStage::RestartUnstopped => match happened {
            BackupHappened::Succeeded => BackupStage::Failed { error: BackupError::StopFailed },
            BackupHappened::SomeFailed => BackupStage::Responded {
                ending: BackupEnding::StopFailed,
            },
            BackupHappened::Failed => BackupStage::Failed { error: BackupError::Restart },
        },
        BackupStage::Restart { written } => match happened {
            BackupHappened::Failed => BackupStage::Failed { error: BackupError::Restart },
            _ => if written {
                BackupStage::Responded { ending: BackupEnding::Written }
            } else if ok {
                BackupStage::Failed { error: BackupError::WriteFailed }
            } else {
                BackupStage::Responded { ending: BackupEnding::WriteFailed }
            },
        },
        BackupStage::Failed { error: _ } => stage,
        BackupStage::Responded { ending: _ } => stage,
    }
}

// ---------------------------------------------------------------------------
// The repositories
// ---------------------------------------------------------------------------

/// What one repository stored, over texts.
pub struct RepositoryModel {
    pub complete: bool,
    pub partial: bool,
    pub files: u64,
    pub original_size: u64,
    pub stored_size: u64,
    pub error: Option<Seq<char>>,
}

/// What one repository stored, over texts.
pub open spec fn repository_model(result: VykarBackupRepositoryResult) -> RepositoryModel {
    RepositoryModel {
        complete: result.complete,
        partial: result.partial,
        files: result.files,
        original_size: result.original_size,
        stored_size: result.stored_size,
        error: text::held(result.error),
    }
}

/// A repository that stored nothing.
pub open spec fn nothing_stored(complete: bool, error: Option<Seq<char>>) -> RepositoryModel {
    RepositoryModel {
        complete,
        partial: false,
        files: 0,
        original_size: 0,
        stored_size: 0,
        error,
    }
}

/// What a repository tells that has been written.
#[derive(Clone, Copy, Debug, PartialEq, Eq, Structural)]
pub struct StoredSnapshot {
    pub partial: bool,
    pub files: u64,
    pub original_size: u64,
    pub stored_size: u64,
}

/// How the writing of a repository ended.
#[derive(Clone, Debug, PartialEq, Eq)]
pub enum RepositoryEnd {
    Stored(StoredSnapshot),
    /// It failed.
    Failed(String),
    /// The worker that wrote it broke off.
    Broke(String),
}

/// What one repository stored.
pub fn run_repository_backup(end: &RepositoryEnd) -> (result: VykarBackupRepositoryResult)
    ensures
        repository_model(result) == stored_by(*end),
{
    match end {
        RepositoryEnd::Stored(stored) => VykarBackupRepositoryResult {
            complete: !stored.partial,
            partial: stored.partial,
            files: stored.files,
            original_size: stored.original_size,
            stored_size: stored.stored_size,
            error: None,
        },
        RepositoryEnd::Failed(error) => unstored(false, Some(error.clone())),
        RepositoryEnd::Broke(error) => unstored(
            false,
            Some(text::concat2("Vykar worker failed: ", error.as_str())),
        ),
    }
}

fn unstored(complete: bool, error: Option<String>) -> (result: VykarBackupRepositoryResult)
    ensures
        repository_model(result) == nothing_stored(complete, text::held(error)),
{
    VykarBackupRepositoryResult {
        complete,
        partial: false,
        files: 0,
        original_size: 0,
        stored_size: 0,
        error,
    }
}

/// Why a retry is refused.
#[derive(Clone, Copy, Debug, PartialEq, Eq, Structural)]
pub enum RetryError {
    /// Both repositories are left out.
    Both,
    /// There is no mirror.
    NoMirror,
    /// The backup was cancelled before the mirror was written.
    CancelledBeforeMirror,
}

/// Which repositories are written.
#[derive(Clone, Copy, Debug, PartialEq, Eq, Structural)]
pub struct WritePlan {
    pub write_primary: bool,
    pub write_mirror: bool,
}

/// Which repositories are written: a retry may leave one of two out.
pub fn run_backup_repositories(primary_only: bool, mirror_only: bool, has_mirror: bool) -> (plan: Result<
    WritePlan,
    RetryError,
>)
    ensures
        plan == if primary_only && mirror_only {
            Err(RetryError::Both)
        } else if (primary_only || mirror_only) && !has_mirror {
            Err(RetryError::NoMirror)
        } else {
            Ok(
                WritePlan {
                    write_primary: !mirror_only,
                    write_mirror: has_mirror && !primary_only,
                },
            )
        },
{
    if primary_only && mirror_only {
        return Err(RetryError::Both);
    }
    if (primary_only || mirror_only) && !has_mirror {
        return Err(RetryError::NoMirror);
    }
    Ok(WritePlan { write_primary: !mirror_only, write_mirror: has_mirror && !primary_only })
}

/// What a repository tells that is left out of a retry: it is complete already.
pub fn left_out() -> (result: VykarBackupRepositoryResult)
    ensures
        repository_model(result) == nothing_stored(true, None),
{
    unstored(true, None)
}

/// What is done next for the repositories of a backup.
#[derive(Clone, Copy, Debug, PartialEq, Eq, Structural)]
pub enum RepositoryStep {
    WritePrimary,
    /// See whether the backup was cancelled.
    CheckCancelled,
    WriteMirror,
    Done,
}

/// What is done first for the repositories.
pub fn first_repository_step(plan: WritePlan) -> (step: RepositoryStep)
    ensures
        step == if plan.write_primary {
            RepositoryStep::WritePrimary
        } else {
            RepositoryStep::CheckCancelled
        },
{
    if plan.write_primary {
        RepositoryStep::WritePrimary
    } else {
        RepositoryStep::CheckCancelled
    }
}

/// What is done after a step for the repositories. The mirror is not written once
/// the backup was cancelled.
pub fn next_repository_step(step: RepositoryStep, plan: WritePlan, cancelled: bool) -> (next:
    RepositoryStep)
    ensures
        next == match step {
            RepositoryStep::WritePrimary => RepositoryStep::CheckCancelled,
            RepositoryStep::CheckCancelled => if !cancelled && plan.write_mirror {
                RepositoryStep::WriteMirror
            } else {
                RepositoryStep::Done
            },
            RepositoryStep::WriteMirror => RepositoryStep::Done,
            RepositoryStep::Done => RepositoryStep::Done,
        },
{
    match step {
        RepositoryStep::WritePrimary => RepositoryStep::CheckCancelled,
        RepositoryStep::CheckCancelled => if !cancelled && plan.write_mirror {
            RepositoryStep::WriteMirror
        } else {
            RepositoryStep::Done
        },
        RepositoryStep::WriteMirror => RepositoryStep::Done,
        RepositoryStep::Done => RepositoryStep::Done,
    }
}

/// What a repository stored, by how its writing ended.
pub open spec fn stored_by(end: RepositoryEnd) -> RepositoryModel {
    match end {
        RepositoryEnd::Stored(stored) => RepositoryModel {
            complete: !stored.partial,
            partial: stored.partial,
            files: stored.files,
            original_size: stored.original_size,
            stored_size: stored.stored_size,
            error: None,
        },
        RepositoryEnd::Failed(error) => nothing_stored(false, Some(error@)),
        RepositoryEnd::Broke(error) => nothing_stored(
            false,
            Some("Vykar worker failed: "@ + error@),
        ),
    }
}

/// What a repository tells; one that was not written has been left out.
pub open spec fn told_by(end: Option<RepositoryEnd>) -> RepositoryModel {
    match end {
        Some(written) => stored_by(written),
        None => nothing_stored(true, None),
    }
}

/// What the repositories of a backup tell: the primary one, and the mirror where
/// there is one. `primary` and `mirror` are how the writing ended of those that
/// were written; nothing is told once the backup was cancelled before the mirror.
pub fn repository_results(
    plan: WritePlan,
    has_mirror: bool,
    primary: &Option<RepositoryEnd>,
    cancelled: bool,
    mirror: &Option<RepositoryEnd>,
) -> (results: Result<
    (VykarBackupRepositoryResult, Option<VykarBackupRepositoryResult>),
    RetryError,
>)
    requires
        plan.write_primary == (primary is Some),
        !cancelled ==> plan.write_mirror == (mirror is Some),
        plan.write_mirror ==> has_mirror,
    ensures
        if cancelled {
            results matches Err(error) && error == RetryError::CancelledBeforeMirror
        } else {
            &&& results matches Ok((first, second))
            &&& repository_model(first) == told_by(*primary)
            &&& match second {
                Some(told) => has_mirror && repository_model(told) == told_by(*mirror),
                None => !has_mirror,
            }
        },
{
    if cancelled {
        return Err(RetryError::CancelledBeforeMirror);
    }
    let first = match primary {
        Some(end) => run_repository_backup(end),
        None => left_out(),
    };
    let second = match mirror {
        Some(end) => Some(run_repository_backup(end)),
        None => if has_mirror {
            Some(left_out())
        } else {
            None
        },
    };
    Ok((first, second))
}

// ---------------------------------------------------------------------------
// Responses
// ---------------------------------------------------------------------------

/// A response over texts.
pub struct BackupModel {
    pub excluded: Option<Seq<char>>,
    pub primary: RepositoryModel,
    pub mirror: Option<RepositoryModel>,
    pub stopped: Seq<Seq<char>>,
    pub restarted: Seq<Seq<char>>,
    pub restart_errors: Seq<Seq<char>>,
}

/// A response over texts.
pub open spec fn backup_model(response: RunVykarBackupResponse) -> BackupModel {
    BackupModel {
        excluded: text::held(response.excluded),
        primary: repository_model(response.primary),
        mirror: match response.mirror {
            Some(result) => Some(repository_model(result)),
            None => None,
        },
        stopped: texts(response.stopped_containers@),
        restarted: texts(response.restarted_containers@),
        restart_errors: texts(response.restart_errors@),
    }
}

/// The response of a backup that wrote nothing while containers stay stopped.
pub fn respond_unwritten(
    ending: BackupEnding,
    error: &str,
    stopped: Vec<String>,
    restarted: Vec<String>,
    restart_errors: Vec<String>,
) -> (response: RunVykarBackupResponse)
    ensures
        backup_model(response) == (BackupModel {
            excluded: None,
            primary: nothing_stored(
                false,
                Some(
                    if ending == BackupEnding::StopFailed {
                        "Failed to quiesce every affected container: "@ + error@
                    } else {
                        error@
                    },
                ),
            ),
            mirror: None,
            stopped: texts(stopped@),
            restarted: texts(restarted@),
            restart_errors: texts(restart_errors@),
        }),
{
    let message = match ending {
        BackupEnding::StopFailed => text::concat2(
            "Failed to quiesce every affected container: ",
            error,
        ),
        _ => error.to_owned(),
    };
    RunVykarBackupResponse {
        excluded: None,
        primary: unstored(false, Some(message)),
        mirror: None,
        stopped_containers: stopped,
        restarted_containers: restarted,
        restart_errors,
    }
}

/// The response of a backup whose repositories were written.
pub fn respond_written(
    primary: VykarBackupRepositoryResult,
    mirror: Option<VykarBackupRepositoryResult>,
    stopped: Vec<String>,
    restarted: Vec<String>,
    restart_errors: Vec<String>,
) -> (response: RunVykarBackupResponse)
    ensures
        response.excluded is None,
        response.primary == primary,
        response.mirror == mirror,
        response.stopped_containers == stopped,
        response.restarted_containers == restarted,
        response.restart_errors == restart_errors,
{
    RunVykarBackupResponse {
        excluded: None,
        primary,
        mirror,
        stopped_containers: stopped,
        restarted_containers: restarted,
        restart_errors,
    }
}

// ---------------------------------------------------------------------------
// Batches
// ---------------------------------------------------------------------------

/// What was found for a task of a batch.
#[derive(Clone, Debug, PartialEq, Eq)]
pub enum Discovery {
    /// What is backed up, and the containers that use it.
    Found { paths: Vec<String>, running: Vec<String> },
    /// What is asked for is not backed up on purpose.
    Excluded(String),
    /// It could not be found.
    Failed(String),
}

/// What was found for the tasks of a batch.
#[derive(Clone, Debug, PartialEq, Eq)]
pub struct BatchPlan {
    /// The tasks that are carried out.
    pub found: Vec<usize>,
    /// The results of the tasks that are left out on purpose.
    pub results: Vec<VykarBackupTaskResult>,
    /// The tasks for which nothing was found.
    pub discovery_errors: Vec<String>,
    /// The containers that use what is backed up.
    pub running: Vec<String>,
}

/// The tasks for which something was found.
pub open spec fn found_tasks(discoveries: Seq<Discovery>) -> Seq<usize>
    decreases discoveries.len(),
{
    if discoveries.len() == 0 {
        Seq::empty()
    } else if discoveries.last() is Found {
        found_tasks(discoveries.drop_last()).push((discoveries.len() - 1) as usize)
    } else {
        found_tasks(discoveries.drop_last())
    }
}

/// The tasks that are left out on purpose, each with the reason.
pub open spec fn excluded_tasks(labels: Seq<String>, discoveries: Seq<Discovery>) -> Seq<
    (Seq<char>, Seq<char>),
>
    decreases discoveries.len(),
{
    if discoveries.len() == 0 {
        Seq::empty()
    } else {
        let before = excluded_tasks(labels, discoveries.drop_last());
        match discoveries.last() {
            Discovery::Excluded(reason) => before.push(
                (labels[discoveries.len() - 1]@, reason@),
            ),
            _ => before,
        }
    }
}

/// The errors of the tasks for which nothing was found.
pub open spec fn failed_tasks(labels: Seq<String>, discoveries: Seq<Discovery>) -> Seq<Seq<char>>
    decreases discoveries.len(),
{
    if discoveries.len() == 0 {
        Seq::empty()
    } else {
        let before = failed_tasks(labels, discoveries.drop_last());
        match discoveries.last() {
            Discovery::Failed(error) => before.push(
                labels[discoveries.len() - 1]@ + ": "@ + error@,
            ),
            _ => before,
        }
    }
}

/// The containers that use what was found.
pub open spec fn running_for(discoveries: Seq<Discovery>) -> Seq<Seq<char>>
    decreases discoveries.len(),
{
    if discoveries.len() == 0 {
        Seq::empty()
    } else {
        let before = running_for(discoveries.drop_last());
        match discoveries.last() {
            Discovery::Found { paths, running } => before + texts(running@),
            _ => before,
        }
    }
}

/// The result of a task that is left out on purpose.
pub open spec fn is_exclusion(result: VykarBackupTaskResult, label: Seq<char>, reason: Seq<char>) -> bool {
    &&& result.source_label@ == label
    &&& backup_model(result.result) == (BackupModel {
        excluded: Some(reason),
        primary: nothing_stored(false, None),
        mirror: None,
        stopped: Seq::empty(),
        restarted: Seq::empty(),
        restart_errors: Seq::empty(),
    })
}

fn exclude(label: &str, reason: &str) -> (result: VykarBackupTaskResult)
    ensures
        is_exclusion(result, label@, reason@),
{
    let result = VykarBackupTaskResult {
        source_label: label.to_owned(),
        result: RunVykarBackupResponse {
            excluded: Some(reason.to_owned()),
            primary: unstored(false, None),
            mirror: None,
            stopped_containers: Vec::new(),
            restarted_containers: Vec::new(),
            restart_errors: Vec::new(),
        },
    };
    proof {
        let none = Seq::<Seq<char>>::empty();
        assert(texts(result.result.stopped_containers@) =~= none);
        assert(texts(result.result.restarted_containers@) =~= none);
        assert(texts(result.result.restart_errors@) =~= none);
    }
    result
}

/// Sorts out what was found for the tasks of a batch. One task that fails or is
/// left out does not keep the others from being carried out.
pub fn plan_batch(labels: &Vec<String>, discoveries: &Vec<Discovery>) -> (plan: BatchPlan)
    requires
        labels@.len() == discoveries@.len(),
    ensures
        plan.found@ == found_tasks(discoveries@),
        plan.results@.len() == excluded_tasks(labels@, discoveries@).len(),
        forall|i: int|
            0 <= i < plan.results@.len() ==> is_exclusion(
                #[trigger] plan.results@[i],
                excluded_tasks(labels@, discoveries@)[i].0,
                excluded_tasks(labels@, discoveries@)[i].1,
            ),
        texts(plan.discovery_errors@) == failed_tasks(labels@, discoveries@),
        texts(plan.running@) == in_order(running_for(discoveries@)),
{
    let mut found: Vec<usize> = Vec::new();
    let mut results: Vec<VykarBackupTaskResult> = Vec::new();
    let mut discovery_errors: Vec<String> = Vec::new();
    let mut running: Vec<String> = Vec::new();
    proof {
        assert(discoveries@.take(0) =~= Seq::<Discovery>::empty());
        assert(texts(discovery_errors@) =~= Seq::<Seq<char>>::empty());
        assert(texts(running@) =~= Seq::<Seq<char>>::empty());
    }
    for i in 0..discoveries.len()
        invariant
            labels@.len() == discoveries@.len(),
            found@ == found_tasks(discoveries@.take(i as int)),
            results@.len() == excluded_tasks(labels@, discoveries@.take(i as int)).len(),
            forall|k: int|
                0 <= k < results@.len() ==> is_exclusion(
                    #[trigger] results@[k],
                    excluded_tasks(labels@, discoveries@.take(i as int))[k].0,
                    excluded_tasks(labels@, discoveries@.take(i as int))[k].1,
                ),
            texts(discovery_errors@) == failed_tasks(labels@, discoveries@.take(i as int)),
            texts(running@) == running_for(discoveries@.take(i as int)),
    {
        let ghost errors = texts(discovery_errors@);
        let ghost users = texts(running@);
        assert(discoveries@.take(i + 1).drop_last() =~= discoveries@.take(i as int));
        assert(discoveries@.take(i + 1).last() == discoveries@[i as int]);
        match &discoveries[i] {
            Discovery::Found { paths: _, running: more } => {
                found.push(i);
                let mut names = text::clone_texts(more);
                running.append(&mut names);
                assert(texts(running@) =~= users + texts(more@));
            },
            Discovery::Excluded(reason) => {
                results.push(exclude(labels[i].as_str(), reason.as_str()));
            },
            Discovery::Failed(error) => {
                let message = text::concat3(labels[i].as_str(), ": ", error.as_str());
                discovery_errors.push(message);
                assert(texts(discovery_errors@) =~= errors.push(message@));
            },
        }
    }
    assert(discoveries@.take(discoveries@.len() as int) =~= discoveries@);
    BatchPlan { found, results, discovery_errors, running: text::sorted_unique(&running) }
}

/// The response of a batch for which a container could not be stopped while not
/// all run again.
pub fn respond_unstopped_batch(error: &str, restart_errors: Vec<String>) -> (response:
    RunVykarBackupBatchResponse)
    ensures
        response.results@.len() == 0,
        texts(response.discovery_errors@) == seq![
            "Failed to quiesce every affected container on the node: "@ + error@,
        ],
        response.restart_errors == restart_errors,
{
    let mut discovery_errors: Vec<String> = Vec::new();
    discovery_errors.push(
        text::concat2("Failed to quiesce every affected container on the node: ", error),
    );
    assert(texts(discovery_errors@) =~= seq![
        "Failed to quiesce every affected container on the node: "@ + error@,
    ]);
    RunVykarBackupBatchResponse { results: Vec::new(), discovery_errors, restart_errors }
}

/// The task of a batch that is carried out next, when so many have been; a
/// cancellation ends the batch.
pub fn next_task(plan: &BatchPlan, done: usize, cancelled: bool) -> (task: Option<usize>)
    ensures
        task == if cancelled || done >= plan.found@.len() {
            None
        } else {
            Some(plan.found@[done as int])
        },
{
    if cancelled || done >= plan.found.len() {
        None
    } else {
        Some(plan.found[done])
    }
}

/// How a task of a batch ended.
#[derive(Clone, Debug, PartialEq, Eq)]
pub enum TaskEnd {
    /// Its repositories were written.
    Written {
        primary: VykarBackupRepositoryResult,
        mirror: Option<VykarBackupRepositoryResult>,
    },
    /// It failed.
    Failed(String),
}

/// A task that was carried out: its label, and what the repositories tell.
pub struct WrittenTask {
    pub label: Seq<char>,
    pub primary: VykarBackupRepositoryResult,
    pub mirror: Option<VykarBackupRepositoryResult>,
}

/// The tasks whose repositories were written.
pub open spec fn written_tasks(labels: Seq<String>, found: Seq<usize>, ends: Seq<TaskEnd>) -> Seq<
    WrittenTask,
>
    decreases ends.len(),
{
    if ends.len() == 0 {
        Seq::empty()
    } else {
        let before = written_tasks(labels, found, ends.drop_last());
        match ends.last() {
            TaskEnd::Written { primary, mirror } => before.push(
                WrittenTask { label: labels[found[ends.len() - 1] as int]@, primary, mirror },
            ),
            TaskEnd::Failed(_) => before,
        }
    }
}

/// The errors of the tasks that failed.
pub open spec fn unwritten_tasks(labels: Seq<String>, found: Seq<usize>, ends: Seq<TaskEnd>) -> Seq<
    Seq<char>,
>
    decreases ends.len(),
{
    if ends.len() == 0 {
        Seq::empty()
    } else {
        let before = unwritten_tasks(labels, found, ends.drop_last());
        match ends.last() {
            TaskEnd::Written { .. } => before,
            TaskEnd::Failed(error) => before.push(
                labels[found[ends.len() - 1] as int]@ + ": "@ + error@,
            ),
        }
    }
}

/// The result tells of the task that was carried out. The containers are those of
/// the batch, and not told with the task.
pub open spec fn tells_of_task(result: VykarBackupTaskResult, task: WrittenTask) -> bool {
    &&& result.source_label@ == task.label
    &&& result.result.excluded is None
    &&& result.result.primary == task.primary
    &&& result.result.mirror == task.mirror
    &&& result.result.stopped_containers@.len() == 0
    &&& result.result.restarted_containers@.len() == 0
    &&& result.result.restart_errors@.len() == 0
}

/// The results tell of the tasks that were carried out, behind those that were
/// known before.
pub open spec fn tell_of_tasks(
    results: Seq<VykarBackupTaskResult>,
    known: Seq<VykarBackupTaskResult>,
    written: Seq<WrittenTask>,
) -> bool {
    &&& results.len() == known.len() + written.len()
    &&& results.take(known.len() as int) == known
    &&& forall|i: int|
        known.len() <= i < results.len() ==> tells_of_task(
            #[trigger] results[i],
            written[i - known.len()],
        )
}

/// The response of a batch: behind what was sorted out before come the tasks that
/// were carried out, in order, until all were or the batch was cancelled.
pub fn respond_batch(
    plan: BatchPlan,
    labels: &Vec<String>,
    ends: Vec<TaskEnd>,
    restart_errors: Vec<String>,
) -> (response: RunVykarBackupBatchResponse)
    requires
        ends@.len() <= plan.found@.len(),
        forall|i: int| 0 <= i < plan.found@.len() ==> #[trigger] plan.found@[i] < labels@.len(),
    ensures
        tell_of_tasks(
            response.results@,
            plan.results@,
            written_tasks(labels@, plan.found@, ends@),
        ),
        texts(response.discovery_errors@) == texts(plan.discovery_errors@) + unwritten_tasks(
            labels@,
            plan.found@,
            ends@,
        ),
        response.restart_errors == restart_errors,
{
    let ghost found = plan.found@;
    let ghost before = plan.results@;
    let ghost known = texts(plan.discovery_errors@);
    let tasks = plan.found;
    let mut results = plan.results;
    let mut discovery_errors = plan.discovery_errors;
    proof {
        assert(ends@.take(0) =~= Seq::<TaskEnd>::empty());
        assert(known + Seq::<Seq<char>>::empty() =~= known);
        assert(results@.take(before.len() as int) =~= before);
    }
    for i in 0..ends.len()
        invariant
            found == tasks@,
            ends@.len() <= found.len(),
            forall|k: int| 0 <= k < found.len() ==> #[trigger] found[k] < labels@.len(),
            tell_of_tasks(
                results@,
                before,
                written_tasks(labels@, found, ends@.take(i as int)),
            ),
            texts(discovery_errors@) == known + unwritten_tasks(
                labels@,
                found,
                ends@.take(i as int),
            ),
    {
        let ghost old_results = results@;
        let ghost errors = texts(discovery_errors@);
        let ghost written = written_tasks(labels@, found, ends@.take(i as int));
        let ghost unwritten = unwritten_tasks(labels@, found, ends@.take(i as int));
        assert(ends@.take(i + 1).drop_last() =~= ends@.take(i as int));
        assert(ends@.take(i + 1).last() == ends@[i as int]);
        assert(found[i as int] < labels@.len());
        let label = &labels[tasks[i]];
        match &ends[i] {
            TaskEnd::Written { primary, mirror } => {
                let result = VykarBackupTaskResult {
                    source_label: label.clone(),
                    result: respond_written(
                        copy_result(primary),
                        match mirror {
                            Some(told) => Some(copy_result(told)),
                            None => None,
                        },
                        Vec::new(),
                        Vec::new(),
                        Vec::new(),
                    ),
                };
                results.push(result);
                proof {
                    let now = written_tasks(labels@, found, ends@.take(i + 1));
                    assert(now == written.push(
                        WrittenTask {
                            label: labels@[found[i as int] as int]@,
                            primary: *primary,
                            mirror: *mirror,
                        },
                    ));
                    assert(results@.take(before.len() as int) =~= old_results.take(
                        before.len() as int,
                    ));
                    assert(tells_of_task(result, now.last()));
                    assert forall|k: int| before.len() <= k < results@.len() implies tells_of_task(
                        #[trigger] results@[k],
                        now[k - before.len()],
                    ) by {
                        if k < old_results.len() {
                            assert(results@[k] == old_results[k]);
                        }
                    }
                }
            },
            TaskEnd::Failed(error) => {
                let message = text::concat3(label.as_str(), ": ", error.as_str());
                discovery_errors.push(message);
                assert(texts(discovery_errors@) =~= errors.push(message@));
                assert(errors.push(message@) =~= known + unwritten.push(message@));
            },
        }
    }
    assert(ends@.take(ends@.len() as int) =~= ends@);
    RunVykarBackupBatchResponse { results, discovery_errors, restart_errors }
}

fn copy_result(result: &VykarBackupRepositoryResult) -> (copy: VykarBackupRepositoryResult)
    ensures
        copy == *result,
{
    VykarBackupRepositoryResult {
        complete: result.complete,
        partial: result.partial,
        files: result.files,
        original_size: result.original_size,
        stored_size: result.stored_size,
        error: match &result.error {
            Some(error) => Some(error.clone()),
            None => None,
        },
    }
}

// ---------------------------------------------------------------------------
// Manifests
// ---------------------------------------------------------------------------

/// What a backup tells of itself.
#[derive(Clone, Debug, PartialEq, Eq)]
pub struct KomodoBackupManifest {
    pub schema: String,
    pub version: u32,
    pub run_id: String,
    pub source_label: String,
    pub hostname: String,
    pub komodo_version: String,
    pub paths: Vec<String>,
    pub path_aliases: Vec<(String, String)>,
    /// The target, as JSON text.
    pub target: Vec<u8>,
    pub configuration_sha256: String,
    pub paths_sha256: String,
    pub path_aliases_sha256: String,
}

/// Which backup a manifest tells of.
#[derive(Clone, Debug, PartialEq, Eq)]
pub struct BackupIdentity {
    pub run_id: String,
    pub source_label: String,
    pub hostname: String,
    pub komodo_version: String,
}

/// The manifest tells of the backup.
pub open spec fn tells_of_backup(
    manifest: KomodoBackupManifest,
    identity: BackupIdentity,
    target: Vec<u8>,
    paths: Vec<String>,
    path_aliases: Vec<(String, String)>,
) -> bool {
    &&& manifest.schema@ == "komodo.backup-manifest/v1"@
    &&& manifest.version == 1
    &&& manifest.run_id == identity.run_id
    &&& manifest.source_label == identity.source_label
    &&& manifest.hostname == identity.hostname
    &&& manifest.komodo_version == identity.komodo_version
    &&& manifest.paths == paths
    &&& manifest.path_aliases == path_aliases
    &&& manifest.target == target
    &&& manifest.configuration_sha256@ == revision::digest_text(target@)
}

/// Why there is no manifest.
#[derive(Clone, Copy, Debug, PartialEq, Eq, Structural)]
pub enum ManifestError {
    /// The paths have no JSON text.
    Paths,
    /// The aliases have no JSON text.
    Aliases,
}

/// What a backup tells of itself, from the JSON texts of its target, its paths
/// and their aliases.
pub fn describe_backup(
    identity: BackupIdentity,
    target: Vec<u8>,
    paths: Vec<String>,
    paths_json: &Vec<u8>,
    path_aliases: Vec<(String, String)>,
    path_aliases_json: &Vec<u8>,
) -> (manifest: KomodoBackupManifest)
    ensures
        tells_of_backup(manifest, identity, target, paths, path_aliases),
        manifest.paths_sha256@ == revision::digest_text(paths_json@),
        manifest.path_aliases_sha256@ == revision::digest_text(path_aliases_json@),
{
    let configuration = outside::sha256(&target);
    let paths_digest = outside::sha256(paths_json);
    let aliases_digest = outside::sha256(path_aliases_json);
    KomodoBackupManifest {
        schema: "komodo.backup-manifest/v1".to_owned(),
        version: 1,
        run_id: identity.run_id,
        source_label: identity.source_label,
        hostname: identity.hostname,
        komodo_version: identity.komodo_version,
        paths,
        path_aliases,
        target,
        configuration_sha256: outside::hex_encode(&configuration),
        paths_sha256: outside::hex_encode(&paths_digest),
        path_aliases_sha256: outside::hex_encode(&aliases_digest),
    }
}

/// What a backup tells of itself, where the target is given as JSON text and the
/// aliases are in order.
pub fn write_manifest(
    identity: BackupIdentity,
    target: Vec<u8>,
    paths: Vec<String>,
    path_aliases: Vec<(String, String)>,
) -> (manifest: Result<KomodoBackupManifest, ManifestError>)
    requires
        text::strictly_sorted(text::keys_of(path_aliases@)),
    ensures
        match (
            outside::json_list_of(texts(paths@)),
            outside::json_map_of(text::map_of(path_aliases@)),
        ) {
            (Some(paths_json), Some(aliases_json)) => {
                &&& manifest matches Ok(told)
                &&& tells_of_backup(told, identity, target, paths, path_aliases)
                &&& told.paths_sha256@ == revision::digest_text(paths_json)
                &&& told.path_aliases_sha256@ == revision::digest_text(aliases_json)
            },
            (None, _) => manifest matches Err(error) && error == ManifestError::Paths,
            (Some(_), None) => manifest matches Err(error) && error == ManifestError::Aliases,
        },
{
    let paths_json = match outside::json_list(&paths) {
        Some(json) => json,
        None => {
            return Err(ManifestError::Paths);
        },
    };
    let path_aliases_json = match outside::json_map(&path_aliases) {
        Some(json) => json,
        None => {
            return Err(ManifestError::Aliases);
        },
    };
    Ok(describe_backup(identity, target, paths, &paths_json, path_aliases, &path_aliases_json))
}

// ---------------------------------------------------------------------------
// Directories
// ---------------------------------------------------------------------------

/// The directory with the state of backups and restores.
pub open spec fn internal_storage(stack_dir: Seq<char>) -> Seq<char> {
    path::joined(stack_dir, ".komodo-vykar"@)
}

/// The directory with the state of backups and restores.
pub fn internal_storage_dir(stack_dir: &str) -> (directory: String)
    ensures
        directory@ == internal_storage(stack_dir@),
{
    path::join(stack_dir, ".komodo-vykar")
}

/// The directory with what a repository keeps for a host.
pub fn vykar_cache_dir(stack_dir: &str, hostname: &str) -> (directory: String)
    ensures
        directory@ == path::joined(
            internal_storage(stack_dir@),
            revision::digest_text(encode_utf8(hostname@)),
        ),
{
    let digest = outside::sha256(&revision::bytes_of_text(hostname));
    path::join(internal_storage_dir(stack_dir).as_str(), outside::hex_encode(&digest).as_str())
}

/// The directories with the journals, the receipts and the staged manifests.
#[derive(Clone, Copy, Debug, PartialEq, Eq, Structural)]
pub enum StateDirectory {
    Receipts,
    RestoreJournals,
    StagingJournals,
    QuiesceJournals,
    Manifests,
}

/// The name of a state directory.
pub open spec fn state_directory_name(which: StateDirectory) -> Seq<char> {
    match which {
        StateDirectory::Receipts => "backup-completion-journals"@,
        StateDirectory::RestoreJournals => "restore-journals"@,
        StateDirectory::StagingJournals => "restore-staging-journals"@,
        StateDirectory::QuiesceJournals => "container-quiesce-journals"@,
        StateDirectory::Manifests => "backup-manifests"@,
    }
}

/// Where a state directory is.
pub fn state_directory(stack_dir: &str, which: StateDirectory) -> (directory: String)
    ensures
        directory@ == path::joined(internal_storage(stack_dir@), state_directory_name(which)),
{
    let name = match which {
        StateDirectory::Receipts => "backup-completion-journals",
        StateDirectory::RestoreJournals => "restore-journals",
        StateDirectory::StagingJournals => "restore-staging-journals",
        StateDirectory::QuiesceJournals => "container-quiesce-journals",
        StateDirectory::Manifests => "backup-manifests",
    };
    path::join(internal_storage_dir(stack_dir).as_str(), name)
}

// ---------------------------------------------------------------------------
// Laws
// ---------------------------------------------------------------------------

/// How many steps there can be from a stage to the end.
pub open spec fn backup_steps_left(stage: BackupStage, facts: BackupFacts) -> nat {
    match stage {
        BackupStage::Lock => 7 + facts.containers as nat,
        BackupStage::CheckRecovery => 6 + facts.containers as nat,
        BackupStage::Discover => 5 + facts.containers as nat,
        BackupStage::PersistQuiesce => 4 + facts.containers as nat,
        BackupStage::Stop { index } => if index < facts.containers {
            (3 + facts.containers - index) as nat
        } else {
            3
        },
        BackupStage::Write => 2,
        BackupStage::RestartUnstopped => 1,
        BackupStage::Restart { written } => 1,
        BackupStage::Failed { error } => 0,
        BackupStage::Responded { ending } => 0,
    }
}

/// Every backup comes to an end.
pub proof fn backups_end(stage: BackupStage, facts: BackupFacts, happened: BackupHappened)
    requires
        !backup_is_over(stage),
    ensures
        backup_steps_left(next_backup_stage(stage, facts, happened), facts) < backup_steps_left(
            stage,
            facts,
        ),
{
}

/// Once a container may have been stopped, the backup does not end before the
/// containers were started again, whatever fails.
pub proof fn stopped_containers_are_started_again(
    stage: BackupStage,
    facts: BackupFacts,
    happened: BackupHappened,
)
    requires
        stage is Stop || stage is Write,
    ensures
        !backup_is_over(next_backup_stage(stage, facts, happened)),
        stage is Write || happened != BackupHappened::Succeeded ==> next_backup_stage(
            stage,
            facts,
            happened,
        ) is Restart || next_backup_stage(stage, facts, happened) is RestartUnstopped,
{
}

/// A backup that is told to leave the containers alone stops none.
pub proof fn containers_are_left_alone(
    stage: BackupStage,
    facts: BackupFacts,
    happened: BackupHappened,
)
    requires
        !facts.stop_containers,
        !(stage is PersistQuiesce),
        !(stage is Stop),
    ensures
        !(next_backup_stage(stage, facts, happened) is PersistQuiesce),
        !(next_backup_stage(stage, facts, happened) is Stop),
{
}

/// Every task of a batch is accounted for: it is carried out, left out on
/// purpose, or told to have failed.
pub proof fn every_task_is_accounted_for(labels: Seq<String>, discoveries: Seq<Discovery>)
    ensures
        found_tasks(discoveries).len() + excluded_tasks(labels, discoveries).len() + failed_tasks(
            labels,
            discoveries,
        ).len() == discoveries.len(),
    decreases discoveries.len(),
{
    if discoveries.len() > 0 {
        every_task_is_accounted_for(labels, discoveries.drop_last());
    }
}

/// Every task of a batch that was carried out is accounted for: its repositories
/// tell what they stored, or it is told to have failed.
pub proof fn carried_out_tasks_are_accounted_for(
    labels: Seq<String>,
    found: Seq<usize>,
    ends: Seq<TaskEnd>,
)
    ensures
        written_tasks(labels, found, ends).len() + unwritten_tasks(labels, found, ends).len()
            == ends.len(),
    decreases ends.len(),
{
    if ends.len() > 0 {
        carried_out_tasks_are_accounted_for(labels, found, ends.drop_last());
    }
}

/// The stage that a backup has come to after all that happened.
pub open spec fn backup_stage_after(facts: BackupFacts, happened: Seq<BackupHappened>) -> BackupStage
    decreases happened.len(),
{
    if happened.len() == 0 {
        first_backup_stage(facts)
    } else {
        next_backup_stage(
            backup_stage_after(facts, happened.drop_last()),
            facts,
            happened.last(),
        )
    }
}

/// The step was taken on the way, and this came of it.
pub open spec fn came_of_step(
    facts: BackupFacts,
    happened: Seq<BackupHappened>,
    step: BackupStage,
    what: BackupHappened,
) -> bool {
    exists|i: int|
        0 <= i < happened.len() && #[trigger] backup_stage_after(facts, happened.take(i)) == step
            && happened[i] == what
}

/// The step was taken on the way, with success.
pub open spec fn step_succeeded(
    facts: BackupFacts,
    happened: Seq<BackupHappened>,
    step: BackupStage,
) -> bool {
    came_of_step(facts, happened, step, BackupHappened::Succeeded)
}

/// The step was taken on the way, without success.
pub open spec fn step_failed(
    facts: BackupFacts,
    happened: Seq<BackupHappened>,
    step: BackupStage,
) -> bool {
    ||| came_of_step(facts, happened, step, BackupHappened::Failed)
    ||| came_of_step(facts, happened, step, BackupHappened::SomeFailed)
}

/// A container could not be stopped on the way.
pub open spec fn some_stop_failed(facts: BackupFacts, happened: Seq<BackupHappened>) -> bool {
    exists|k: usize| #[trigger] step_failed(facts, happened, BackupStage::Stop { index: k })
}

proof fn lemma_steps_grow(facts: BackupFacts, happened: Seq<BackupHappened>)
    requires
        happened.len() > 0,
    ensures
        forall|step: BackupStage, what: BackupHappened|
            came_of_step(facts, happened.drop_last(), step, what) ==> #[trigger] came_of_step(
                facts,
                happened,
                step,
                what,
            ),
        came_of_step(
            facts,
            happened,
            backup_stage_after(facts, happened.drop_last()),
            happened.last(),
        ),
{
    let before = happened.drop_last();
    let n = before.len() as int;
    assert(happened.take(n) =~= before);
    assert(backup_stage_after(facts, happened.take(n)) == backup_stage_after(facts, before));
    assert forall|step: BackupStage, what: BackupHappened| came_of_step(
        facts,
        before,
        step,
        what,
    ) implies #[trigger] came_of_step(facts, happened, step, what) by {
        let i = choose|i: int|
            0 <= i < before.len() && #[trigger] backup_stage_after(facts, before.take(i)) == step
                && before[i] == what;
        assert(happened.take(i) =~= before.take(i));
        assert(backup_stage_after(facts, happened.take(i)) == step);
    }
}

spec fn backup_rank(stage: BackupStage) -> int {
    match stage {
        BackupStage::Lock => 0,
        BackupStage::CheckRecovery => 1,
        BackupStage::Discover => 2,
        BackupStage::PersistQuiesce => 3,
        BackupStage::Stop { .. } => 4,
        BackupStage::Write => 5,
        _ => -1,
    }
}

proof fn lemma_way_to_the_repositories(facts: BackupFacts, happened: Seq<BackupHappened>)
    ensures
        ({
            let stage = backup_stage_after(facts, happened);
            let rank = backup_rank(stage);
            &&& rank >= 0 ==> !facts.cancelled
            &&& rank > 0 ==> step_succeeded(facts, happened, BackupStage::Lock)
            &&& rank > 1 ==> step_succeeded(facts, happened, BackupStage::CheckRecovery)
            &&& rank > 2 ==> step_succeeded(facts, happened, BackupStage::Discover)
            &&& rank > 3 && facts.stop_containers ==> step_succeeded(
                facts,
                happened,
                BackupStage::PersistQuiesce,
            )
            &&& rank == 3 || rank == 4 ==> facts.stop_containers
            &&& forall|k: usize|
                (stage matches BackupStage::Stop { index } && k < index) || (rank > 4
                    && facts.stop_containers && k < facts.containers) ==> #[trigger] step_succeeded(
                    facts,
                    happened,
                    BackupStage::Stop { index: k },
                )
            &&& stage matches BackupStage::Stop { index } ==> index < facts.containers
        }),
    decreases happened.len(),
{
    if happened.len() > 0 {
        let before = happened.drop_last();
        let stage = backup_stage_after(facts, happened);
        lemma_way_to_the_repositories(facts, before);
        lemma_steps_grow(facts, happened);
        assert forall|k: usize|
            (stage matches BackupStage::Stop { index } && k < index) || (backup_rank(stage) > 4
                && facts.stop_containers && k
                < facts.containers) implies #[trigger] step_succeeded(
            facts,
            happened,
            BackupStage::Stop { index: k },
        ) by {
            if backup_stage_after(facts, before) != (BackupStage::Stop { index: k }) {
                assert(step_succeeded(facts, before, BackupStage::Stop { index: k }));
            }
        }
    }
}

/// The repositories are written only by a backup that was let in and has found its
/// source, and, where containers are to be stopped, behind the stop of every one of
/// them.
pub proof fn backups_write_behind_stopped_containers(
    facts: BackupFacts,
    happened: Seq<BackupHappened>,
)
    requires
        backup_stage_after(facts, happened) is Write,
    ensures
        !facts.cancelled,
        step_succeeded(facts, happened, BackupStage::Lock),
        step_succeeded(facts, happened, BackupStage::CheckRecovery),
        step_succeeded(facts, happened, BackupStage::Discover),
        facts.stop_containers ==> step_succeeded(facts, happened, BackupStage::PersistQuiesce),
        forall|k: usize|
            facts.stop_containers && k < facts.containers ==> #[trigger] step_succeeded(
                facts,
                happened,
                BackupStage::Stop { index: k },
            ),
{
    lemma_way_to_the_repositories(facts, happened);
}

/// What must have happened for a backup to be at this stage.
pub open spec fn backup_end_was_met(
    facts: BackupFacts,
    happened: Seq<BackupHappened>,
    stage: BackupStage,
) -> bool {
    match stage {
        BackupStage::Failed { error } => match error {
            BackupError::Cancelled => facts.cancelled,
            BackupError::Locked => step_failed(facts, happened, BackupStage::Lock),
            BackupError::PendingRecovery => step_failed(
                facts,
                happened,
                BackupStage::CheckRecovery,
            ),
            BackupError::Discovery => step_failed(facts, happened, BackupStage::Discover),
            BackupError::QuiesceJournal => step_failed(
                facts,
                happened,
                BackupStage::PersistQuiesce,
            ),
            BackupError::StopFailed => some_stop_failed(facts, happened) && step_succeeded(
                facts,
                happened,
                BackupStage::RestartUnstopped,
            ),
            BackupError::WriteFailed => step_failed(facts, happened, BackupStage::Write)
                && step_succeeded(facts, happened, BackupStage::Restart { written: false }),
            BackupError::Restart => {
                ||| came_of_step(
                    facts,
                    happened,
                    BackupStage::RestartUnstopped,
                    BackupHappened::Failed,
                )
                ||| came_of_step(
                    facts,
                    happened,
                    BackupStage::Restart { written: true },
                    BackupHappened::Failed,
                )
                ||| came_of_step(
                    facts,
                    happened,
                    BackupStage::Restart { written: false },
                    BackupHappened::Failed,
                )
            },
        },
        BackupStage::Responded { ending } => match ending {
            BackupEnding::StopFailed => some_stop_failed(facts, happened) && came_of_step(
                facts,
                happened,
                BackupStage::RestartUnstopped,
                BackupHappened::SomeFailed,
            ),
            BackupEnding::WriteFailed => step_failed(facts, happened, BackupStage::Write)
                && came_of_step(
                facts,
                happened,
                BackupStage::Restart { written: false },
                BackupHappened::SomeFailed,
            ),
            BackupEnding::Written => step_succeeded(facts, happened, BackupStage::Write) && (
            step_succeeded(facts, happened, BackupStage::Restart { written: true })
                || came_of_step(
                facts,
                happened,
                BackupStage::Restart { written: true },
                BackupHappened::SomeFailed,
            )),
        },
        BackupStage::RestartUnstopped => some_stop_failed(facts, happened),
        BackupStage::Restart { written } => if written {
            step_succeeded(facts, happened, BackupStage::Write)
        } else {
            step_failed(facts, happened, BackupStage::Write)
        },
        _ => true,
    }
}

/// A backup is answered with what really came about: it is told to be written only
/// if it was, it fails for a step that failed, and it does not end before the
/// containers that it stopped were to be started again.
pub proof fn backups_tell_how_they_ended(facts: BackupFacts, happened: Seq<BackupHappened>)
    ensures
        backup_end_was_met(facts, happened, backup_stage_after(facts, happened)),
    decreases happened.len(),
{
    if happened.len() > 0 {
        let before = happened.drop_last();
        let step = backup_stage_after(facts, before);
        backups_tell_how_they_ended(facts, before);
        lemma_steps_grow(facts, happened);
        if some_stop_failed(facts, before) {
            let k = choose|k: usize| #[trigger]
                step_failed(facts, before, BackupStage::Stop { index: k });
            assert(step_failed(facts, happened, BackupStage::Stop { index: k }));
        }
        match step {
            BackupStage::Stop { index } => {
                assert(happened.last() != BackupHappened::Succeeded ==> step_failed(
                    facts,
                    happened,
                    BackupStage::Stop { index },
                ));
            },
            _ => {},
        }
    }
}

/// Nothing but success, so many times.
pub open spec fn nothing_failed(count: nat) -> Seq<BackupHappened> {
    Seq::new(count, |i: int| BackupHappened::Succeeded)
}

proof fn lemma_nothing_failed(facts: BackupFacts, count: nat)
    requires
        count > 0,
    ensures
        backup_stage_after(facts, nothing_failed(count)) == next_backup_stage(
            backup_stage_after(facts, nothing_failed((count - 1) as nat)),
            facts,
            BackupHappened::Succeeded,
        ),
{
    assert(nothing_failed(count).drop_last() =~= nothing_failed((count - 1) as nat));
}

proof fn lemma_every_stop(facts: BackupFacts, before: nat, k: nat)
    requires
        backup_stage_after(facts, nothing_failed(before)) is PersistQuiesce,
        k <= facts.containers,
    ensures
        backup_stage_after(facts, nothing_failed(before + 1 + k)) == if k == facts.containers {
            BackupStage::Write
        } else {
            BackupStage::Stop { index: k as usize }
        },
    decreases k,
{
    lemma_nothing_failed(facts, before + 1 + k);
    if k > 0 {
        lemma_every_stop(facts, before, (k - 1) as nat);
    }
}

/// A backup whose steps all succeed writes its repositories, and is told to have
/// written them.
pub proof fn undisturbed_backups_are_written(facts: BackupFacts)
    requires
        !facts.cancelled,
    ensures
        ({
            let way = 3 + if facts.stop_containers {
                1 + facts.containers as nat
            } else {
                0nat
            };
            &&& backup_stage_after(facts, nothing_failed(way)) == BackupStage::Write
            &&& backup_stage_after(facts, nothing_failed(way + 2)) == BackupStage::Responded {
                ending: BackupEnding::Written,
            }
        }),
{
    let way = 3 + if facts.stop_containers {
        1 + facts.containers as nat
    } else {
        0nat
    };
    assert(nothing_failed(0).len() == 0);
    lemma_nothing_failed(facts, 1);
    lemma_nothing_failed(facts, 2);
    lemma_nothing_failed(facts, 3);
    if facts.stop_containers {
        lemma_every_stop(facts, 3, facts.containers as nat);
    }
    lemma_nothing_failed(facts, way + 1);
    lemma_nothing_failed(facts, way + 2);
}

/// Just those tasks of a batch are carried out for which something was found, each
/// once and in their order.
pub proof fn found_tasks_are_carried_out(discoveries: Seq<Discovery>, task: usize)
    requires
        discoveries.len() <= usize::MAX,
    ensures
        found_tasks(discoveries).contains(task) <==> task < discoveries.len()
            && discoveries[task as int] is Found,
        forall|i: int, j: int|
            0 <= i < j < found_tasks(discoveries).len() ==> #[trigger] found_tasks(discoveries)[i]
                < #[trigger] found_tasks(discoveries)[j],
        forall|i: int|
            0 <= i < found_tasks(discoveries).len() ==> #[trigger] found_tasks(discoveries)[i]
                < discoveries.len(),
    decreases discoveries.len(),
{
    let all = found_tasks(discoveries);
    if discoveries.len() > 0 {
        let rest = discoveries.drop_last();
        let before = found_tasks(rest);
        let n = rest.len() as int;
        found_tasks_are_carried_out(rest, task);
        if discoveries.last() is Found {
            assert(all =~= before.push(n as usize));
            if before.contains(task) {
                let k = before.index_of(task);
                assert(all[k] == task);
            }
            if task == n {
                assert(all[before.len() as int] == task);
            }
            if all.contains(task) && task != n {
                let k = all.index_of(task);
                assert(before[k] == task);
            }
        }
    }
}

/// Every task that is left out on purpose is told under its own label, with the
/// reason.
pub proof fn exclusions_are_told(labels: Seq<String>, discoveries: Seq<Discovery>, task: int)
    requires
        0 <= task < discoveries.len(),
        discoveries[task] is Excluded,
    ensures
        excluded_tasks(labels, discoveries).contains(
            (labels[task]@, discoveries[task]->Excluded_0@),
        ),
    decreases discoveries.len(),
{
    let all = excluded_tasks(labels, discoveries);
    let rest = discoveries.drop_last();
    let before = excluded_tasks(labels, rest);
    let told = (labels[task]@, discoveries[task]->Excluded_0@);
    if task < rest.len() {
        exclusions_are_told(labels, rest, task);
        let k = before.index_of(told);
        assert(all[k] == told);
    } else {
        assert(all[before.len() as int] == told);
    }
}

/// Every task for which nothing was found is told under its own label, with the
/// error.
pub proof fn failed_discoveries_are_told(
    labels: Seq<String>,
    discoveries: Seq<Discovery>,
    task: int,
)
    requires
        0 <= task < discoveries.len(),
        discoveries[task] is Failed,
    ensures
        failed_tasks(labels, discoveries).contains(
            labels[task]@ + ": "@ + discoveries[task]->Failed_0@,
        ),
    decreases discoveries.len(),
{
    let all = failed_tasks(labels, discoveries);
    let rest = discoveries.drop_last();
    let before = failed_tasks(labels, rest);
    let told = labels[task]@ + ": "@ + discoveries[task]->Failed_0@;
    if task < rest.len() {
        failed_discoveries_are_told(labels, rest, task);
        let k = before.index_of(told);
        assert(all[k] == told);
    } else {
        assert(all[before.len() as int] == told);
    }
}

/// The containers of a batch are those of all its tasks for which something was
/// found, and no others.
pub proof fn batches_stop_the_containers_of_every_task(
    discoveries: Seq<Discovery>,
    name: Seq<char>,
)
    ensures
        running_for(discoveries).contains(name) <==> exists|task: int, k: int|
            0 <= task < discoveries.len() && discoveries[task] is Found && 0 <= k
                < discoveries[task]->running@.len() && (
            #[trigger] discoveries[task]->running@[k])@ == name,
    decreases discoveries.len(),
{
    let all = running_for(discoveries);
    if discoveries.len() > 0 {
        let rest = discoveries.drop_last();
        let before = running_for(rest);
        let n = rest.len() as int;
        let last = discoveries[n];
        batches_stop_the_containers_of_every_task(rest, name);
        if before.contains(name) {
            let k = before.index_of(name);
            assert(all[k] == name);
            let (task, k) = choose|task: int, k: int|
                0 <= task < rest.len() && rest[task] is Found && 0 <= k
                    < rest[task]->running@.len() && (#[trigger] rest[task]->running@[k])@ == name;
            assert(discoveries[task] == rest[task]);
            assert(discoveries[task]->running@[k]@ == name);
        } else if all.contains(name) {
            let k = all.index_of(name);
            if k < before.len() {
                assert(before[k] == name);
            }
            assert(texts(last->running@)[k - before.len()] == name);
            assert(discoveries[n]->running@[k - before.len()]@ == name);
        }
        if exists|task: int, k: int|
            0 <= task < discoveries.len() && discoveries[task] is Found && 0 <= k
                < discoveries[task]->running@.len() && (
            #[trigger] discoveries[task]->running@[k])@ == name {
            let (task, k) = choose|task: int, k: int|
                0 <= task < discoveries.len() && discoveries[task] is Found && 0 <= k
                    < discoveries[task]->running@.len() && (
                #[trigger] discoveries[task]->running@[k])@ == name;
            if task < n {
                assert(rest[task] == discoveries[task]);
                assert(rest[task]->running@[k]@ == name);
            } else {
                assert(texts(last->running@)[k] == name);
                assert(all[before.len() + k] == name);
            }
        }
    }
}

/// Every task that was carried out is told under its own label: with what its
/// repositories stored, or with its error.
pub proof fn carried_out_tasks_are_told(
    labels: Seq<String>,
    found: Seq<usize>,
    ends: Seq<TaskEnd>,
    i: int,
)
    requires
        0 <= i < ends.len(),
    ensures
        match ends[i] {
            TaskEnd::Written { primary, mirror } => written_tasks(labels, found, ends).contains(
                WrittenTask { label: labels[found[i] as int]@, primary, mirror },
            ),
            TaskEnd::Failed(error) => unwritten_tasks(labels, found, ends).contains(
                labels[found[i] as int]@ + ": "@ + error@,
            ),
        },
    decreases ends.len(),
{
    let rest = ends.drop_last();
    let written = written_tasks(labels, found, rest);
    let unwritten = unwritten_tasks(labels, found, rest);
    if i < rest.len() {
        carried_out_tasks_are_told(labels, found, rest, i);
        match ends[i] {
            TaskEnd::Written { primary, mirror } => {
                let told = WrittenTask { label: labels[found[i] as int]@, primary, mirror };
                let k = written.index_of(told);
                assert(written_tasks(labels, found, ends)[k] == told);
            },
            TaskEnd::Failed(error) => {
                let told = labels[found[i] as int]@ + ": "@ + error@;
                let k = unwritten.index_of(told);
                assert(unwritten_tasks(labels, found, ends)[k] == told);
            },
        }
    } else {
        match ends[i] {
            TaskEnd::Written { primary, mirror } => {
                assert(written_tasks(labels, found, ends)[written.len() as int] == (WrittenTask {
                    label: labels[found[i] as int]@,
                    primary,
                    mirror,
                }));
            },
            TaskEnd::Failed(error) => {
                assert(unwritten_tasks(labels, found, ends)[unwritten.len() as int]
                    == labels[found[i] as int]@ + ": "@ + error@);
            },
        }
    }
}

/// A repository is told to be complete only if it holds the whole snapshot, and
/// tells the numbers of just that snapshot; one that failed tells its error and
/// nothing stored.
pub proof fn repositories_tell_what_they_stored(end: RepositoryEnd)
    ensures
        match end {
            RepositoryEnd::Stored(stored) => {
                &&& stored_by(end).complete <==> !stored.partial
                &&& stored_by(end).partial == stored.partial
                &&& stored_by(end).files == stored.files
                &&& stored_by(end).original_size == stored.original_size
                &&& stored_by(end).stored_size == stored.stored_size
                &&& stored_by(end).error is None
            },
            RepositoryEnd::Failed(error) | RepositoryEnd::Broke(error) => {
                &&& !stored_by(end).complete
                &&& !stored_by(end).partial
                &&& stored_by(end).files == 0
                &&& stored_by(end).stored_size == 0
                &&& stored_by(end).error is Some
                &&& error@.is_suffix_of(stored_by(end).error->Some_0)
            },
        },
{
    match end {
        RepositoryEnd::Broke(error) => {
            let told = "Vykar worker failed: "@ + error@;
            assert(told.skip(told.len() - error@.len()) =~= error@);
        },
        _ => {},
    }
}

} // verus!
