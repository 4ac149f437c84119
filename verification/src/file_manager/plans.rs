//! Plans: an operation is looked at first, and carried out only as it was
//! looked at.

use vstd::prelude::*;

use crate::file_manager::actions;
use crate::file_manager::actions::ActionError;
use crate::file_manager::conflict;
use crate::file_manager::conflict::MergeError;
use crate::file_manager::conflict::ConflictModel;
use crate::file_manager::conflict::FileManagerConflict;
use crate::file_manager::conflict::FileManagerConflictDecision;
use crate::file_manager::copying;
use crate::file_manager::copying::CopyTarget;
use crate::file_manager::journal::FileManagerExecutionMode;
use crate::file_manager::journal::PathRevision;
use crate::file_manager::limits::LimitError;
use crate::file_manager::operation;
use crate::file_manager::operation::FileManagerEntryKind;
use crate::file_manager::operation::FileManagerOperation;
use crate::file_manager::operation::OperationError;
use crate::file_manager::operation::ResolvedRoot;
use crate::file_manager::tree::Entry;
use crate::path;
use crate::path::PathError;
use crate::registry::Expires;
use crate::registry::Registry;
use crate::text;
use crate::text::texts;

verus! {

/// How long a plan can be carried out, in milliseconds.
pub const PLAN_TTL_MS: i64 = 300000;

/// An operation that was looked at, with what was found.
#[derive(Clone, Debug)]
pub struct OperationPlan {
    pub actor: String,
    pub root_key: String,
    pub operation: FileManagerOperation,
    pub expires_at: i64,
    pub conflicts: Vec<FileManagerConflict>,
    pub confirmation_required: bool,
    pub revisions: Vec<PathRevision>,
    pub copy_targets: Vec<CopyTarget>,
    pub execution_mode: FileManagerExecutionMode,
    /// The revisions are those of whole trees.
    pub recursive_revisions: bool,
}

impl Expires for OperationPlan {
    open spec fn deadline(&self) -> i64 {
        self.expires_at
    }

    fn expires_at(&self) -> (deadline: i64) {
        self.expires_at
    }
}

/// Why a plan is not made or not carried out.
#[derive(Clone, Copy, Debug, PartialEq, Eq, Structural)]
pub enum PlanError {
    /// The root is read-only.
    ReadOnly,
    /// The operation's paths are refused.
    Path(PathError),
    /// The operation is refused.
    Operation(OperationError),
    /// There is no such plan.
    Missing,
    /// The plan belongs to another user.
    OtherActor,
    /// The plan is too old.
    Expired,
    /// The plan has to be confirmed.
    Unconfirmed,
    /// A conflict has not been decided.
    Undecided,
    /// The root is another one by now.
    RootChanged,
    /// A managed file of the root is being saved.
    ManagedSaveOpen,
}

/// Why an operation is not looked at.
pub open spec fn preflight_refusal(
    root: ResolvedRoot,
    asked: FileManagerOperation,
    normalized: FileManagerOperation,
) -> Option<PlanError> {
    if root.read_only {
        Some(PlanError::ReadOnly)
    } else {
        match operation::normalize_refusal(asked) {
            Some(error) => Some(PlanError::Path(error)),
            None => match operation::operation_refusal(root, normalized) {
                Some(error) => Some(PlanError::Operation(error)),
                None => None,
            },
        }
    }
}

/// Admits an operation to be looked at, with its redundant paths dropped.
pub fn admit_preflight(root: &ResolvedRoot, asked: FileManagerOperation) -> (outcome: Result<
    FileManagerOperation,
    PlanError,
>)
    ensures
        match outcome {
            Ok(admitted) => {
                &&& operation::is_normalized_as(asked, admitted)
                &&& preflight_refusal(*root, asked, admitted) is None
            },
            Err(error) => exists|normalized: FileManagerOperation| #[trigger]
                preflight_refusal(*root, asked, normalized) == Some(error) && (
                operation::normalize_refusal(asked) is None && !root.read_only
                    ==> operation::is_normalized_as(asked, normalized)),
        },
{
    if root.read_only {
        assert(preflight_refusal(*root, asked, asked) == Some(PlanError::ReadOnly));
        return Err(PlanError::ReadOnly);
    }
    let ghost before = asked;
    match operation::normalize_operation(asked) {
        Err(error) => {
            assert(preflight_refusal(*root, before, before) == Some(PlanError::Path(error)));
            Err(PlanError::Path(error))
        },
        Ok(normalized) => match operation::validate_operation(root, &normalized) {
            Err(error) => {
                assert(preflight_refusal(*root, before, normalized) == Some(
                    PlanError::Operation(error),
                ));
                Err(PlanError::Operation(error))
            },
            Ok(()) => Ok(normalized),
        },
    }
}

/// The paths whose revisions a plan notes, in ascending order and each once.
pub fn preflight_paths(operation: &FileManagerOperation, copy_targets: &Vec<CopyTarget>) -> (paths: Result<
    Vec<String>,
    OperationError,
>)
    ensures
        match (paths, copying::revisions_as_planned(*operation, copy_targets@)) {
            (Ok(list), Ok(watched)) => text::strictly_sorted(texts(list@)) && forall|
                path: Seq<char>,
            | texts(list@).contains(path) <==> watched.contains(path),
            (Err(a), Err(b)) => a == b,
            _ => false,
        },
{
    match copying::revision_paths_planned(operation, copy_targets) {
        Err(error) => Err(error),
        Ok(list) => Ok(text::sorted_unique(&list)),
    }
}

// ---------------------------------------------------------------------------
// Conflicts of a plan
// ---------------------------------------------------------------------------

/// What was found for an item of an operation: its source, and what stands where
/// it is put.
#[derive(Debug)]
pub struct ItemSeen {
    pub source: Option<Entry>,
    pub target: Option<Entry>,
}

/// Why the conflicts of an operation cannot be told.
#[derive(Clone, Copy, Debug, PartialEq, Eq, Structural)]
pub enum FindError {
    Action(ActionError),
    /// A source is not there.
    MissingSource,
    /// A name is no text.
    NotText,
    Limit(LimitError),
}

/// The conflict of one written path, if something is there.
pub open spec fn named_conflict(
    path: Seq<char>,
    target: Option<Entry>,
    incoming_kind: FileManagerEntryKind,
) -> Seq<ConflictModel> {
    match target {
        None => Seq::empty(),
        Some(existing) => seq![
            ConflictModel { path, existing_kind: existing.entry_kind(), incoming_kind },
        ],
    }
}

/// The conflicts of a tree that is merged into a place, where `count` conflicts
/// precede them.
pub open spec fn tree_conflicts(
    seen: ItemSeen,
    place: Seq<char>,
    count: nat,
    maximum: u64,
) -> Result<Seq<ConflictModel>, FindError> {
    match seen.source {
        None => Err(FindError::MissingSource),
        Some(source) => match conflict::merge_conflicts(source, seen.target, place, count, maximum) {
            Err(MergeError::NotText) => Err(FindError::NotText),
            Err(MergeError::Limit(error)) => Err(FindError::Limit(error)),
            Ok(conflicts) => Ok(conflicts),
        },
    }
}

/// The conflicts of one item of an operation. Those of an extraction are found
/// once its entries are unpacked. `count` conflicts precede them; of trees no more
/// than `maximum` are collected.
pub open spec fn item_conflicts(
    operation: FileManagerOperation,
    copy_targets: Seq<CopyTarget>,
    seen: ItemSeen,
    index: int,
    count: nat,
    maximum: u64,
) -> Result<Seq<ConflictModel>, FindError> {
    match operation {
        FileManagerOperation::CreateFile { path } => match actions::checked_path(path@) {
            Err(error) => Err(FindError::Action(error)),
            Ok(place) => Ok(named_conflict(place, seen.target, FileManagerEntryKind::File)),
        },
        FileManagerOperation::CreateDirectory { path } => match actions::checked_path(path@) {
            Err(error) => Err(FindError::Action(error)),
            Ok(place) => Ok(named_conflict(place, seen.target, FileManagerEntryKind::Directory)),
        },
        FileManagerOperation::CreateArchive { destination, .. } => match actions::checked_path(destination@) {
            Err(error) => Err(FindError::Action(error)),
            Ok(place) => Ok(named_conflict(place, seen.target, FileManagerEntryKind::File)),
        },
        FileManagerOperation::Rename { .. } => match actions::place_of(operation, index) {
            Err(error) => Err(FindError::Action(error)),
            Ok(None) => Ok(Seq::empty()),
            Ok(Some(place)) => match seen.source {
                None => Err(FindError::MissingSource),
                Some(source) => Ok(named_conflict(place, seen.target, source.entry_kind())),
            },
        },
        FileManagerOperation::Move { .. } => match actions::place_of(operation, index) {
            Err(error) => Err(FindError::Action(error)),
            Ok(None) => Ok(Seq::empty()),
            Ok(Some(place)) => tree_conflicts(seen, place, count, maximum),
        },
        FileManagerOperation::Copy { .. } => match actions::copy_refusal(copy_targets[index]) {
            Some(error) => Err(
                FindError::Action(ActionError::Operation(OperationError::Path(error))),
            ),
            None => tree_conflicts(seen, copy_targets[index].destination@, count, maximum),
        },
        _ => Ok(Seq::empty()),
    }
}

/// The conflicts of the first items of an operation. Of trees no more than
/// `maximum` are collected.
pub open spec fn found_conflicts(
    operation: FileManagerOperation,
    copy_targets: Seq<CopyTarget>,
    seen: Seq<ItemSeen>,
    maximum: u64,
) -> Result<Seq<ConflictModel>, FindError>
    decreases seen.len(),
{
    if seen.len() == 0 {
        Ok(Seq::empty())
    } else {
        match found_conflicts(operation, copy_targets, seen.drop_last(), maximum) {
            Err(error) => Err(error),
            Ok(before) => match item_conflicts(
                operation,
                copy_targets,
                seen.last(),
                seen.len() - 1,
                before.len(),
                maximum,
            ) {
                Err(error) => Err(error),
                Ok(more) => Ok(before + more),
            },
        }
    }
}

fn add_named(
    path: &str,
    target: &Option<Entry>,
    incoming: FileManagerEntryKind,
    conflicts: &mut Vec<FileManagerConflict>,
)
    ensures
        conflict::conflict_models(final(conflicts)@) == conflict::conflict_models(old(conflicts)@)
            + named_conflict(path@, *target, incoming),
{
    let ghost start = conflict::conflict_models(conflicts@);
    let existing = match target {
        None => None,
        Some(entry) => Some(entry.kind()),
    };
    match conflict::single_conflict(path, existing, incoming) {
        None => {},
        Some(found) => conflicts.push(found),
    }
    assert(conflict::conflict_models(conflicts@) =~= start + named_conflict(
        path@,
        *target,
        incoming,
    ));
}

fn add_tree(
    seen: &ItemSeen,
    place: &str,
    conflicts: &mut Vec<FileManagerConflict>,
    maximum: u64,
) -> (outcome: Result<(), FindError>)
    ensures
        match (
            outcome,
            tree_conflicts(*seen, place@, old(conflicts)@.len(), maximum),
        ) {
            (Ok(()), Ok(more)) => conflict::conflict_models(final(conflicts)@)
                == conflict::conflict_models(old(conflicts)@) + more,
            (Err(a), Err(b)) => a == b,
            _ => false,
        },
{
    match &seen.source {
        None => Err(FindError::MissingSource),
        Some(source) => {
            match conflict::collect_merge_conflicts(
                source,
                seen.target.as_ref(),
                place,
                conflicts,
                maximum,
            ) {
                Err(MergeError::NotText) => Err(FindError::NotText),
                Err(MergeError::Limit(error)) => Err(FindError::Limit(error)),
                Ok(()) => Ok(()),
            }
        },
    }
}

/// What conflicts with an operation: of each item, what stands where it is put
/// and cannot be merged with it. Nothing does where the root is not there yet.
pub fn find_conflicts_planned(
    root_exists: bool,
    operation: &FileManagerOperation,
    copy_targets: &Vec<CopyTarget>,
    seen: &Vec<ItemSeen>,
    maximum: u64,
) -> (conflicts: Result<Vec<FileManagerConflict>, FindError>)
    requires
        seen@.len() == actions::items_of(*operation, copy_targets@),
    ensures
        if !root_exists {
            conflicts matches Ok(list) && list@.len() == 0
        } else {
            match (conflicts, found_conflicts(*operation, copy_targets@, seen@, maximum)) {
                (Ok(list), Ok(found)) => conflict::conflict_models(list@) == found,
                (Err(a), Err(b)) => a == b,
                _ => false,
            }
        },
{
    let mut conflicts: Vec<FileManagerConflict> = Vec::new();
    if !root_exists {
        return Ok(conflicts);
    }
    assert(seen@.take(0) =~= Seq::<ItemSeen>::empty());
    assert(conflict::conflict_models(conflicts@) =~= Seq::<ConflictModel>::empty());
    for i in 0..seen.len()
        invariant
            root_exists,
            seen@.len() == actions::items_of(*operation, copy_targets@),
            found_conflicts(*operation, copy_targets@, seen@.take(i as int), maximum) == Ok::<
                Seq<ConflictModel>,
                FindError,
            >(conflict::conflict_models(conflicts@)),
    {
        let ghost before = conflict::conflict_models(conflicts@);
        proof {
            assert(seen@.take(i + 1).drop_last() =~= seen@.take(i as int));
            assert(seen@.take(i + 1).last() == seen@[i as int]);
            assert(before.len() == conflicts@.len());
            if found_conflicts(*operation, copy_targets@, seen@.take(i + 1), maximum) is Err {
                lemma_refusals_stay(*operation, copy_targets@, seen@, maximum, i + 1);
            }
        }
        match operation {
            FileManagerOperation::CreateFile { path } => match actions::check_path(path.as_str()) {
                Err(error) => {
                    return Err(FindError::Action(error));
                },
                Ok(place) => {
                    add_named(
                        place.as_str(),
                        &seen[i].target,
                        FileManagerEntryKind::File,
                        &mut conflicts,
                    );
                },
            },
            FileManagerOperation::CreateDirectory { path } => match actions::check_path(path.as_str()) {
                Err(error) => {
                    return Err(FindError::Action(error));
                },
                Ok(place) => {
                    add_named(
                        place.as_str(),
                        &seen[i].target,
                        FileManagerEntryKind::Directory,
                        &mut conflicts,
                    );
                },
            },
            FileManagerOperation::CreateArchive { destination, .. } => match actions::check_path(destination.as_str()) {
                Err(error) => {
                    return Err(FindError::Action(error));
                },
                Ok(place) => {
                    add_named(
                        place.as_str(),
                        &seen[i].target,
                        FileManagerEntryKind::File,
                        &mut conflicts,
                    );
                },
            },
            FileManagerOperation::Rename { .. } => match actions::item_place(operation, i) {
                Err(error) => {
                    return Err(FindError::Action(error));
                },
                Ok(None) => {
                    assert(before + Seq::<ConflictModel>::empty() =~= before);
                },
                Ok(Some(place)) => match &seen[i].source {
                    None => {
                        return Err(FindError::MissingSource);
                    },
                    Some(source) => {
                        add_named(
                            place.as_str(),
                            &seen[i].target,
                            source.kind(),
                            &mut conflicts,
                        );
                    },
                },
            },
            FileManagerOperation::Move { .. } => match actions::item_place(operation, i) {
                Err(error) => {
                    return Err(FindError::Action(error));
                },
                Ok(None) => {
                    assert(before + Seq::<ConflictModel>::empty() =~= before);
                },
                Ok(Some(place)) => match add_tree(
                    &seen[i],
                    place.as_str(),
                    &mut conflicts,
                    maximum,
                ) {
                    Err(error) => {
                        return Err(error);
                    },
                    Ok(()) => {},
                },
            },
            FileManagerOperation::Copy { .. } => {
                let target = &copy_targets[i];
                match actions::refuse_copy(target) {
                    Some(error) => {
                        return Err(
                            FindError::Action(ActionError::Operation(OperationError::Path(error))),
                        );
                    },
                    None => {},
                }
                match add_tree(&seen[i], target.destination.as_str(), &mut conflicts, maximum) {
                    Err(error) => {
                        return Err(error);
                    },
                    Ok(()) => {},
                }
            },
            _ => {
                assert(before + Seq::<ConflictModel>::empty() =~= before);
            },
        }
    }
    assert(seen@.take(seen@.len() as int) =~= seen@);
    Ok(conflicts)
}

proof fn lemma_refusals_stay(
    operation: FileManagerOperation,
    copy_targets: Seq<CopyTarget>,
    seen: Seq<ItemSeen>,
    maximum: u64,
    count: int,
)
    requires
        0 <= count <= seen.len(),
        found_conflicts(operation, copy_targets, seen.take(count), maximum) is Err,
    ensures
        found_conflicts(operation, copy_targets, seen, maximum) == found_conflicts(
            operation,
            copy_targets,
            seen.take(count),
            maximum,
        ),
    decreases seen.len() - count,
{
    if count < seen.len() {
        assert(seen.take(count + 1).drop_last() =~= seen.take(count));
        lemma_refusals_stay(operation, copy_targets, seen, maximum, count + 1);
    } else {
        assert(seen.take(count) =~= seen);
    }
}

/// Whether a plan notes the revisions of whole trees: always, unless the
/// operation can be carried out by changing names only, or the root is not there
/// yet.
pub fn notes_trees(supported: Option<bool>) -> (recursive: bool)
    ensures
        recursive == (supported == Some(false)),
{
    match supported {
        Some(by_name_only) => !by_name_only,
        None => false,
    }
}

/// The plan of an operation that was looked at.
pub fn make_plan(
    actor: String,
    root_key: String,
    operation: FileManagerOperation,
    conflicts: Vec<FileManagerConflict>,
    revisions: Vec<PathRevision>,
    copy_targets: Vec<CopyTarget>,
    execution_mode: FileManagerExecutionMode,
    recursive_revisions: bool,
    requires_confirmation: bool,
    now: i64,
) -> (plan: OperationPlan)
    requires
        now <= i64::MAX - PLAN_TTL_MS,
    ensures
        plan == (OperationPlan {
            actor,
            root_key,
            operation,
            expires_at: (now + PLAN_TTL_MS) as i64,
            conflicts,
            confirmation_required: requires_confirmation || conflicts@.len() > 0,
            revisions,
            copy_targets,
            execution_mode,
            recursive_revisions,
        }),
{
    let confirmation_required = requires_confirmation || conflicts.len() > 0;
    OperationPlan {
        actor,
        root_key,
        operation,
        expires_at: now + PLAN_TTL_MS,
        conflicts,
        confirmation_required,
        revisions,
        copy_targets,
        execution_mode,
        recursive_revisions,
    }
}

/// Registers a plan, and drops those that are too old.
pub fn register_plan(
    plans: &mut Registry<OperationPlan>,
    plan_id: String,
    plan: OperationPlan,
    now: i64,
)
    requires
        old(plans).well_formed(),
    ensures
        final(plans).well_formed(),
        final(plans)@.dom().contains(plan_id@),
        final(plans)@[plan_id@] == plan,
        forall|key: Seq<char>|
            key != plan_id@ ==> (#[trigger] final(plans)@.dom().contains(key) <==> old(
                plans,
            )@.dom().contains(key) && old(plans)@[key].expires_at > now),
        forall|key: Seq<char>|
            key != plan_id@ && #[trigger] final(plans)@.dom().contains(key) ==> final(plans)@[key]
                == old(plans)@[key],
{
    plans.retain_unexpired(now);
    plans.insert(plan_id, plan);
}

/// What the user is told of a plan.
#[derive(Clone, Debug, PartialEq, Eq)]
pub struct FileManagerPreflight {
    pub plan_id: String,
    pub expires_at: i64,
    pub conflicts: Vec<FileManagerConflict>,
    pub confirmation_required: bool,
    /// Saves of managed files can be coordinated so that they survive a crash.
    pub supports_durable_managed_transactions: bool,
    pub execution_mode: FileManagerExecutionMode,
}

fn copy_conflicts(conflicts: &Vec<FileManagerConflict>) -> (copy: Vec<FileManagerConflict>)
    ensures
        conflict::conflict_models(copy@) == conflict::conflict_models(conflicts@),
{
    let mut copy: Vec<FileManagerConflict> = Vec::new();
    for i in 0..conflicts.len()
        invariant
            conflict::conflict_models(copy@) == conflict::conflict_models(
                conflicts@.take(i as int),
            ),
    {
        let found = &conflicts[i];
        let ghost before = conflict::conflict_models(copy@);
        copy.push(
            FileManagerConflict {
                path: found.path.clone(),
                existing_kind: found.existing_kind,
                incoming_kind: found.incoming_kind,
            },
        );
        proof {
            let model = ConflictModel {
                path: found.path@,
                existing_kind: found.existing_kind,
                incoming_kind: found.incoming_kind,
            };
            assert(conflict::conflict_models(copy@) =~= before.push(model));
            assert(conflict::conflict_models(conflicts@.take(i + 1)) =~= before.push(model));
        }
    }
    assert(conflicts@.take(conflicts@.len() as int) =~= conflicts@);
    copy
}

/// Registers the plan of an operation that was looked at, and tells the user of
/// it.
pub fn preflight(plans: &mut Registry<OperationPlan>, plan_id: String, plan: OperationPlan, now: i64) -> (told:
    FileManagerPreflight)
    requires
        old(plans).well_formed(),
    ensures
        final(plans).well_formed(),
        final(plans)@.dom().contains(plan_id@),
        final(plans)@[plan_id@] == plan,
        forall|key: Seq<char>|
            key != plan_id@ ==> (#[trigger] final(plans)@.dom().contains(key) <==> old(
                plans,
            )@.dom().contains(key) && old(plans)@[key].expires_at > now),
        forall|key: Seq<char>|
            key != plan_id@ && #[trigger] final(plans)@.dom().contains(key) ==> final(plans)@[key]
                == old(plans)@[key],
        told.plan_id@ == plan_id@,
        told.expires_at == plan.expires_at,
        conflict::conflict_models(told.conflicts@) == conflict::conflict_models(plan.conflicts@),
        told.confirmation_required == plan.confirmation_required,
        told.supports_durable_managed_transactions,
        told.execution_mode == plan.execution_mode,
{
    let told = FileManagerPreflight {
        plan_id: plan_id.clone(),
        expires_at: plan.expires_at,
        conflicts: copy_conflicts(&plan.conflicts),
        confirmation_required: plan.confirmation_required,
        supports_durable_managed_transactions: true,
        execution_mode: plan.execution_mode,
    };
    register_plan(plans, plan_id, plan, now);
    told
}

/// Takes out a plan for the user that it belongs to. The request of another user
/// leaves it where it is.
pub fn take_owned_plan(plans: &mut Registry<OperationPlan>, plan_id: &str, actor: &str) -> (plan: Result<
    OperationPlan,
    PlanError,
>)
    requires
        old(plans).well_formed(),
    ensures
        final(plans).well_formed(),
        match plan {
            Ok(taken) => {
                &&& old(plans)@.dom().contains(plan_id@)
                &&& taken == old(plans)@[plan_id@]
                &&& taken.actor@ == actor@
                &&& final(plans)@ == old(plans)@.remove(plan_id@)
            },
            Err(error) => {
                &&& final(plans)@ == old(plans)@
                &&& if old(plans)@.dom().contains(plan_id@) {
                    error == PlanError::OtherActor && old(plans)@[plan_id@].actor@ != actor@
                } else {
                    error == PlanError::Missing
                }
            },
        },
{
    let owned = match plans.get(plan_id) {
        None => {
            return Err(PlanError::Missing);
        },
        Some(plan) => text::same(plan.actor.as_str(), actor),
    };
    if !owned {
        return Err(PlanError::OtherActor);
    }
    match plans.remove(plan_id) {
        Some(plan) => Ok(plan),
        None => Err(PlanError::Missing),
    }
}

/// Why a plan is not carried out.
pub open spec fn commit_refusal(
    plan: OperationPlan,
    root: ResolvedRoot,
    decisions: Seq<FileManagerConflictDecision>,
    confirmed: bool,
    durable_managed: bool,
    managed_save_open: bool,
    now: i64,
) -> Option<PlanError> {
    if plan.expires_at < now {
        Some(PlanError::Expired)
    } else if plan.confirmation_required && !confirmed {
        Some(PlanError::Unconfirmed)
    } else if exists|i: int|
        0 <= i < plan.conflicts@.len() && conflict::decision_at(
            (#[trigger] plan.conflicts@[i]).path@,
            decisions,
        ) is None {
        Some(PlanError::Undecided)
    } else if root.key@ != plan.root_key@ || root.read_only {
        Some(PlanError::RootChanged)
    } else if !durable_managed && operation::edits_managed_file(root, plan.operation)
        && managed_save_open {
        Some(PlanError::ManagedSaveOpen)
    } else {
        None
    }
}

/// Whether a plan is carried out. `managed_save_open` says whether a managed
/// file of the root is being saved.
pub fn admit_commit(
    plan: &OperationPlan,
    root: &ResolvedRoot,
    decisions: &Vec<FileManagerConflictDecision>,
    confirmed: bool,
    durable_managed: bool,
    managed_save_open: bool,
    now: i64,
) -> (outcome: Result<(), PlanError>)
    ensures
        outcome == match commit_refusal(
            *plan,
            *root,
            decisions@,
            confirmed,
            durable_managed,
            managed_save_open,
            now,
        ) {
            Some(error) => Err(error),
            None => Ok(()),
        },
{
    if plan.expires_at < now {
        return Err(PlanError::Expired);
    }
    if plan.confirmation_required && !confirmed {
        return Err(PlanError::Unconfirmed);
    }
    if !conflict::validate_conflict_decisions(&plan.conflicts, decisions) {
        return Err(PlanError::Undecided);
    }
    if !text::same(root.key.as_str(), plan.root_key.as_str()) || root.read_only {
        return Err(PlanError::RootChanged);
    }
    if !durable_managed && operation::operation_edits_managed_file(root, &plan.operation)
        && managed_save_open {
        return Err(PlanError::ManagedSaveOpen);
    }
    Ok(())
}

/// What a caller is told about an operation that has begun.
#[derive(Clone, Debug, PartialEq, Eq)]
pub struct FileManagerCommitResponse {
    pub operation_id: String,
    pub affected_paths: Vec<String>,
    pub undoable: bool,
}

/// What a caller is told about an operation that has begun. `named` are the
/// paths that the operation itself names, `is_undoable` says whether its kind can
/// be undone.
pub fn commit_response(
    plan: &OperationPlan,
    operation_id: &str,
    named: Vec<String>,
    is_undoable: bool,
) -> (response: FileManagerCommitResponse)
    ensures
        response.operation_id@ == operation_id@,
        texts(response.affected_paths@) == copying::affected_as_planned(
            plan.operation,
            plan.copy_targets@,
            texts(named@),
        ),
        response.undoable == (is_undoable && plan.execution_mode
            == FileManagerExecutionMode::Recoverable),
{
    FileManagerCommitResponse {
        operation_id: operation_id.to_owned(),
        affected_paths: copying::affected_paths_planned(&plan.operation, &plan.copy_targets, named),
        undoable: is_undoable && match plan.execution_mode {
            FileManagerExecutionMode::Recoverable => true,
            FileManagerExecutionMode::Direct => false,
        },
    }
}

/// The plan that a request to commit carries out, or why it carries out none.
pub open spec fn commit_outcome(
    plans: Map<Seq<char>, OperationPlan>,
    plan_id: Seq<char>,
    actor: Seq<char>,
    root: ResolvedRoot,
    decisions: Seq<FileManagerConflictDecision>,
    confirmed: bool,
    durable_managed: bool,
    managed_save_open: bool,
    now: i64,
) -> Result<OperationPlan, PlanError> {
    if !plans.dom().contains(plan_id) {
        Err(PlanError::Missing)
    } else if plans[plan_id].actor@ != actor {
        Err(PlanError::OtherActor)
    } else {
        match commit_refusal(
            plans[plan_id],
            root,
            decisions,
            confirmed,
            durable_managed,
            managed_save_open,
            now,
        ) {
            Some(error) => Err(error),
            None => Ok(plans[plan_id]),
        }
    }
}

/// The plans that are left when a user asks to commit one: it is used up, unless it
/// belongs to another user.
pub open spec fn plans_after_commit(
    plans: Map<Seq<char>, OperationPlan>,
    plan_id: Seq<char>,
    actor: Seq<char>,
) -> Map<Seq<char>, OperationPlan> {
    if plans.dom().contains(plan_id) && plans[plan_id].actor@ == actor {
        plans.remove(plan_id)
    } else {
        plans
    }
}

/// The caller is told of the operation that the plan is carried out as.
pub open spec fn tells_of_commit(
    response: FileManagerCommitResponse,
    plan: OperationPlan,
    operation_id: Seq<char>,
    named: Seq<Seq<char>>,
    is_undoable: bool,
) -> bool {
    &&& response.operation_id@ == operation_id
    &&& texts(response.affected_paths@) == copying::affected_as_planned(
        plan.operation,
        plan.copy_targets@,
        named,
    )
    &&& response.undoable == (is_undoable && plan.execution_mode
        == FileManagerExecutionMode::Recoverable)
}

/// Accepts a request to commit: takes the plan out, checks it, and tells the caller
/// of the operation that begins.
pub fn accept_commit(
    plans: &mut Registry<OperationPlan>,
    plan_id: &str,
    actor: &str,
    operation_id: &str,
    root: &ResolvedRoot,
    decisions: &Vec<FileManagerConflictDecision>,
    confirmed: bool,
    durable_managed: bool,
    managed_save_open: bool,
    named: Vec<String>,
    is_undoable: bool,
    now: i64,
) -> (accepted: Result<(OperationPlan, FileManagerCommitResponse), PlanError>)
    requires
        old(plans).well_formed(),
    ensures
        final(plans).well_formed(),
        final(plans)@ == plans_after_commit(old(plans)@, plan_id@, actor@),
        match (
            accepted,
            commit_outcome(
                old(plans)@,
                plan_id@,
                actor@,
                *root,
                decisions@,
                confirmed,
                durable_managed,
                managed_save_open,
                now,
            ),
        ) {
            (Ok((plan, response)), Ok(planned)) => plan == planned && tells_of_commit(
                response,
                planned,
                operation_id@,
                texts(named@),
                is_undoable,
            ),
            (Err(a), Err(b)) => a == b,
            _ => false,
        },
{
    let plan = match take_owned_plan(plans, plan_id, actor) {
        Err(error) => {
            return Err(error);
        },
        Ok(plan) => plan,
    };
    match admit_commit(
        &plan,
        root,
        decisions,
        confirmed,
        durable_managed,
        managed_save_open,
        now,
    ) {
        Err(error) => {
            return Err(error);
        },
        Ok(()) => {},
    }
    let response = commit_response(&plan, operation_id, named, is_undoable);
    Ok((plan, response))
}

/// A commit that is accepted carries out a plan that was there, belongs to the user
/// and has not expired; it was confirmed where that is asked for, every conflict
/// was decided, and the root is the one that the plan was made for and may be
/// changed. The plan is used up: as long as it is not made anew, no later commit of
/// it is accepted, whoever asks and however.
pub proof fn commits_follow_their_plan(
    plans: Map<Seq<char>, OperationPlan>,
    plan_id: Seq<char>,
    actor: Seq<char>,
    root: ResolvedRoot,
    decisions: Seq<FileManagerConflictDecision>,
    confirmed: bool,
    durable_managed: bool,
    managed_save_open: bool,
    now: i64,
    later: Map<Seq<char>, OperationPlan>,
    later_actor: Seq<char>,
    later_root: ResolvedRoot,
    later_decisions: Seq<FileManagerConflictDecision>,
    later_confirmed: bool,
    later_durable: bool,
    later_open: bool,
    later_now: i64,
)
    requires
        commit_outcome(
            plans,
            plan_id,
            actor,
            root,
            decisions,
            confirmed,
            durable_managed,
            managed_save_open,
            now,
        ) is Ok,
        later.dom().contains(plan_id) ==> plans_after_commit(plans, plan_id, actor).dom().contains(
            plan_id,
        ),
    ensures
        ({
            let plan = commit_outcome(
                plans,
                plan_id,
                actor,
                root,
                decisions,
                confirmed,
                durable_managed,
                managed_save_open,
                now,
            )->Ok_0;
            &&& plans.dom().contains(plan_id) && plan == plans[plan_id]
            &&& plan.actor@ == actor
            &&& now <= plan.expires_at
            &&& confirmed || !plan.confirmation_required
            &&& forall|i: int|
                0 <= i < plan.conflicts@.len() ==> conflict::decision_at(
                    (#[trigger] plan.conflicts@[i]).path@,
                    decisions,
                ) is Some
            &&& root.key@ == plan.root_key@ && !root.read_only
        }),
        commit_outcome(
            later,
            plan_id,
            later_actor,
            later_root,
            later_decisions,
            later_confirmed,
            later_durable,
            later_open,
            later_now,
        ) == Err::<OperationPlan, PlanError>(PlanError::Missing),
{
}

/// An operation with conflicts is never carried out without confirmation, nor
/// with a conflict undecided.
pub proof fn conflicts_need_decisions(
    plan: OperationPlan,
    root: ResolvedRoot,
    decisions: Seq<FileManagerConflictDecision>,
    confirmed: bool,
    durable_managed: bool,
    managed_save_open: bool,
    now: i64,
    i: int,
)
    requires
        plan.conflicts@.len() > 0 ==> plan.confirmation_required,
        0 <= i < plan.conflicts@.len(),
        commit_refusal(
            plan,
            root,
            decisions,
            confirmed,
            durable_managed,
            managed_save_open,
            now,
        ) is None,
    ensures
        confirmed,
        conflict::decision_at(plan.conflicts@[i].path@, decisions) is Some,
        root.key@ == plan.root_key@,
        !root.read_only,
{
    if conflict::decision_at(plan.conflicts@[i].path@, decisions) is None {
        assert(conflict::decision_at((plan.conflicts@[i]).path@, decisions) is None);
    }
}

/// A plan that is still good is carried out: an own one of this root that has not
/// expired, confirmed if it had to be, with every conflict decided, on a root that can
/// be written and whose managed file nobody else is saving.
pub proof fn good_plans_are_carried_out(
    plans: Map<Seq<char>, OperationPlan>,
    plan_id: Seq<char>,
    actor: Seq<char>,
    root: ResolvedRoot,
    decisions: Seq<FileManagerConflictDecision>,
    confirmed: bool,
    durable_managed: bool,
    managed_save_open: bool,
    now: i64,
)
    requires
        plans.dom().contains(plan_id),
        plans[plan_id].actor@ == actor,
        now <= plans[plan_id].expires_at,
        confirmed || !plans[plan_id].confirmation_required,
        forall|i: int|
            0 <= i < plans[plan_id].conflicts@.len() ==> conflict::decision_at(
                (#[trigger] plans[plan_id].conflicts@[i]).path@,
                decisions,
            ) is Some,
        root.key@ == plans[plan_id].root_key@,
        !root.read_only,
        durable_managed || !managed_save_open || !operation::edits_managed_file(
            root,
            plans[plan_id].operation,
        ),
    ensures
        commit_outcome(
            plans,
            plan_id,
            actor,
            root,
            decisions,
            confirmed,
            durable_managed,
            managed_save_open,
            now,
        ) == Ok::<OperationPlan, PlanError>(plans[plan_id]),
{
}

/// A plan is used up once its own actor commits it, whatever comes of that, and
/// nobody else's is.
pub proof fn plans_are_used_up(
    plans: Map<Seq<char>, OperationPlan>,
    plan_id: Seq<char>,
    actor: Seq<char>,
    other: Seq<char>,
)
    ensures
        plans_after_commit(plans, plan_id, actor).dom().contains(other) <==> plans.dom().contains(
            other,
        ) && !(other == plan_id && plans[plan_id].actor@ == actor),
        plans_after_commit(plans, plan_id, actor).dom().contains(other) ==> plans_after_commit(
            plans,
            plan_id,
            actor,
        )[other] == plans[other],
{
}

proof fn lemma_item_conflicts(
    operation: FileManagerOperation,
    copy_targets: Seq<CopyTarget>,
    seen: Seq<ItemSeen>,
    maximum: u64,
    i: int,
) -> (count: nat)
    requires
        0 <= i < seen.len(),
        found_conflicts(operation, copy_targets, seen, maximum) is Ok,
    ensures
        item_conflicts(operation, copy_targets, seen[i], i, count, maximum) is Ok,
        forall|conflict: ConflictModel| #[trigger]
            item_conflicts(
                operation,
                copy_targets,
                seen[i],
                i,
                count,
                maximum,
            )->Ok_0.contains(conflict) ==> found_conflicts(
                operation,
                copy_targets,
                seen,
                maximum,
            )->Ok_0.contains(conflict),
    decreases seen.len(),
{
    let rest = seen.drop_last();
    let before = found_conflicts(operation, copy_targets, rest, maximum)->Ok_0;
    let all = found_conflicts(operation, copy_targets, seen, maximum)->Ok_0;
    if i < rest.len() {
        let count = lemma_item_conflicts(operation, copy_targets, rest, maximum, i);
        let part = item_conflicts(operation, copy_targets, seen[i], i, count, maximum)->Ok_0;
        assert forall|conflict: ConflictModel| #[trigger]
            part.contains(conflict) implies all.contains(conflict) by {
            assert(before.contains(conflict));
            let k = before.index_of(conflict);
            assert(all[k] == conflict);
        }
        count
    } else {
        let count = before.len();
        let part = item_conflicts(operation, copy_targets, seen[i], i, count, maximum)->Ok_0;
        assert forall|conflict: ConflictModel| #[trigger]
            part.contains(conflict) implies all.contains(conflict) by {
            let k = part.index_of(conflict);
            assert(all[before.len() + k] == conflict);
        }
        count
    }
}

/// Before an operation every conflict of every item is told. What is created,
/// renamed or packed meets what stands at its place; what is moved or copied meets,
/// however deep, what it cannot be merged with.
pub proof fn every_item_tells_its_conflicts(
    operation: FileManagerOperation,
    copy_targets: Seq<CopyTarget>,
    seen: Seq<ItemSeen>,
    maximum: u64,
    i: int,
    way: Seq<int>,
)
    requires
        0 <= i < seen.len(),
        found_conflicts(operation, copy_targets, seen, maximum) is Ok,
    ensures
        ({
            let found = found_conflicts(operation, copy_targets, seen, maximum)->Ok_0;
            let moved = operation is Move || operation is Copy;
            &&& operation is CreateFile || operation is CreateDirectory || operation
                is CreateArchive || operation is Rename ==> {
                let place = match operation {
                    FileManagerOperation::CreateFile { path } => path@,
                    FileManagerOperation::CreateDirectory { path } => path@,
                    FileManagerOperation::CreateArchive { destination, .. } => destination@,
                    _ => actions::place_of(operation, i)->Ok_0->Some_0,
                };
                seen[i].target matches Some(existing) ==> found.contains(
                    ConflictModel {
                        path: place,
                        existing_kind: existing.entry_kind(),
                        incoming_kind: match operation {
                            FileManagerOperation::CreateDirectory { .. } => FileManagerEntryKind::Directory,
                            FileManagerOperation::Rename { .. } => seen[i].source->Some_0.entry_kind(),
                            _ => FileManagerEntryKind::File,
                        },
                    },
                )
            }
            &&& moved ==> seen[i].source is Some
            &&& moved && conflict::is_met(seen[i].source->Some_0, seen[i].target, way)
                && conflict::met_along(seen[i].source->Some_0, seen[i].target, way) is Some
                ==> found.contains(
                conflict::conflict_along(
                    seen[i].source->Some_0,
                    seen[i].target,
                    if operation is Copy {
                        copy_targets[i].destination@
                    } else {
                        actions::place_of(operation, i)->Ok_0->Some_0
                    },
                    way,
                ),
            )
        }),
{
    let count = lemma_item_conflicts(operation, copy_targets, seen, maximum, i);
    let part = item_conflicts(operation, copy_targets, seen[i], i, count, maximum)->Ok_0;
    let moved = operation is Move || operation is Copy;
    if moved {
        let place = if operation is Copy {
            copy_targets[i].destination@
        } else {
            actions::place_of(operation, i)->Ok_0->Some_0
        };
        let source = seen[i].source->Some_0;
        if conflict::is_met(source, seen[i].target, way) && conflict::met_along(
            source,
            seen[i].target,
            way,
        ) is Some {
            conflict::every_conflict_is_told(source, seen[i].target, place, count, maximum, way);
            assert(part.contains(conflict::conflict_along(source, seen[i].target, place, way)));
        }
    } else if operation is CreateFile || operation is CreateDirectory || operation is CreateArchive
        || operation is Rename {
        if seen[i].target is Some {
            assert(part.contains(part[0]));
        }
    }
}

} // verus!
