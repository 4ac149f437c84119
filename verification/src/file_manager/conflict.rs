//! Conflicts between what an operation writes and what is there, and the
//! decisions that settle them.

use vstd::prelude::*;

use crate::file_manager::limits::LimitError;
use crate::file_manager::operation::FileManagerEntryKind;
use crate::file_manager::tree;
use crate::file_manager::tree::Entry;
use crate::path;
use crate::text;

verus! {

/// Something stands where an operation would write.
#[derive(Clone, Debug, PartialEq, Eq)]
pub struct FileManagerConflict {
    pub path: String,
    pub existing_kind: FileManagerEntryKind,
    pub incoming_kind: FileManagerEntryKind,
}

/// What to do about a conflict.
#[derive(Clone, Copy, Debug, PartialEq, Eq, Structural)]
pub enum FileManagerConflictAction {
    Overwrite,
    Skip,
}

/// A decision about the conflict at a path.
#[derive(Clone, Debug, PartialEq, Eq)]
pub struct FileManagerConflictDecision {
    pub path: String,
    pub action: FileManagerConflictAction,
}

/// The decision about a path: the first one that names it.
pub open spec fn decision_at(path: Seq<char>, decisions: Seq<FileManagerConflictDecision>) -> Option<
    FileManagerConflictAction,
>
    decreases decisions.len(),
{
    if decisions.len() == 0 {
        None
    } else if decisions[0].path@ == path {
        Some(decisions[0].action)
    } else {
        decision_at(path, decisions.drop_first())
    }
}

/// The decision about a path: the first one that names it.
pub fn decision_for(path: &str, decisions: &Vec<FileManagerConflictDecision>) -> (action: Option<
    FileManagerConflictAction,
>)
    ensures
        action == decision_at(path@, decisions@),
{
    assert(decisions@.skip(0) =~= decisions@);
    for i in 0..decisions.len()
        invariant
            decision_at(path@, decisions@) == decision_at(path@, decisions@.skip(i as int)),
    {
        assert(decisions@.skip(i as int).drop_first() =~= decisions@.skip(i + 1));
        if text::same(decisions[i].path.as_str(), path) {
            return Some(decisions[i].action);
        }
    }
    None
}

/// Whether every conflict has been decided.
pub fn validate_conflict_decisions(
    conflicts: &Vec<FileManagerConflict>,
    decisions: &Vec<FileManagerConflictDecision>,
) -> (decided: bool)
    ensures
        decided <==> forall|i: int|
            0 <= i < conflicts@.len() ==> decision_at(
                (#[trigger] conflicts@[i]).path@,
                decisions@,
            ) is Some,
{
    for i in 0..conflicts.len()
        invariant
            forall|j: int|
                0 <= j < i ==> decision_at((#[trigger] conflicts@[j]).path@, decisions@) is Some,
    {
        if decision_for(conflicts[i].path.as_str(), decisions).is_none() {
            assert(decision_at(conflicts@[i as int].path@, decisions@) is None);
            return false;
        }
    }
    true
}

/// What an existing destination means for an operation that writes to it.
#[derive(Clone, Copy, Debug, PartialEq, Eq, Structural)]
pub enum Destination {
    /// Nothing is there: write.
    Free,
    /// The entry stays as it is, and nothing is written.
    Keep,
    /// The entry is removed first.
    Replace,
    /// Nobody decided: the operation fails.
    Undecided,
}

/// What a destination means for an operation that writes to it.
pub open spec fn destination_verdict(exists: bool, decision: Option<FileManagerConflictAction>) -> Destination {
    if !exists {
        Destination::Free
    } else {
        match decision {
            Some(FileManagerConflictAction::Skip) => Destination::Keep,
            Some(FileManagerConflictAction::Overwrite) => Destination::Replace,
            None => Destination::Undecided,
        }
    }
}

/// Decides what a destination means for an operation that writes to it.
pub fn judge_destination(
    exists: bool,
    path: &str,
    decisions: &Vec<FileManagerConflictDecision>,
) -> (verdict: Destination)
    ensures
        verdict == destination_verdict(exists, decision_at(path@, decisions@)),
{
    if !exists {
        return Destination::Free;
    }
    match decision_for(path, decisions) {
        Some(FileManagerConflictAction::Skip) => Destination::Keep,
        Some(FileManagerConflictAction::Overwrite) => Destination::Replace,
        None => Destination::Undecided,
    }
}

/// The conflict of one written path, if something is there.
pub fn single_conflict(
    path: &str,
    existing: Option<FileManagerEntryKind>,
    incoming: FileManagerEntryKind,
) -> (conflict: Option<FileManagerConflict>)
    ensures
        match existing {
            None => conflict is None,
            Some(kind) => conflict matches Some(held) && held.path@ == path@ && held.existing_kind
                == kind && held.incoming_kind == incoming,
        },
{
    match existing {
        None => None,
        Some(kind) => Some(
            FileManagerConflict {
                path: path.to_owned(),
                existing_kind: kind,
                incoming_kind: incoming,
            },
        ),
    }
}

// ---------------------------------------------------------------------------
// Merging trees
// ---------------------------------------------------------------------------

/// A conflict as a value.
pub struct ConflictModel {
    pub path: Seq<char>,
    pub existing_kind: FileManagerEntryKind,
    pub incoming_kind: FileManagerEntryKind,
}

/// The conflicts of a list.
pub open spec fn conflict_models(conflicts: Seq<FileManagerConflict>) -> Seq<ConflictModel> {
    conflicts.map_values(
        |conflict: FileManagerConflict|
            ConflictModel {
                path: conflict.path@,
                existing_kind: conflict.existing_kind,
                incoming_kind: conflict.incoming_kind,
            },
    )
}

/// Why the conflicts of a merge cannot be told.
#[derive(Clone, Copy, Debug, PartialEq, Eq, Structural)]
pub enum MergeError {
    /// A name is no text.
    NotText,
    /// There are too many.
    Limit(LimitError),
}

/// The names of all the entries are texts.
pub open spec fn all_are_texts(children: Seq<Entry>) -> bool {
    forall|i: int| 0 <= i < children.len() ==> (#[trigger] children[i]).is_text()
}

/// The conflicts between a tree and what stands at the place that it is put to:
/// directories are merged, anything else conflicts. `count` conflicts precede
/// them, and there may be no more than `maximum` in all. The names in a directory
/// that is merged have to be texts.
pub open spec fn merge_conflicts(
    source: Entry,
    target: Option<Entry>,
    place: Seq<char>,
    count: nat,
    maximum: u64,
) -> Result<Seq<ConflictModel>, MergeError>
    decreases source, 0nat,
{
    match target {
        None => Ok(Seq::empty()),
        Some(existing) => match (source, existing) {
            (
                Entry::Directory { children, .. },
                Entry::Directory { children: held, .. },
            ) => if all_are_texts(children@) {
                children_conflicts(children@, held@, place, count, maximum)
            } else {
                Err(MergeError::NotText)
            },
            _ => if count >= maximum {
                Err(MergeError::Limit(LimitError::TooManyEntries { maximum }))
            } else {
                Ok(
                    seq![
                        ConflictModel {
                            path: path::forward_slashed(place),
                            existing_kind: existing.entry_kind(),
                            incoming_kind: source.entry_kind(),
                        },
                    ],
                )
            },
        },
    }
}

/// The conflicts of the entries of a directory, one after the other.
pub open spec fn children_conflicts(
    children: Seq<Entry>,
    held: Seq<Entry>,
    place: Seq<char>,
    count: nat,
    maximum: u64,
) -> Result<Seq<ConflictModel>, MergeError>
    decreases children, 1nat,
{
    if children.len() == 0 {
        Ok(Seq::empty())
    } else {
        match children_conflicts(children.drop_last(), held, place, count, maximum) {
            Err(error) => Err(error),
            Ok(before) => match merge_conflicts(
                children.last(),
                tree::child_named(held, children.last().entry_name()),
                path::joined(place, children.last().entry_text()),
                count + before.len(),
                maximum,
            ) {
                Err(error) => Err(error),
                Ok(more) => Ok(before + more),
            },
        }
    }
}

/// An entry for which nothing is known stands for an absent one.
pub open spec fn opt_entry(entry: Option<&Entry>) -> Option<Entry> {
    match entry {
        Some(held) => Some(*held),
        None => None,
    }
}

fn have_texts(children: &Vec<Entry>) -> (texts: bool)
    ensures
        texts == all_are_texts(children@),
{
    for i in 0..children.len()
        invariant
            forall|k: int| 0 <= k < i ==> (#[trigger] children@[k]).is_text(),
    {
        if children[i].text().is_none() {
            assert(!children@[i as int].is_text());
            return false;
        }
    }
    true
}

/// Adds the conflicts between a tree and what stands at the place that it is
/// put to. There may be no more than `maximum` in all.
pub fn collect_merge_conflicts(
    source: &Entry,
    target: Option<&Entry>,
    place: &str,
    conflicts: &mut Vec<FileManagerConflict>,
    maximum: u64,
) -> (outcome: Result<(), MergeError>)
    ensures
        match (
            outcome,
            merge_conflicts(
                *source,
                opt_entry(target),
                place@,
                old(conflicts)@.len(),
                maximum,
            ),
        ) {
            (Ok(()), Ok(more)) => conflict_models(final(conflicts)@) == conflict_models(
                old(conflicts)@,
            ) + more,
            (Err(a), Err(b)) => a == b,
            _ => false,
        },
    decreases source,
{
    let ghost start = conflict_models(conflicts@);
    let ghost count = conflicts@.len();
    let existing = match target {
        None => {
            assert(start + Seq::<ConflictModel>::empty() =~= start);
            return Ok(());
        },
        Some(existing) => existing,
    };
    match (source, existing) {
        (Entry::Directory { children, .. }, Entry::Directory { children: held, .. }) => {
            if !have_texts(children) {
                return Err(MergeError::NotText);
            }
            let ghost mut done: Seq<ConflictModel> = Seq::empty();
            assert(start + done =~= start);
            assert(children@.take(0) =~= Seq::<Entry>::empty());
            for i in 0..children.len()
                invariant
                    source matches Entry::Directory { children: all, .. } && all == children,
                    existing matches Entry::Directory { children: all, .. } && all == held,
                    target == Some(existing),
                    all_are_texts(children@),
                    start == conflict_models(old(conflicts)@),
                    count == old(conflicts)@.len(),
                    count == start.len(),
                    children_conflicts(
                        children@.take(i as int),
                        held@,
                        place@,
                        count,
                        maximum,
                    ) == Ok::<Seq<ConflictModel>, MergeError>(done),
                    conflict_models(conflicts@) == start + done,
            {
                proof {
                    assert(children@.take(i + 1).drop_last() =~= children@.take(i as int));
                    assert(children@.take(i + 1).last() == children@[i as int]);
                    assert(conflict_models(conflicts@).len() == conflicts@.len());
                }
                let child = &children[i];
                let name = child.held_text();
                let child_place = path::join(place, name.as_str());
                let child_target = tree::find_child(held, child.name());
                match collect_merge_conflicts(
                    child,
                    child_target,
                    child_place.as_str(),
                    conflicts,
                    maximum,
                ) {
                    Err(error) => {
                        proof {
                            lemma_conflicts_stop(children@, held@, place@, count, maximum, i + 1);
                        }
                        return Err(error);
                    },
                    Ok(()) => {
                        proof {
                            let more = merge_conflicts(
                                *child,
                                opt_entry(child_target),
                                child_place@,
                                count + done.len(),
                                maximum,
                            )->Ok_0;
                            assert((start + done) + more =~= start + (done + more));
                            done = done + more;
                        }
                    },
                }
            }
            assert(children@.take(children@.len() as int) =~= children@);
            Ok(())
        },
        _ => {
            if conflicts.len() as u64 >= maximum {
                return Err(MergeError::Limit(LimitError::TooManyEntries { maximum }));
            }
            conflicts.push(
                FileManagerConflict {
                    path: path::path_string(place),
                    existing_kind: existing.kind(),
                    incoming_kind: source.kind(),
                },
            );
            assert(conflict_models(conflicts@) =~= start + merge_conflicts(
                *source,
                opt_entry(target),
                place@,
                count,
                maximum,
            )->Ok_0);
            Ok(())
        },
    }
}

proof fn lemma_conflicts_stop(
    children: Seq<Entry>,
    held: Seq<Entry>,
    place: Seq<char>,
    count: nat,
    maximum: u64,
    n: int,
)
    requires
        0 <= n <= children.len(),
        children_conflicts(children.take(n), held, place, count, maximum) is Err,
    ensures
        children_conflicts(children, held, place, count, maximum) == children_conflicts(
            children.take(n),
            held,
            place,
            count,
            maximum,
        ),
    decreases children.len(),
{
    if n == children.len() {
        assert(children.take(n) =~= children);
    } else {
        assert(children.drop_last().take(n) =~= children.take(n));
        lemma_conflicts_stop(children.drop_last(), held, place, count, maximum, n);
    }
}

/// A step of a merge.
#[derive(Clone, Debug, PartialEq, Eq)]
pub enum MergeStep {
    /// Remove what stands at the path.
    Remove(String),
    /// Move a whole entry.
    Move { from: String, to: String },
    /// Copy a whole entry.
    Copy { from: String, to: String },
    /// Remove the emptied directory.
    RemoveDirectory(String),
}

/// A step as a value.
pub enum StepModel {
    Remove(Seq<char>),
    Move { from: Seq<char>, to: Seq<char> },
    Copy { from: Seq<char>, to: Seq<char> },
    RemoveDirectory(Seq<char>),
}

/// The steps of a script.
pub open spec fn step_models(steps: Seq<MergeStep>) -> Seq<StepModel> {
    steps.map_values(|step: MergeStep| step_model(step))
}

/// A step as a value.
pub open spec fn step_model(step: MergeStep) -> StepModel {
    match step {
        MergeStep::Remove(path) => StepModel::Remove(path@),
        MergeStep::Move { from, to } => StepModel::Move { from: from@, to: to@ },
        MergeStep::Copy { from, to } => StepModel::Copy { from: from@, to: to@ },
        MergeStep::RemoveDirectory(path) => StepModel::RemoveDirectory(path@),
    }
}

/// The merge of an entry into a place.
pub struct MergeModel {
    pub steps: Seq<StepModel>,
    /// The source is gone once the steps are done.
    pub gone: bool,
}

/// The transfer of a whole entry.
pub open spec fn transfer_step(from: Seq<char>, to: Seq<char>, moving: bool) -> StepModel {
    if moving {
        StepModel::Move { from, to }
    } else {
        StepModel::Copy { from, to }
    }
}

/// Why an entry is not merged.
#[derive(Clone, Copy, Debug, PartialEq, Eq, Structural)]
pub enum MergeRefusal {
    /// A name is no text.
    NotText,
    /// A conflict has not been decided.
    Undecided,
}

/// The merge of an entry into a place, up to the first conflict that has not been
/// decided, or the first name that is no text.
pub open spec fn merged(
    source: Entry,
    target: Option<Entry>,
    from: Seq<char>,
    to: Seq<char>,
    moving: bool,
    decisions: Seq<FileManagerConflictDecision>,
) -> Result<MergeModel, MergeRefusal>
    decreases source, 0nat,
{
    match target {
        None => Ok(MergeModel { steps: seq![transfer_step(from, to, moving)], gone: moving }),
        Some(existing) => match (source, existing) {
            (
                Entry::Directory { children, .. },
                Entry::Directory { children: held, .. },
            ) => match merged_children(children@, held@, from, to, moving, decisions) {
                Err(refusal) => Err(refusal),
                Ok(inner) => if moving && inner.gone {
                    Ok(
                        MergeModel {
                            steps: inner.steps.push(StepModel::RemoveDirectory(from)),
                            gone: true,
                        },
                    )
                } else {
                    Ok(MergeModel { steps: inner.steps, gone: false })
                },
            },
            _ => match decision_at(to, decisions) {
                None => Err(MergeRefusal::Undecided),
                Some(FileManagerConflictAction::Skip) => Ok(
                    MergeModel { steps: Seq::empty(), gone: false },
                ),
                Some(FileManagerConflictAction::Overwrite) => Ok(
                    MergeModel {
                        steps: seq![StepModel::Remove(to), transfer_step(from, to, moving)],
                        gone: moving,
                    },
                ),
            },
        },
    }
}

/// The merge of the entries of a directory, one after the other. They are gone
/// when all of them are.
pub open spec fn merged_children(
    children: Seq<Entry>,
    held: Seq<Entry>,
    from: Seq<char>,
    to: Seq<char>,
    moving: bool,
    decisions: Seq<FileManagerConflictDecision>,
) -> Result<MergeModel, MergeRefusal>
    decreases children, 1nat,
{
    if children.len() == 0 {
        Ok(MergeModel { steps: Seq::empty(), gone: true })
    } else {
        let name = children.last().entry_text();
        match merged_children(children.drop_last(), held, from, to, moving, decisions) {
            Err(refusal) => Err(refusal),
            Ok(before) => if !children.last().is_text() {
                Err(MergeRefusal::NotText)
            } else {
                match merged(
                    children.last(),
                    tree::child_named(held, children.last().entry_name()),
                    path::joined(from, name),
                    path::joined(to, name),
                    moving,
                    decisions,
                ) {
                    Err(refusal) => Err(refusal),
                    Ok(inner) => Ok(
                        MergeModel {
                            steps: before.steps + inner.steps,
                            gone: before.gone && inner.gone,
                        },
                    ),
                }
            },
        }
    }
}

fn transfer(from: &str, to: &str, moving: bool) -> (step: MergeStep)
    ensures
        step_model(step) == transfer_step(from@, to@, moving),
{
    if moving {
        MergeStep::Move { from: from.to_owned(), to: to.to_owned() }
    } else {
        MergeStep::Copy { from: from.to_owned(), to: to.to_owned() }
    }
}

/// The steps that merge an entry into a place, and whether the source is gone
/// behind them.
pub fn merge_entry(
    source: &Entry,
    target: Option<&Entry>,
    from: &str,
    to: &str,
    moving: bool,
    decisions: &Vec<FileManagerConflictDecision>,
) -> (merge: Result<(Vec<MergeStep>, bool), MergeRefusal>)
    ensures
        merged(*source, opt_entry(target), from@, to@, moving, decisions@) == match merge {
            Ok((steps, gone)) => Ok::<MergeModel, MergeRefusal>(
                MergeModel { steps: step_models(steps@), gone },
            ),
            Err(refusal) => Err(refusal),
        },
    decreases source,
{
    let mut steps: Vec<MergeStep> = Vec::new();
    assert(step_models(steps@) =~= Seq::<StepModel>::empty());
    let existing = match target {
        None => {
            steps.push(transfer(from, to, moving));
            assert(step_models(steps@) =~= seq![transfer_step(from@, to@, moving)]);
            return Ok((steps, moving));
        },
        Some(existing) => existing,
    };
    match (source, existing) {
        (Entry::Directory { children, .. }, Entry::Directory { children: held, .. }) => {
            let mut gone = true;
            assert(children@.take(0) =~= Seq::<Entry>::empty());
            for i in 0..children.len()
                invariant
                    source matches Entry::Directory { children: all, .. } && all == children,
                    existing matches Entry::Directory { children: all, .. } && all == held,
                    target == Some(existing),
                    merged_children(
                        children@.take(i as int),
                        held@,
                        from@,
                        to@,
                        moving,
                        decisions@,
                    ) == Ok::<MergeModel, MergeRefusal>(
                        MergeModel { steps: step_models(steps@), gone },
                    ),
            {
                proof {
                    assert(children@.take(i + 1).drop_last() =~= children@.take(i as int));
                    assert(children@.take(i + 1).last() == children@[i as int]);
                }
                let child = &children[i];
                let name = match child.text() {
                    None => {
                        proof {
                            lemma_merge_stops(
                                children@,
                                held@,
                                from@,
                                to@,
                                moving,
                                decisions@,
                                i + 1,
                            );
                        }
                        return Err(MergeRefusal::NotText);
                    },
                    Some(name) => name,
                };
                let child_from = path::join(from, name.as_str());
                let child_to = path::join(to, name.as_str());
                let child_target = tree::find_child(held, child.name());
                match merge_entry(
                    child,
                    child_target,
                    child_from.as_str(),
                    child_to.as_str(),
                    moving,
                    decisions,
                ) {
                    Err(refusal) => {
                        proof {
                            lemma_merge_stops(
                                children@,
                                held@,
                                from@,
                                to@,
                                moving,
                                decisions@,
                                i + 1,
                            );
                        }
                        return Err(refusal);
                    },
                    Ok((inner, inner_gone)) => {
                        let ghost before = step_models(steps@);
                        let mut more = inner;
                        let ghost added = step_models(more@);
                        steps.append(&mut more);
                        assert(step_models(steps@) =~= before + added);
                        gone = gone && inner_gone;
                    },
                }
            }
            assert(children@.take(children@.len() as int) =~= children@);
            if moving && gone {
                let ghost before = step_models(steps@);
                steps.push(MergeStep::RemoveDirectory(from.to_owned()));
                assert(step_models(steps@) =~= before.push(StepModel::RemoveDirectory(from@)));
                return Ok((steps, true));
            }
            Ok((steps, false))
        },
        _ => match decision_for(to, decisions) {
            None => Err(MergeRefusal::Undecided),
            Some(FileManagerConflictAction::Skip) => Ok((steps, false)),
            Some(FileManagerConflictAction::Overwrite) => {
                steps.push(MergeStep::Remove(to.to_owned()));
                steps.push(transfer(from, to, moving));
                assert(step_models(steps@) =~= seq![
                    StepModel::Remove(to@),
                    transfer_step(from@, to@, moving),
                ]);
                Ok((steps, moving))
            },
        },
    }
}

proof fn lemma_merge_stops(
    children: Seq<Entry>,
    held: Seq<Entry>,
    from: Seq<char>,
    to: Seq<char>,
    moving: bool,
    decisions: Seq<FileManagerConflictDecision>,
    n: int,
)
    requires
        0 <= n <= children.len(),
        merged_children(children.take(n), held, from, to, moving, decisions) is Err,
    ensures
        merged_children(children, held, from, to, moving, decisions) == merged_children(
            children.take(n),
            held,
            from,
            to,
            moving,
            decisions,
        ),
    decreases children.len(),
{
    if n == children.len() {
        assert(children.take(n) =~= children);
    } else {
        assert(children.drop_last().take(n) =~= children.take(n));
        lemma_merge_stops(children.drop_last(), held, from, to, moving, decisions, n);
    }
}

/// A merge removes an existing entry only where that was decided.
pub proof fn merges_replace_only_what_was_decided(
    source: Entry,
    target: Option<Entry>,
    from: Seq<char>,
    to: Seq<char>,
    moving: bool,
    decisions: Seq<FileManagerConflictDecision>,
    k: int,
)
    requires
        merged(source, target, from, to, moving, decisions) is Ok,
        0 <= k < merged(source, target, from, to, moving, decisions)->Ok_0.steps.len(),
    ensures
        merged(source, target, from, to, moving, decisions)->Ok_0.steps[k] matches StepModel::Remove(
            path,
        ) ==> decision_at(path, decisions) == Some(FileManagerConflictAction::Overwrite),
    decreases source, 0nat,
{
    let model = merged(source, target, from, to, moving, decisions)->Ok_0;
    match target {
        None => {},
        Some(existing) => match (source, existing) {
            (Entry::Directory { children, .. }, Entry::Directory { children: held, .. }) => {
                let inner = merged_children(
                    children@,
                    held@,
                    from,
                    to,
                    moving,
                    decisions,
                )->Ok_0;
                if k < inner.steps.len() {
                    assert(model.steps[k] == inner.steps[k]);
                    lemma_children_replace_decided(
                        children@,
                        held@,
                        from,
                        to,
                        moving,
                        decisions,
                        k,
                    );
                }
            },
            _ => {},
        },
    }
}

proof fn lemma_children_replace_decided(
    children: Seq<Entry>,
    held: Seq<Entry>,
    from: Seq<char>,
    to: Seq<char>,
    moving: bool,
    decisions: Seq<FileManagerConflictDecision>,
    k: int,
)
    requires
        merged_children(children, held, from, to, moving, decisions) is Ok,
        0 <= k < merged_children(children, held, from, to, moving, decisions)->Ok_0.steps.len(),
    ensures
        merged_children(children, held, from, to, moving, decisions)->Ok_0.steps[k] matches
            StepModel::Remove(path) ==> decision_at(path, decisions) == Some(
            FileManagerConflictAction::Overwrite,
        ),
    decreases children, 1nat,
{
    let before = merged_children(
        children.drop_last(),
        held,
        from,
        to,
        moving,
        decisions,
    )->Ok_0;
    if k < before.steps.len() {
        lemma_children_replace_decided(
            children.drop_last(),
            held,
            from,
            to,
            moving,
            decisions,
            k,
        );
    } else {
        let name = children.last().entry_text();
        merges_replace_only_what_was_decided(
            children.last(),
            tree::child_named(held, children.last().entry_name()),
            path::joined(from, name),
            path::joined(to, name),
            moving,
            decisions,
            k - before.steps.len(),
        );
    }
}

/// Where a merge meets conflicts.
pub open spec fn conflict_places(source: Entry, target: Option<Entry>, place: Seq<char>) -> Seq<
    Seq<char>,
>
    decreases source, 0nat,
{
    match target {
        None => Seq::empty(),
        Some(existing) => match (source, existing) {
            (
                Entry::Directory { children, .. },
                Entry::Directory { children: held, .. },
            ) => children_places(children@, held@, place),
            _ => seq![place],
        },
    }
}

/// Where the merge of the entries of a directory meets conflicts.
pub open spec fn children_places(children: Seq<Entry>, held: Seq<Entry>, place: Seq<char>) -> Seq<
    Seq<char>,
>
    decreases children, 1nat,
{
    if children.len() == 0 {
        Seq::empty()
    } else {
        children_places(children.drop_last(), held, place) + conflict_places(
            children.last(),
            tree::child_named(held, children.last().entry_name()),
            path::joined(place, children.last().entry_text()),
        )
    }
}

/// The conflicts that are told are those at the places.
pub open spec fn told_at(conflicts: Seq<ConflictModel>, places: Seq<Seq<char>>) -> bool {
    &&& conflicts.len() == places.len()
    &&& forall|i: int|
        0 <= i < places.len() ==> (#[trigger] conflicts[i]).path == path::forward_slashed(places[i])
}

/// Every conflict that a merge meets is told, in order, by its place with forward
/// slashes.
pub proof fn conflicts_are_told_where_they_are_met(
    source: Entry,
    target: Option<Entry>,
    place: Seq<char>,
    count: nat,
    maximum: u64,
)
    requires
        merge_conflicts(source, target, place, count, maximum) is Ok,
    ensures
        told_at(
            merge_conflicts(source, target, place, count, maximum)->Ok_0,
            conflict_places(source, target, place),
        ),
    decreases source, 0nat,
{
    match target {
        None => {},
        Some(existing) => match (source, existing) {
            (Entry::Directory { children, .. }, Entry::Directory { children: held, .. }) => {
                lemma_children_told(children@, held@, place, count, maximum);
            },
            _ => {},
        },
    }
}

proof fn lemma_children_told(
    children: Seq<Entry>,
    held: Seq<Entry>,
    place: Seq<char>,
    count: nat,
    maximum: u64,
)
    requires
        children_conflicts(children, held, place, count, maximum) is Ok,
    ensures
        told_at(
            children_conflicts(children, held, place, count, maximum)->Ok_0,
            children_places(children, held, place),
        ),
    decreases children, 1nat,
{
    if children.len() > 0 {
        let rest = children.drop_last();
        let before = children_conflicts(rest, held, place, count, maximum)->Ok_0;
        let target = tree::child_named(held, children.last().entry_name());
        let inner = path::joined(place, children.last().entry_text());
        lemma_children_told(rest, held, place, count, maximum);
        conflicts_are_told_where_they_are_met(
            children.last(),
            target,
            inner,
            count + before.len(),
            maximum,
        );
        let all = children_conflicts(children, held, place, count, maximum)->Ok_0;
        let places = children_places(children, held, place);
        let last = conflict_places(children.last(), target, inner);
        let more = merge_conflicts(
            children.last(),
            target,
            inner,
            count + before.len(),
            maximum,
        )->Ok_0;
        assert forall|i: int| 0 <= i < places.len() implies (#[trigger] all[i]).path
            == path::forward_slashed(places[i]) by {
            if i < before.len() {
                assert(all[i] == before[i]);
            } else {
                assert(all[i] == more[i - before.len()]);
                assert(places[i] == last[i - before.len()]);
            }
        }
    }
}

/// Each of the places has been decided about.
pub open spec fn all_decided(
    places: Seq<Seq<char>>,
    decisions: Seq<FileManagerConflictDecision>,
) -> bool {
    forall|i: int| 0 <= i < places.len() ==> decision_at(#[trigger] places[i], decisions) is Some
}

/// Once every conflict of a merge has been decided, the merge goes through. It is
/// said of places without a backslash: a decision names the place with forward
/// slashes, and the merge looks for it under the name that it met.
pub proof fn decided_merges_go_through(
    source: Entry,
    target: Option<Entry>,
    from: Seq<char>,
    to: Seq<char>,
    moving: bool,
    decisions: Seq<FileManagerConflictDecision>,
    count: nat,
    maximum: u64,
)
    requires
        merge_conflicts(source, target, to, count, maximum) is Ok,
        forall|i: int|
            0 <= i < merge_conflicts(source, target, to, count, maximum)->Ok_0.len()
                ==> decision_at(
                (#[trigger] merge_conflicts(source, target, to, count, maximum)->Ok_0[i]).path,
                decisions,
            ) is Some,
        forall|i: int|
            0 <= i < conflict_places(source, target, to).len() ==> !(
            #[trigger] conflict_places(source, target, to)[i]).contains('\\'),
    ensures
        merged(source, target, from, to, moving, decisions) is Ok,
{
    conflicts_are_told_where_they_are_met(source, target, to, count, maximum);
    let told = merge_conflicts(source, target, to, count, maximum)->Ok_0;
    let places = conflict_places(source, target, to);
    assert forall|i: int| 0 <= i < places.len() implies decision_at(
        #[trigger] places[i],
        decisions,
    ) is Some by {
        assert(path::forward_slashed(places[i]) =~= places[i]) by {
            assert forall|k: int| 0 <= k < places[i].len() implies path::forward_slashed(
                places[i],
            )[k] == places[i][k] by {
                assert(places[i].contains(places[i][k]));
            }
        }
        assert(decision_at(told[i].path, decisions) is Some);
    }
    lemma_decided(source, target, from, to, moving, decisions, count, maximum);
}

proof fn lemma_decided(
    source: Entry,
    target: Option<Entry>,
    from: Seq<char>,
    to: Seq<char>,
    moving: bool,
    decisions: Seq<FileManagerConflictDecision>,
    count: nat,
    maximum: u64,
)
    requires
        merge_conflicts(source, target, to, count, maximum) is Ok,
        all_decided(conflict_places(source, target, to), decisions),
    ensures
        merged(source, target, from, to, moving, decisions) is Ok,
    decreases source, 0nat,
{
    match target {
        None => {},
        Some(existing) => match (source, existing) {
            (Entry::Directory { children, .. }, Entry::Directory { children: held, .. }) => {
                lemma_decided_children(
                    children@,
                    held@,
                    from,
                    to,
                    moving,
                    decisions,
                    count,
                    maximum,
                );
            },
            _ => {
                assert(conflict_places(source, target, to)[0] == to);
            },
        },
    }
}

proof fn lemma_decided_children(
    children: Seq<Entry>,
    held: Seq<Entry>,
    from: Seq<char>,
    to: Seq<char>,
    moving: bool,
    decisions: Seq<FileManagerConflictDecision>,
    count: nat,
    maximum: u64,
)
    requires
        all_are_texts(children),
        children_conflicts(children, held, to, count, maximum) is Ok,
        all_decided(children_places(children, held, to), decisions),
    ensures
        merged_children(children, held, from, to, moving, decisions) is Ok,
    decreases children, 1nat,
{
    if children.len() > 0 {
        let rest = children.drop_last();
        let name = children.last().entry_text();
        let all = children_places(children, held, to);
        let before = children_places(rest, held, to);
        let target = tree::child_named(held, children.last().entry_name());
        let last = conflict_places(children.last(), target, path::joined(to, name));
        assert forall|i: int| 0 <= i < before.len() implies decision_at(
            #[trigger] before[i],
            decisions,
        ) is Some by {
            assert(all[i] == before[i]);
        }
        assert forall|i: int| 0 <= i < rest.len() implies (#[trigger] rest[i]).is_text() by {
            assert(children[i].is_text());
        }
        lemma_decided_children(rest, held, from, to, moving, decisions, count, maximum);
        assert forall|i: int| 0 <= i < last.len() implies decision_at(
            #[trigger] last[i],
            decisions,
        ) is Some by {
            assert(all[before.len() + i] == last[i]);
        }
        assert(children[children.len() - 1].is_text());
        lemma_decided(
            children.last(),
            target,
            path::joined(from, name),
            path::joined(to, name),
            moving,
            decisions,
            count + children_conflicts(rest, held, to, count, maximum)->Ok_0.len(),
            maximum,
        );
    }
}

/// What stands at the target where the way leads in the source.
pub open spec fn met_along(source: Entry, target: Option<Entry>, way: Seq<int>) -> Option<Entry>
    decreases way.len(),
{
    if way.len() == 0 {
        target
    } else {
        let next = source.entries()[way[0]];
        met_along(
            next,
            tree::child_named(target->Some_0.entries(), next.entry_name()),
            way.drop_first(),
        )
    }
}

/// The way leads through directories that stand on both sides, to an entry that
/// meets nothing at the target, or something that it cannot be merged with.
pub open spec fn is_met(source: Entry, target: Option<Entry>, way: Seq<int>) -> bool
    decreases way.len(),
{
    let merges = source is Directory && target is Some && target->Some_0 is Directory;
    if way.len() == 0 {
        !merges
    } else {
        merges && 0 <= way[0] < source.entries().len() && is_met(
            source.entries()[way[0]],
            tree::child_named(
                target->Some_0.entries(),
                source.entries()[way[0]].entry_name(),
            ),
            way.drop_first(),
        )
    }
}

/// The path that the way leads to, seen from the path of the top.
pub open spec fn joined_along(source: Entry, top: Seq<char>, way: Seq<int>) -> Seq<char>
    decreases way.len(),
{
    if way.len() == 0 {
        top
    } else {
        let next = source.entries()[way[0]];
        joined_along(next, path::joined(top, next.entry_text()), way.drop_first())
    }
}

/// The conflict that is told where the way leads.
pub open spec fn conflict_along(
    source: Entry,
    target: Option<Entry>,
    place: Seq<char>,
    way: Seq<int>,
) -> ConflictModel {
    ConflictModel {
        path: path::forward_slashed(joined_along(source, place, way)),
        existing_kind: met_along(source, target, way)->Some_0.entry_kind(),
        incoming_kind: tree::entry_along(source, way).entry_kind(),
    }
}

proof fn lemma_child_conflicts(
    children: Seq<Entry>,
    held: Seq<Entry>,
    place: Seq<char>,
    count: nat,
    maximum: u64,
    i: int,
) -> (before: nat)
    requires
        0 <= i < children.len(),
        children_conflicts(children, held, place, count, maximum) is Ok,
    ensures
        ({
            let part = merge_conflicts(
                children[i],
                tree::child_named(held, children[i].entry_name()),
                path::joined(place, children[i].entry_text()),
                before,
                maximum,
            );
            &&& part is Ok
            &&& forall|conflict: ConflictModel| #[trigger]
                part->Ok_0.contains(conflict) ==> children_conflicts(
                    children,
                    held,
                    place,
                    count,
                    maximum,
                )->Ok_0.contains(conflict)
        }),
    decreases children.len(),
{
    let rest = children.drop_last();
    let earlier = children_conflicts(rest, held, place, count, maximum)->Ok_0;
    let all = children_conflicts(children, held, place, count, maximum)->Ok_0;
    if i < rest.len() {
        let before = lemma_child_conflicts(rest, held, place, count, maximum, i);
        let part = merge_conflicts(
            children[i],
            tree::child_named(held, children[i].entry_name()),
            path::joined(place, children[i].entry_text()),
            before,
            maximum,
        )->Ok_0;
        assert forall|conflict: ConflictModel| #[trigger]
            part.contains(conflict) implies all.contains(conflict) by {
            let k = earlier.index_of(conflict);
            assert(all[k] == conflict);
        }
        before
    } else {
        let before = count + earlier.len();
        let part = merge_conflicts(
            children[i],
            tree::child_named(held, children[i].entry_name()),
            path::joined(place, children[i].entry_text()),
            before,
            maximum,
        )->Ok_0;
        assert forall|conflict: ConflictModel| #[trigger]
            part.contains(conflict) implies all.contains(conflict) by {
            let k = part.index_of(conflict);
            assert(all[earlier.len() + k] == conflict);
        }
        before
    }
}

/// Every entry that meets something that it cannot be merged with is told as a
/// conflict, however deep it lies, with what it is and what it meets.
pub proof fn every_conflict_is_told(
    source: Entry,
    target: Option<Entry>,
    place: Seq<char>,
    count: nat,
    maximum: u64,
    way: Seq<int>,
)
    requires
        merge_conflicts(source, target, place, count, maximum) is Ok,
        is_met(source, target, way),
        met_along(source, target, way) is Some,
    ensures
        merge_conflicts(source, target, place, count, maximum)->Ok_0.contains(
            conflict_along(source, target, place, way),
        ),
    decreases way.len(),
{
    let all = merge_conflicts(source, target, place, count, maximum)->Ok_0;
    if way.len() == 0 {
        assert(all[0] == conflict_along(source, target, place, way));
    } else {
        let children = source.entries();
        let held = target->Some_0.entries();
        let next = children[way[0]];
        let before = lemma_child_conflicts(children, held, place, count, maximum, way[0]);
        let met = tree::child_named(held, next.entry_name());
        let inner = path::joined(place, next.entry_text());
        every_conflict_is_told(next, met, inner, before, maximum, way.drop_first());
        let part = merge_conflicts(next, met, inner, before, maximum)->Ok_0;
        assert(part.contains(conflict_along(next, met, inner, way.drop_first())));
    }
}

proof fn lemma_met_step(source: Entry, target: Option<Entry>, i: int, rest: Seq<int>)
    requires
        source is Directory,
        target is Some,
        target->Some_0 is Directory,
        0 <= i < source.entries().len(),
        is_met(
            source.entries()[i],
            tree::child_named(
                target->Some_0.entries(),
                source.entries()[i].entry_name(),
            ),
            rest,
        ),
    ensures
        is_met(source, target, seq![i] + rest),
        met_along(source, target, seq![i] + rest) == met_along(
            source.entries()[i],
            tree::child_named(
                target->Some_0.entries(),
                source.entries()[i].entry_name(),
            ),
            rest,
        ),
        tree::entry_along(source, seq![i] + rest) == tree::entry_along(source.entries()[i], rest),
        forall|top: Seq<char>| #[trigger]
            joined_along(source, top, seq![i] + rest) == joined_along(
                source.entries()[i],
                path::joined(top, source.entries()[i].entry_text()),
                rest,
            ),
{
    assert((seq![i] + rest).drop_first() =~= rest);
}

/// Only such entries are told as conflicts.
pub proof fn only_conflicts_are_told(
    source: Entry,
    target: Option<Entry>,
    place: Seq<char>,
    count: nat,
    maximum: u64,
    k: int,
) -> (way: Seq<int>)
    requires
        merge_conflicts(source, target, place, count, maximum) is Ok,
        0 <= k < merge_conflicts(source, target, place, count, maximum)->Ok_0.len(),
    ensures
        is_met(source, target, way),
        met_along(source, target, way) is Some,
        merge_conflicts(source, target, place, count, maximum)->Ok_0[k] == conflict_along(
            source,
            target,
            place,
            way,
        ),
    decreases source, 0nat, 0int,
{
    match (source, target->Some_0) {
        (Entry::Directory { children, .. }, Entry::Directory { children: held, .. }) => {
            assert(children@.take(children@.len() as int) =~= children@);
            assert(decreases_to!(source => children));
            assert(decreases_to!(children => children@));
            lemma_only_children_conflicts(
                source,
                target,
                children@.len() as int,
                place,
                count,
                maximum,
                k,
            )
        },
        _ => Seq::empty(),
    }
}

proof fn lemma_only_children_conflicts(
    source: Entry,
    target: Option<Entry>,
    n: int,
    place: Seq<char>,
    count: nat,
    maximum: u64,
    k: int,
) -> (way: Seq<int>)
    requires
        source is Directory,
        target is Some,
        target->Some_0 is Directory,
        0 <= n <= source.entries().len(),
        children_conflicts(
            source.entries().take(n),
            target->Some_0.entries(),
            place,
            count,
            maximum,
        ) is Ok,
        0 <= k < children_conflicts(
            source.entries().take(n),
            target->Some_0.entries(),
            place,
            count,
            maximum,
        )->Ok_0.len(),
    ensures
        is_met(source, target, way),
        met_along(source, target, way) is Some,
        children_conflicts(
            source.entries().take(n),
            target->Some_0.entries(),
            place,
            count,
            maximum,
        )->Ok_0[k] == conflict_along(source, target, place, way),
    decreases source.entries(), 1nat, n,
{
    let children = source.entries();
    let held = target->Some_0.entries();
    let part = children.take(n);
    let rest = children.take(n - 1);
    assert(part.drop_last() =~= rest);
    assert(part.last() == children[n - 1]);
    let before = children_conflicts(rest, held, place, count, maximum)->Ok_0;
    if k < before.len() {
        lemma_only_children_conflicts(source, target, n - 1, place, count, maximum, k)
    } else {
        let next = children[n - 1];
        let met = tree::child_named(held, next.entry_name());
        assert(decreases_to!(children => children[n - 1]));
        let inner = only_conflicts_are_told(
            next,
            met,
            path::joined(place, next.entry_text()),
            count + before.len(),
            maximum,
            k - before.len(),
        );
        lemma_met_step(source, target, n - 1, inner);
        seq![n - 1] + inner
    }
}

/// The steps of the `i`-th entry of a directory stand among those of the directory.
proof fn lemma_child_merge(
    children: Seq<Entry>,
    held: Seq<Entry>,
    from: Seq<char>,
    to: Seq<char>,
    moving: bool,
    decisions: Seq<FileManagerConflictDecision>,
    i: int,
) -> (at: nat)
    requires
        0 <= i < children.len(),
        merged_children(children, held, from, to, moving, decisions) is Ok,
    ensures
        ({
            let part = merged(
                children[i],
                tree::child_named(held, children[i].entry_name()),
                path::joined(from, children[i].entry_text()),
                path::joined(to, children[i].entry_text()),
                moving,
                decisions,
            );
            let all = merged_children(children, held, from, to, moving, decisions)->Ok_0;
            &&& part is Ok
            &&& at + part->Ok_0.steps.len() <= all.steps.len()
            &&& all.steps.subrange(at as int, (at + part->Ok_0.steps.len()) as int)
                == part->Ok_0.steps
            &&& all.gone ==> part->Ok_0.gone
        }),
    decreases children.len(),
{
    let rest = children.drop_last();
    let before = merged_children(rest, held, from, to, moving, decisions)->Ok_0;
    let all = merged_children(children, held, from, to, moving, decisions)->Ok_0;
    let part = merged(
        children[i],
        tree::child_named(held, children[i].entry_name()),
        path::joined(from, children[i].entry_text()),
        path::joined(to, children[i].entry_text()),
        moving,
        decisions,
    );
    if i < rest.len() {
        let at = lemma_child_merge(rest, held, from, to, moving, decisions, i);
        let n = part->Ok_0.steps.len();
        assert(all.steps.subrange(at as int, (at + n) as int) =~= before.steps.subrange(
            at as int,
            (at + n) as int,
        ));
        at
    } else {
        let at = before.steps.len();
        let n = part->Ok_0.steps.len();
        assert(all.steps.subrange(at as int, (at + n) as int) =~= part->Ok_0.steps);
        at
    }
}

/// Every entry of a merge gets to its place, however deep it lies: where nothing
/// stands it is moved or copied there as a whole, and where something stands that
/// it cannot be merged with, that is removed first if so decided. Otherwise the
/// entry stays where it is, and the source is not gone.
pub proof fn merges_bring_everything(
    source: Entry,
    target: Option<Entry>,
    from: Seq<char>,
    to: Seq<char>,
    moving: bool,
    decisions: Seq<FileManagerConflictDecision>,
    way: Seq<int>,
)
    requires
        merged(source, target, from, to, moving, decisions) is Ok,
        is_met(source, target, way),
    ensures
        ({
            let merge = merged(source, target, from, to, moving, decisions)->Ok_0;
            let start = joined_along(source, from, way);
            let place = joined_along(source, to, way);
            let transfer = if moving {
                StepModel::Move { from: start, to: place }
            } else {
                StepModel::Copy { from: start, to: place }
            };
            match met_along(source, target, way) {
                None => merge.steps.contains(transfer),
                Some(_) => match decision_at(place, decisions) {
                    Some(FileManagerConflictAction::Overwrite) => exists|k: int|
                        0 <= k < merge.steps.len() - 1 && #[trigger] merge.steps[k]
                            == StepModel::Remove(place) && merge.steps[k + 1] == transfer,
                    Some(FileManagerConflictAction::Skip) => !merge.gone,
                    None => false,
                },
            }
        }),
    decreases way.len(),
{
    let merge = merged(source, target, from, to, moving, decisions)->Ok_0;
    if way.len() == 0 {
        if target is None {
            assert(merge.steps[0] == transfer_step(from, to, moving));
        } else if decision_at(to, decisions) == Some(FileManagerConflictAction::Overwrite) {
            assert(merge.steps[0] == StepModel::Remove(to));
        }
    } else {
        let children = source.entries();
        let held = target->Some_0.entries();
        let next = children[way[0]];
        let inner = merged_children(children, held, from, to, moving, decisions)->Ok_0;
        let at = lemma_child_merge(children, held, from, to, moving, decisions, way[0]);
        let met = tree::child_named(held, next.entry_name());
        let inner_from = path::joined(from, next.entry_text());
        let inner_to = path::joined(to, next.entry_text());
        let part = merged(next, met, inner_from, inner_to, moving, decisions)->Ok_0;
        merges_bring_everything(
            next,
            met,
            inner_from,
            inner_to,
            moving,
            decisions,
            way.drop_first(),
        );
        let n = part.steps.len();
        let range = inner.steps.subrange(at as int, (at + n) as int);
        assert forall|k: int| 0 <= k < n implies merge.steps[at + k] == #[trigger] part.steps[k] by {
            assert(range[k] == inner.steps[at + k]);
        }
        let start = joined_along(source, from, way);
        let place = joined_along(source, to, way);
        let transfer = transfer_step(start, place, moving);
        match met_along(source, target, way) {
            None => {
                let k = part.steps.index_of(transfer);
                assert(part.steps[k] == transfer);
                assert(merge.steps[at + k] == transfer);
            },
            Some(_) => match decision_at(place, decisions) {
                Some(FileManagerConflictAction::Overwrite) => {
                    let k = choose|k: int|
                        0 <= k < part.steps.len() - 1 && #[trigger] part.steps[k]
                            == StepModel::Remove(place) && part.steps[k + 1] == transfer;
                    assert(merge.steps[at + k] == part.steps[k]);
                    assert(part.steps[k + 1] == transfer);
                    assert(merge.steps[at + (k + 1)] == part.steps[k + 1]);
                    assert(merge.steps[at + k] == StepModel::Remove(place));
                    assert(merge.steps[(at + k) + 1] == transfer);
                },
                _ => {},
            },
        }
    }
}

/// What a merge brings, where it brings it to.
pub open spec fn brings(
    source: Entry,
    target: Option<Entry>,
    from: Seq<char>,
    to: Seq<char>,
    decisions: Seq<FileManagerConflictDecision>,
    start: Seq<char>,
    place: Seq<char>,
    way: Seq<int>,
) -> bool {
    &&& is_met(source, target, way)
    &&& start == joined_along(source, from, way)
    &&& place == joined_along(source, to, way)
    &&& met_along(source, target, way) is None || decision_at(place, decisions) == Some(
        FileManagerConflictAction::Overwrite,
    )
}

/// A merge brings nothing else: each move or copy is of an entry of the source, to
/// its own place, where nothing stands or what stands there is to go. What is
/// removed stands where an entry is to come and was decided to go. A copy moves
/// nothing and removes no directory; a move removes only directories of the source.
pub proof fn merges_bring_nothing_else(
    source: Entry,
    target: Option<Entry>,
    from: Seq<char>,
    to: Seq<char>,
    moving: bool,
    decisions: Seq<FileManagerConflictDecision>,
    k: int,
) -> (way: Seq<int>)
    requires
        merged(source, target, from, to, moving, decisions) is Ok,
        0 <= k < merged(source, target, from, to, moving, decisions)->Ok_0.steps.len(),
    ensures
        match merged(source, target, from, to, moving, decisions)->Ok_0.steps[k] {
            StepModel::Move { from: start, to: place } => moving && brings(
                source,
                target,
                from,
                to,
                decisions,
                start,
                place,
                way,
            ),
            StepModel::Copy { from: start, to: place } => !moving && brings(
                source,
                target,
                from,
                to,
                decisions,
                start,
                place,
                way,
            ),
            StepModel::Remove(gone) => {
                &&& brings(source, target, from, to, decisions, joined_along(source, from, way), gone, way)
                &&& met_along(source, target, way) is Some
            },
            StepModel::RemoveDirectory(gone) => {
                &&& moving
                &&& tree::leads(source, way)
                &&& tree::entry_along(source, way) is Directory
                &&& gone == joined_along(source, from, way)
            },
        },
    decreases source, 0nat, 0int,
{
    match target {
        None => Seq::empty(),
        Some(existing) => match (source, existing) {
            (Entry::Directory { children, .. }, Entry::Directory { children: held, .. }) => {
                assert(children@.take(children@.len() as int) =~= children@);
                assert(decreases_to!(source => children));
                assert(decreases_to!(children => children@));
                let inner = merged_children(
                    children@,
                    held@,
                    from,
                    to,
                    moving,
                    decisions,
                )->Ok_0;
                if k < inner.steps.len() {
                    lemma_children_bring_nothing_else(
                        source,
                        target,
                        children@.len() as int,
                        from,
                        to,
                        moving,
                        decisions,
                        k,
                    )
                } else {
                    Seq::empty()
                }
            },
            _ => Seq::empty(),
        },
    }
}

proof fn lemma_children_bring_nothing_else(
    source: Entry,
    target: Option<Entry>,
    n: int,
    from: Seq<char>,
    to: Seq<char>,
    moving: bool,
    decisions: Seq<FileManagerConflictDecision>,
    k: int,
) -> (way: Seq<int>)
    requires
        source is Directory,
        target is Some,
        target->Some_0 is Directory,
        0 <= n <= source.entries().len(),
        merged_children(
            source.entries().take(n),
            target->Some_0.entries(),
            from,
            to,
            moving,
            decisions,
        ) is Ok,
        0 <= k < merged_children(
            source.entries().take(n),
            target->Some_0.entries(),
            from,
            to,
            moving,
            decisions,
        )->Ok_0.steps.len(),
    ensures
        match merged_children(
            source.entries().take(n),
            target->Some_0.entries(),
            from,
            to,
            moving,
            decisions,
        )->Ok_0.steps[k] {
            StepModel::Move { from: start, to: place } => moving && brings(
                source,
                target,
                from,
                to,
                decisions,
                start,
                place,
                way,
            ),
            StepModel::Copy { from: start, to: place } => !moving && brings(
                source,
                target,
                from,
                to,
                decisions,
                start,
                place,
                way,
            ),
            StepModel::Remove(gone) => {
                &&& brings(source, target, from, to, decisions, joined_along(source, from, way), gone, way)
                &&& met_along(source, target, way) is Some
            },
            StepModel::RemoveDirectory(gone) => {
                &&& moving
                &&& tree::leads(source, way)
                &&& tree::entry_along(source, way) is Directory
                &&& gone == joined_along(source, from, way)
            },
        },
    decreases source.entries(), 1nat, n,
{
    let children = source.entries();
    let held = target->Some_0.entries();
    let part = children.take(n);
    let rest = children.take(n - 1);
    assert(part.drop_last() =~= rest);
    assert(part.last() == children[n - 1]);
    let before = merged_children(rest, held, from, to, moving, decisions)->Ok_0;
    if k < before.steps.len() {
        lemma_children_bring_nothing_else(
            source,
            target,
            n - 1,
            from,
            to,
            moving,
            decisions,
            k,
        )
    } else {
        let next = children[n - 1];
        let met = tree::child_named(held, next.entry_name());
        let inner_from = path::joined(from, next.entry_text());
        let inner_to = path::joined(to, next.entry_text());
        assert(decreases_to!(children => children[n - 1]));
        let inner = merges_bring_nothing_else(
            next,
            met,
            inner_from,
            inner_to,
            moving,
            decisions,
            k - before.steps.len(),
        );
        if is_met(next, met, inner) {
            lemma_met_step(source, target, n - 1, inner);
        }
        if tree::leads(next, inner) {
            tree::lemma_step(source, n - 1, inner);
            assert((seq![n - 1] + inner).drop_first() =~= inner);
        }
        seq![n - 1] + inner
    }
}

/// The first decision about a path counts.
pub proof fn first_decisions_count(
    path: Seq<char>,
    decisions: Seq<FileManagerConflictDecision>,
    i: int,
)
    requires
        0 <= i < decisions.len(),
        decisions[i].path@ == path,
        forall|j: int| 0 <= j < i ==> (#[trigger] decisions[j]).path@ != path,
    ensures
        decision_at(path, decisions) == Some(decisions[i].action),
    decreases decisions.len(),
{
    if i > 0 {
        let rest = decisions.drop_first();
        assert(decisions[0].path@ != path);
        assert forall|j: int| 0 <= j < i - 1 implies (#[trigger] rest[j]).path@ != path by {
            assert(rest[j] == decisions[j + 1]);
        }
        first_decisions_count(path, rest, i - 1);
    }
}

/// A path that nobody decided about has no decision.
pub proof fn no_decision_is_made_up(path: Seq<char>, decisions: Seq<FileManagerConflictDecision>)
    requires
        forall|j: int| 0 <= j < decisions.len() ==> (#[trigger] decisions[j]).path@ != path,
    ensures
        decision_at(path, decisions) is None,
    decreases decisions.len(),
{
    if decisions.len() > 0 {
        let rest = decisions.drop_first();
        assert(decisions[0].path@ != path);
        assert forall|j: int| 0 <= j < rest.len() implies (#[trigger] rest[j]).path@ != path by {
            assert(rest[j] == decisions[j + 1]);
        }
        no_decision_is_made_up(path, rest);
    }
}

/// What stands at a destination is kept or removed as was decided, and an
/// operation goes on over it only if somebody decided.
pub proof fn destinations_are_judged_by_decision(
    exists: bool,
    decision: Option<FileManagerConflictAction>,
)
    ensures
        destination_verdict(exists, decision) == Destination::Free <==> !exists,
        destination_verdict(exists, decision) == Destination::Keep <==> exists && decision == Some(
            FileManagerConflictAction::Skip,
        ),
        destination_verdict(exists, decision) == Destination::Replace <==> exists && decision
            == Some(FileManagerConflictAction::Overwrite),
        destination_verdict(exists, decision) == Destination::Undecided <==> exists && decision
            is None,
{
}

proof fn lemma_all_children_gone(
    children: Seq<Entry>,
    held: Seq<Entry>,
    from: Seq<char>,
    to: Seq<char>,
    moving: bool,
    decisions: Seq<FileManagerConflictDecision>,
)
    requires
        merged_children(children, held, from, to, moving, decisions) is Ok,
        forall|i: int|
            #![trigger children[i]]
            0 <= i < children.len() ==> (merged(
                children[i],
                tree::child_named(held, children[i].entry_name()),
                path::joined(from, children[i].entry_text()),
                path::joined(to, children[i].entry_text()),
                moving,
                decisions,
            ) matches Ok(part) ==> part.gone),
    ensures
        merged_children(children, held, from, to, moving, decisions)->Ok_0.gone,
    decreases children.len(),
{
    if children.len() > 0 {
        let rest = children.drop_last();
        assert forall|i: int|
            #![trigger rest[i]]
            0 <= i < rest.len() implies (merged(
            rest[i],
            tree::child_named(held, rest[i].entry_name()),
            path::joined(from, rest[i].entry_text()),
            path::joined(to, rest[i].entry_text()),
            moving,
            decisions,
        ) matches Ok(part) ==> part.gone) by {
            assert(children[i] == rest[i]);
        }
        lemma_all_children_gone(rest, held, from, to, moving, decisions);
        let last = children[children.len() - 1];
        assert(last == children.last());
    }
}

/// The source of a move is gone in the end, unless something of it was to be
/// skipped.
pub proof fn moved_sources_are_gone(
    source: Entry,
    target: Option<Entry>,
    from: Seq<char>,
    to: Seq<char>,
    decisions: Seq<FileManagerConflictDecision>,
)
    requires
        merged(source, target, from, to, true, decisions) is Ok,
        forall|way: Seq<int>| #[trigger]
            is_met(source, target, way) && met_along(source, target, way) is Some ==> decision_at(
                joined_along(source, to, way),
                decisions,
            ) == Some(FileManagerConflictAction::Overwrite),
    ensures
        merged(source, target, from, to, true, decisions)->Ok_0.gone,
    decreases source,
{
    let here: Seq<int> = Seq::empty();
    if target is Some && source is Directory && target->Some_0 is Directory {
        let children = source.entries();
        let held = target->Some_0.entries();
        assert forall|i: int|
            #![trigger children[i]]
            0 <= i < children.len() implies (merged(
            children[i],
            tree::child_named(held, children[i].entry_name()),
            path::joined(from, children[i].entry_text()),
            path::joined(to, children[i].entry_text()),
            true,
            decisions,
        ) matches Ok(part) ==> part.gone) by {
            let next = children[i];
            let met = tree::child_named(held, next.entry_name());
            let inner_to = path::joined(to, next.entry_text());
            let inner_from = path::joined(from, next.entry_text());
            assert forall|way: Seq<int>| #[trigger]
                is_met(next, met, way) && met_along(next, met, way) is Some implies decision_at(
                joined_along(next, inner_to, way),
                decisions,
            ) == Some(FileManagerConflictAction::Overwrite) by {
                lemma_met_step(source, target, i, way);
                assert(is_met(source, target, seq![i] + way));
                assert(joined_along(source, to, seq![i] + way) == joined_along(
                    next,
                    inner_to,
                    way,
                ));
            }
            match source {
                Entry::Directory { children: list, .. } => {
                    assert(decreases_to!(source => list));
                    assert(decreases_to!(list => list@));
                    assert(decreases_to!(list@ => list@[i]));
                },
                _ => {},
            }
            if merged(next, met, inner_from, inner_to, true, decisions) is Ok {
                moved_sources_are_gone(next, met, inner_from, inner_to, decisions);
            }
        }
        lemma_all_children_gone(children, held, from, to, true, decisions);
    } else {
        assert(is_met(source, target, here));
        assert(met_along(source, target, here) == target);
    }
}

} // verus!
