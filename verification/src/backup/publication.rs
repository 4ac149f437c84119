//! Publication of a restore.
//!
//! Each destination is replaced in small steps that a crash may interrupt at
//! any point: the original is moved aside, the intent is recorded, and the
//! restored tree is moved in. Rolling back looks at what exists and undoes
//! whatever had been done.

use vstd::prelude::*;

use crate::backup::verification;
use crate::backup::restore_journal::RestoreJournal;
use crate::backup::restore_journal::RestoreJournalEntry;
use crate::backup::restore_journal::RestoreOwnedVolume;
use crate::path;
use crate::text;

verus! {

/// A step on one entry of the journal.
#[derive(Clone, Copy, Debug, PartialEq, Eq, Structural)]
pub enum EntryStep {
    /// Rename the destination to the rollback path.
    MoveAside,
    /// Record durably that the entry is being published.
    MarkPublished,
    /// Rename the source to the destination.
    MoveIn,
    /// Remove what stands at the destination.
    RemoveDestination,
    /// Rename the rollback path to the destination.
    MoveBack,
    /// Record durably that the entry is not published.
    MarkUnpublished,
    /// Remove what stands at the rollback path, if anything does.
    RemoveRollback,
    /// Remove what stands at the source, if anything does.
    RemoveSource,
    /// Make the renames in the destination's directory durable.
    SyncDestination,
    /// Make the renames in the source's directory durable.
    SyncSource,
}

/// What a step does to the filesystem.
#[derive(Clone, Debug, PartialEq, Eq)]
pub enum Effect {
    Rename { from: String, to: String },
    Remove(String),
    SyncParent(String),
    /// Write the journal with the entry's mark set or cleared.
    Mark(bool),
}

/// The effect of a step on an entry.
pub fn effect_of(entry: &RestoreJournalEntry, step: EntryStep) -> (effect: Effect)
    ensures
        match step {
            EntryStep::MoveAside => effect matches Effect::Rename { from, to } && from@
                == entry.destination@ && to@ == entry.rollback@,
            EntryStep::MarkPublished => effect == Effect::Mark(true),
            EntryStep::MoveIn => effect matches Effect::Rename { from, to } && from@
                == entry.source@ && to@ == entry.destination@,
            EntryStep::RemoveDestination => effect matches Effect::Remove(path) && path@
                == entry.destination@,
            EntryStep::MoveBack => effect matches Effect::Rename { from, to } && from@
                == entry.rollback@ && to@ == entry.destination@,
            EntryStep::MarkUnpublished => effect == Effect::Mark(false),
            EntryStep::RemoveRollback => effect matches Effect::Remove(path) && path@
                == entry.rollback@,
            EntryStep::RemoveSource => effect matches Effect::Remove(path) && path@
                == entry.source@,
            EntryStep::SyncDestination => effect matches Effect::SyncParent(path) && path@
                == entry.destination@,
            EntryStep::SyncSource => effect matches Effect::SyncParent(path) && path@
                == entry.source@,
        },
{
    match step {
        EntryStep::MoveAside => Effect::Rename {
            from: entry.destination.clone(),
            to: entry.rollback.clone(),
        },
        EntryStep::MarkPublished => Effect::Mark(true),
        EntryStep::MoveIn => Effect::Rename {
            from: entry.source.clone(),
            to: entry.destination.clone(),
        },
        EntryStep::RemoveDestination => Effect::Remove(entry.destination.clone()),
        EntryStep::MoveBack => Effect::Rename {
            from: entry.rollback.clone(),
            to: entry.destination.clone(),
        },
        EntryStep::MarkUnpublished => Effect::Mark(false),
        EntryStep::RemoveRollback => Effect::Remove(entry.rollback.clone()),
        EntryStep::RemoveSource => Effect::Remove(entry.source.clone()),
        EntryStep::SyncDestination => Effect::SyncParent(entry.destination.clone()),
        EntryStep::SyncSource => Effect::SyncParent(entry.source.clone()),
    }
}

// ---------------------------------------------------------------------------
// Scripts
// ---------------------------------------------------------------------------

/// The destination is there exactly if it was there when the entry was made.
pub open spec fn existence_matches(entry: RestoreJournalEntry, destination_exists: bool) -> bool {
    entry.original_existed == Some(destination_exists)
}

/// Whether the destination is there exactly if it was there when the entry was
/// made.
pub fn destination_existence_matches(entry: &RestoreJournalEntry, destination_exists: bool) -> (matches:
    bool)
    ensures
        matches == existence_matches(*entry, destination_exists),
{
    match entry.original_existed {
        Some(existed) => existed == destination_exists,
        None => false,
    }
}

/// The steps that publish an entry whose destination is or is not there.
pub open spec fn publish_steps(destination_exists: bool) -> Seq<EntryStep> {
    if destination_exists {
        seq![
            EntryStep::MoveAside,
            EntryStep::SyncDestination,
            EntryStep::MarkPublished,
            EntryStep::MoveIn,
            EntryStep::SyncDestination,
        ]
    } else {
        seq![EntryStep::MarkPublished, EntryStep::MoveIn, EntryStep::SyncDestination]
    }
}

/// The steps that publish one entry, or nothing when its destination changed
/// and everything has to be rolled back.
pub fn publish_restore_entry(entry: &RestoreJournalEntry, destination_exists: bool) -> (script:
    Option<Vec<EntryStep>>)
    ensures
        match script {
            Some(steps) => existence_matches(*entry, destination_exists) && steps@
                == publish_steps(destination_exists),
            None => !existence_matches(*entry, destination_exists),
        },
{
    if !destination_existence_matches(entry, destination_exists) {
        return None;
    }
    let mut steps: Vec<EntryStep> = Vec::new();
    if destination_exists {
        steps.push(EntryStep::MoveAside);
        steps.push(EntryStep::SyncDestination);
    }
    steps.push(EntryStep::MarkPublished);
    steps.push(EntryStep::MoveIn);
    steps.push(EntryStep::SyncDestination);
    assert(steps@ =~= publish_steps(destination_exists));
    Some(steps)
}

/// What to do when a step of the publication fails.
#[derive(Clone, Copy, Debug, PartialEq, Eq, Structural)]
pub enum OnFailure {
    /// Roll back what was published and report that.
    RollBack,
    /// Leave the journal for recovery.
    Abort,
}

/// A rename that fails is rolled back; anything else leaves the publication to
/// recovery.
pub fn publish_failure(step: EntryStep) -> (reaction: OnFailure)
    ensures
        reaction == (if step == EntryStep::MoveAside || step == EntryStep::MoveIn {
            OnFailure::RollBack
        } else {
            OnFailure::Abort
        }),
{
    match step {
        EntryStep::MoveAside | EntryStep::MoveIn => OnFailure::RollBack,
        _ => OnFailure::Abort,
    }
}

/// The entry does not say whether there was an original, and nothing else does.
pub open spec fn is_ambiguous(entry: RestoreJournalEntry, rollback_exists: bool) -> bool {
    entry.original_existed is None && !rollback_exists && entry.published
}

/// The steps that put the original back from the rollback path.
pub open spec fn put_back_steps(destination_exists: bool) -> Seq<EntryStep> {
    if destination_exists {
        seq![EntryStep::RemoveDestination, EntryStep::MoveBack, EntryStep::SyncDestination]
    } else {
        seq![EntryStep::MoveBack, EntryStep::SyncDestination]
    }
}

/// The steps that roll an entry back, given what exists.
pub open spec fn rollback_steps(
    entry: RestoreJournalEntry,
    rollback_exists: bool,
    destination_exists: bool,
) -> Seq<EntryStep> {
    let undo = if entry.original_existed == Some(false) {
        if entry.published && destination_exists {
            seq![EntryStep::RemoveDestination, EntryStep::SyncDestination]
        } else {
            Seq::empty()
        }
    } else if rollback_exists {
        put_back_steps(destination_exists)
    } else {
        Seq::empty()
    };
    undo.push(EntryStep::MarkUnpublished)
}

/// The steps that roll one entry back, given whether its rollback path and its
/// destination exist. An entry of an older journal can be ambiguous; it is
/// then left alone.
pub fn rollback_published(
    entry: &RestoreJournalEntry,
    rollback_exists: bool,
    destination_exists: bool,
) -> (script: Option<Vec<EntryStep>>)
    ensures
        match script {
            Some(steps) => !is_ambiguous(*entry, rollback_exists) && steps@ == rollback_steps(
                *entry,
                rollback_exists,
                destination_exists,
            ),
            None => is_ambiguous(*entry, rollback_exists),
        },
{
    let mut steps: Vec<EntryStep> = Vec::new();
    match entry.original_existed {
        Some(false) => {
            if entry.published && destination_exists {
                steps.push(EntryStep::RemoveDestination);
                steps.push(EntryStep::SyncDestination);
            }
        },
        Some(true) | None => {
            if rollback_exists {
                if destination_exists {
                    steps.push(EntryStep::RemoveDestination);
                }
                steps.push(EntryStep::MoveBack);
                steps.push(EntryStep::SyncDestination);
            } else if entry.original_existed.is_none() && entry.published {
                return None;
            }
        },
    }
    steps.push(EntryStep::MarkUnpublished);
    assert(steps@ =~= rollback_steps(*entry, rollback_exists, destination_exists));
    Some(steps)
}

/// The steps that drop what a committed publication no longer needs.
pub open spec fn discard_steps(sources: bool) -> Seq<EntryStep> {
    if sources {
        seq![
            EntryStep::RemoveRollback,
            EntryStep::SyncDestination,
            EntryStep::RemoveSource,
            EntryStep::SyncSource,
        ]
    } else {
        seq![EntryStep::RemoveRollback, EntryStep::SyncDestination]
    }
}

/// The steps that drop the original of a committed entry and, where the source
/// may still be there, the source.
pub fn discard_rollback(sources: bool) -> (steps: Vec<EntryStep>)
    ensures
        steps@ == discard_steps(sources),
{
    let mut steps: Vec<EntryStep> = Vec::new();
    steps.push(EntryStep::RemoveRollback);
    steps.push(EntryStep::SyncDestination);
    if sources {
        steps.push(EntryStep::RemoveSource);
        steps.push(EntryStep::SyncSource);
    }
    assert(steps@ =~= discard_steps(sources));
    steps
}

// ---------------------------------------------------------------------------
// What the scripts do
// ---------------------------------------------------------------------------

/// What stands at the three paths of an entry, and its durable mark.
pub struct EntryWorld {
    pub destination: Option<int>,
    pub rollback: Option<int>,
    pub source: Option<int>,
    pub published: bool,
}

/// The state after one step. A rename replaces what stands at its target; a
/// rename of nothing changes nothing.
pub open spec fn perform(world: EntryWorld, step: EntryStep) -> EntryWorld {
    match step {
        EntryStep::MoveAside => if world.destination is Some {
            EntryWorld { rollback: world.destination, destination: None, ..world }
        } else {
            world
        },
        EntryStep::MarkPublished => EntryWorld { published: true, ..world },
        EntryStep::MoveIn => if world.source is Some {
            EntryWorld { destination: world.source, source: None, ..world }
        } else {
            world
        },
        EntryStep::RemoveDestination => EntryWorld { destination: None, ..world },
        EntryStep::MoveBack => if world.rollback is Some {
            EntryWorld { destination: world.rollback, rollback: None, ..world }
        } else {
            world
        },
        EntryStep::MarkUnpublished => EntryWorld { published: false, ..world },
        EntryStep::RemoveRollback => EntryWorld { rollback: None, ..world },
        EntryStep::RemoveSource => EntryWorld { source: None, ..world },
        EntryStep::SyncDestination => world,
        EntryStep::SyncSource => world,
    }
}

/// The state after the steps of a script.
pub open spec fn perform_all(world: EntryWorld, steps: Seq<EntryStep>) -> EntryWorld
    decreases steps.len(),
{
    if steps.len() == 0 {
        world
    } else {
        perform(perform_all(world, steps.drop_last()), steps.last())
    }
}

/// The state in which the publication of an entry begins: the source is
/// staged, the destination is the original if there was one, and nothing is
/// aside.
pub open spec fn is_staged(world: EntryWorld, entry: RestoreJournalEntry) -> bool {
    &&& world.source is Some
    &&& world.rollback is None
    &&& !world.published
    &&& existence_matches(entry, world.destination is Some)
}

/// The entry as its journal holds it in the given state.
pub open spec fn recorded(entry: RestoreJournalEntry, world: EntryWorld) -> RestoreJournalEntry {
    RestoreJournalEntry { published: world.published, ..entry }
}

/// The state after a rollback that looks at what exists.
pub open spec fn rolled_back(world: EntryWorld, entry: RestoreJournalEntry) -> EntryWorld {
    perform_all(
        world,
        rollback_steps(recorded(entry, world), world.rollback is Some, world.destination is Some),
    )
}

/// A publication that runs to its end puts the restored tree at the
/// destination and keeps the original aside.
pub proof fn publication_replaces_the_destination(world: EntryWorld, entry: RestoreJournalEntry)
    requires
        is_staged(world, entry),
    ensures
        perform_all(world, publish_steps(world.destination is Some)) == (EntryWorld {
            destination: world.source,
            rollback: world.destination,
            source: None,
            published: true,
        }),
{
    reveal_with_fuel(perform_all, 6);
    let steps = publish_steps(world.destination is Some);
    if world.destination is Some {
        assert(steps.drop_last().drop_last().drop_last().drop_last().drop_last().len() == 0);
    } else {
        assert(steps.drop_last().drop_last().drop_last().len() == 0);
    }
}

/// Wherever a publication stops, rolling back puts the original destination
/// back, or leaves nothing there if there was nothing, and leaves nothing
/// aside.
pub proof fn interrupted_publication_is_undone(
    world: EntryWorld,
    entry: RestoreJournalEntry,
    done: int,
)
    requires
        is_staged(world, entry),
        0 <= done <= publish_steps(world.destination is Some).len(),
    ensures
        ({
            let stopped = perform_all(world, publish_steps(world.destination is Some).take(done));
            let after = rolled_back(stopped, entry);
            &&& after.destination == world.destination
            &&& after.rollback is None
            &&& !after.published
        }),
{
    reveal_with_fuel(perform_all, 6);
    let steps = publish_steps(world.destination is Some);
    let prefix = steps.take(done);
    if done > 0 {
        assert(prefix.drop_last() =~= steps.take(done - 1));
    }
    if done > 1 {
        assert(prefix.drop_last().drop_last() =~= steps.take(done - 2));
    }
    if done > 2 {
        assert(prefix.drop_last().drop_last().drop_last() =~= steps.take(done - 3));
    }
    if done > 3 {
        assert(prefix.drop_last().drop_last().drop_last().drop_last() =~= steps.take(done - 4));
    }
    if done > 4 {
        assert(prefix.drop_last().drop_last().drop_last().drop_last().drop_last() =~= steps.take(
            done - 5,
        ));
    }
    let stopped = perform_all(world, prefix);
    lemma_rollback_state(stopped, entry);
}

/// What a rollback makes of a state.
proof fn lemma_rollback_state(world: EntryWorld, entry: RestoreJournalEntry)
    requires
        entry.original_existed is Some,
    ensures
        rolled_back(world, entry) == (EntryWorld {
            destination: if entry.original_existed == Some(false) {
                if world.published {
                    None
                } else {
                    world.destination
                }
            } else if world.rollback is Some {
                world.rollback
            } else {
                world.destination
            },
            rollback: if entry.original_existed == Some(false) {
                world.rollback
            } else {
                None
            },
            source: world.source,
            published: false,
        }),
{
    reveal_with_fuel(perform_all, 5);
    let steps = rollback_steps(
        recorded(entry, world),
        world.rollback is Some,
        world.destination is Some,
    );
    if steps.len() > 0 {
        assert(steps.drop_last().len() == steps.len() - 1);
    }
    let undo = steps.drop_last();
    if entry.original_existed == Some(false) {
        if world.published && world.destination is Some {
            assert(undo =~= seq![EntryStep::RemoveDestination, EntryStep::SyncDestination]);
            assert(undo.drop_last() =~= seq![EntryStep::RemoveDestination]);
            assert(undo.drop_last().drop_last() =~= Seq::<EntryStep>::empty());
        } else {
            assert(undo =~= Seq::<EntryStep>::empty());
        }
    } else if world.rollback is Some {
        if world.destination is Some {
            assert(undo =~= seq![
                EntryStep::RemoveDestination,
                EntryStep::MoveBack,
                EntryStep::SyncDestination,
            ]);
            assert(undo.drop_last() =~= seq![EntryStep::RemoveDestination, EntryStep::MoveBack]);
            assert(undo.drop_last().drop_last() =~= seq![EntryStep::RemoveDestination]);
            assert(undo.drop_last().drop_last().drop_last() =~= Seq::<EntryStep>::empty());
        } else {
            assert(undo =~= seq![EntryStep::MoveBack, EntryStep::SyncDestination]);
            assert(undo.drop_last() =~= seq![EntryStep::MoveBack]);
            assert(undo.drop_last().drop_last() =~= Seq::<EntryStep>::empty());
        }
    } else {
        assert(undo =~= Seq::<EntryStep>::empty());
    }
}

/// Rolling back twice is rolling back once: a restored original survives a
/// repeated recovery.
pub proof fn repeated_rollback_changes_nothing(world: EntryWorld, entry: RestoreJournalEntry)
    requires
        entry.original_existed is Some,
    ensures
        rolled_back(rolled_back(world, entry), entry) == rolled_back(world, entry),
{
    lemma_rollback_state(world, entry);
    lemma_rollback_state(rolled_back(world, entry), entry);
}

/// Discarding what is aside leaves the destination as it is.
pub proof fn commit_keeps_the_destination(world: EntryWorld, sources: bool)
    ensures
        perform_all(world, discard_steps(sources)).destination == world.destination,
        perform_all(world, discard_steps(sources)).rollback is None,
{
    reveal_with_fuel(perform_all, 5);
    let steps = discard_steps(sources);
    assert(steps.drop_last().drop_last().len() == steps.len() - 2);
    if sources {
        assert(steps.drop_last() =~= seq![
            EntryStep::RemoveRollback,
            EntryStep::SyncDestination,
            EntryStep::RemoveSource,
        ]);
        assert(steps.drop_last().drop_last() =~= discard_steps(false));
        assert(steps.drop_last().drop_last().drop_last() =~= seq![EntryStep::RemoveRollback]);
        assert(steps.drop_last().drop_last().drop_last().drop_last() =~= Seq::<
            EntryStep,
        >::empty());
    } else {
        assert(steps.drop_last() =~= seq![EntryStep::RemoveRollback]);
        assert(steps.drop_last().drop_last() =~= Seq::<EntryStep>::empty());
    }
}

/// The states of all entries when the publication stops inside one of them:
/// the ones in front are published, the ones behind are still staged.
pub open spec fn interrupted_at(worlds: Seq<EntryWorld>, at: int, done: int) -> Seq<EntryWorld> {
    Seq::new(
        worlds.len(),
        |j: int|
            {
                let steps = publish_steps(worlds[j].destination is Some);
                if j < at {
                    perform_all(worlds[j], steps)
                } else if j == at {
                    perform_all(worlds[j], steps.take(done))
                } else {
                    worlds[j]
                }
            },
    )
}

/// Wherever the publication of a whole restore stops, rolling back its entries
/// gives every destination back.
pub proof fn interrupted_restore_is_undone(
    worlds: Seq<EntryWorld>,
    entries: Seq<RestoreJournalEntry>,
    at: int,
    done: int,
)
    requires
        worlds.len() == entries.len(),
        forall|j: int| 0 <= j < worlds.len() ==> is_staged(#[trigger] worlds[j], entries[j]),
        0 <= at < worlds.len(),
        0 <= done <= publish_steps(worlds[at].destination is Some).len(),
    ensures
        forall|j: int|
            0 <= j < worlds.len() ==> rolled_back(
                #[trigger] interrupted_at(worlds, at, done)[j],
                entries[j],
            ).destination == worlds[j].destination,
{
    assert forall|j: int| 0 <= j < worlds.len() implies rolled_back(
        #[trigger] interrupted_at(worlds, at, done)[j],
        entries[j],
    ).destination == worlds[j].destination by {
        let steps = publish_steps(worlds[j].destination is Some);
        assert(is_staged(worlds[j], entries[j]));
        if j < at {
            assert(steps.take(steps.len() as int) =~= steps);
            interrupted_publication_is_undone(worlds[j], entries[j], steps.len() as int);
        } else if j == at {
            interrupted_publication_is_undone(worlds[j], entries[j], done);
        } else {
            assert(steps.take(0) =~= Seq::<EntryStep>::empty());
            assert(perform_all(worlds[j], steps.take(0)) == worlds[j]);
            interrupted_publication_is_undone(worlds[j], entries[j], 0);
        }
    }
}

// ---------------------------------------------------------------------------
// Preparation
// ---------------------------------------------------------------------------

/// A snapshot path and the destination that it is restored to.
#[derive(Clone, Debug, PartialEq, Eq)]
pub struct RestorePublishPath {
    pub snapshot_path: String,
    pub destination: String,
    /// The directory that a selection must not leave.
    pub destination_root: Option<String>,
}

/// Why a restore is not published.
#[derive(Clone, Copy, Debug, PartialEq, Eq, Structural)]
pub enum PublishError {
    /// The snapshot path is absolute or goes up.
    UnsafeSnapshotPath,
    /// The destination is not absolute.
    RelativeDestination,
    /// The destination has no parent directory.
    NoParent,
    /// The destination has no file name.
    NoFileName,
    /// Something stands where the original would be put aside.
    RollbackExists,
    /// The snapshot did not restore this path.
    MissingSnapshotPath,
    /// Something stands where the restored tree would be staged.
    SourceExists,
    /// The staged copy is not what was restored.
    CopyDiffers,
    /// A destination came or went while the publication was prepared.
    DestinationChanged,
    /// The journal already belongs to a publication.
    JournalInUse,
    /// The rollback path of one destination overlaps another one.
    OverlappingRollbacks,
    /// A rollback path overlaps a destination.
    RollbackOverlapsDestination,
}

/// Whether the staged copy is what was restored, by the digests of both trees.
pub fn admit_copy(restored: &Vec<u8>, copy: &Vec<u8>) -> (outcome: Result<(), PublishError>)
    ensures
        outcome == if restored@ == copy@ {
            Ok(())
        } else {
            Err(PublishError::CopyDiffers)
        },
{
    if verification::same_tree(restored, copy) {
        Ok(())
    } else {
        Err(PublishError::CopyDiffers)
    }
}

/// Where the original of a destination is put aside.
pub open spec fn rollback_path_of(destination: Seq<char>, journal_id: Seq<char>) -> Result<
    Seq<char>,
    PublishError,
> {
    match path::parent_of(destination) {
        None => Err(PublishError::NoParent),
        Some(parent) => match path::last_name(destination) {
            None => Err(PublishError::NoFileName),
            Some(name) => Ok(
                path::joined(parent, name + ".komodo-rollback-"@ + journal_id),
            ),
        },
    }
}

/// Where the original of a destination is put aside.
pub fn restore_rollback_path(destination: &str, journal_id: &str) -> (rollback: Result<
    String,
    PublishError,
>)
    ensures
        match rollback {
            Ok(text) => rollback_path_of(destination@, journal_id@) == Ok::<
                Seq<char>,
                PublishError,
            >(text@),
            Err(error) => rollback_path_of(destination@, journal_id@) == Err::<
                Seq<char>,
                PublishError,
            >(error),
        },
{
    match path::parent(destination) {
        None => Err(PublishError::NoParent),
        Some(parent) => match path::file_name(destination) {
            None => Err(PublishError::NoFileName),
            Some(name) => Ok(
                path::join(
                    parent.as_str(),
                    text::concat3(name.as_str(), ".komodo-rollback-", journal_id).as_str(),
                ),
            ),
        },
    }
}

/// Two paths that must not overlap, and the error if they do.
#[derive(Clone, Debug, PartialEq, Eq)]
pub struct OverlapCheck {
    pub left: String,
    pub right: String,
    pub error: PublishError,
}

/// The rollback path of one destination and the paths that it must not overlap:
/// first the rollback paths in front of it, then every destination.
pub fn validate_restore_rollback_paths(
    publish: &Vec<RestorePublishPath>,
    index: usize,
    earlier: &Vec<String>,
    journal_id: &str,
) -> (checks: Result<(String, Vec<OverlapCheck>), PublishError>)
    requires
        index < publish@.len(),
    ensures
        match checks {
            Err(error) => rollback_path_of(publish@[index as int].destination@, journal_id@)
                == Err::<Seq<char>, PublishError>(error),
            Ok((rollback, list)) => {
                &&& rollback_path_of(publish@[index as int].destination@, journal_id@) == Ok::<
                    Seq<char>,
                    PublishError,
                >(rollback@)
                &&& list@.len() == earlier@.len() + publish@.len()
                &&& forall|i: int|
                    0 <= i < list@.len() ==> (#[trigger] list@[i]).left@ == rollback@
                &&& forall|i: int|
                    0 <= i < earlier@.len() ==> (#[trigger] list@[i]).right@ == earlier@[i]@
                        && list@[i].error == PublishError::OverlappingRollbacks
                &&& forall|i: int|
                    earlier@.len() <= i < list@.len() ==> (#[trigger] list@[i]).right@ == publish@[i
                        - earlier@.len()].destination@ && list@[i].error
                        == PublishError::RollbackOverlapsDestination
            },
        },
{
    match restore_rollback_path(publish[index].destination.as_str(), journal_id) {
        Err(error) => Err(error),
        Ok(rollback) => {
            let mut list: Vec<OverlapCheck> = Vec::new();
            for i in 0..earlier.len()
                invariant
                    list@.len() == i,
                    forall|k: int|
                        0 <= k < i ==> (#[trigger] list@[k]).left@ == rollback@ && list@[k].right@
                            == earlier@[k]@ && list@[k].error == PublishError::OverlappingRollbacks,
            {
                list.push(
                    OverlapCheck {
                        left: rollback.clone(),
                        right: earlier[i].clone(),
                        error: PublishError::OverlappingRollbacks,
                    },
                );
            }
            for i in 0..publish.len()
                invariant
                    list@.len() == earlier@.len() + i,
                    forall|k: int|
                        0 <= k < earlier@.len() ==> (#[trigger] list@[k]).left@ == rollback@
                            && list@[k].right@ == earlier@[k]@ && list@[k].error
                            == PublishError::OverlappingRollbacks,
                    forall|k: int|
                        earlier@.len() <= k < list@.len() ==> (#[trigger] list@[k]).left@
                            == rollback@ && list@[k].right@ == publish@[k
                            - earlier@.len()].destination@ && list@[k].error
                            == PublishError::RollbackOverlapsDestination,
            {
                list.push(
                    OverlapCheck {
                        left: rollback.clone(),
                        right: publish[i].destination.clone(),
                        error: PublishError::RollbackOverlapsDestination,
                    },
                );
            }
            Ok((rollback, list))
        },
    }
}

/// The paths that one destination is published through.
#[derive(Clone, Debug, PartialEq, Eq)]
pub struct EntryPlan {
    pub destination: String,
    pub destination_parent: String,
    pub rollback: String,
    /// Where the snapshot was restored to.
    pub restored: String,
    /// Where the restored tree is staged next to its destination.
    pub source: String,
}

/// The name under which a tree is staged next to its destination.
pub open spec fn staged_name(journal_id: Seq<char>, index: nat) -> Seq<char> {
    ".komodo-restore-"@ + journal_id + "-"@ + text::decimal_digits(index)
}

/// Why an item cannot be planned.
pub open spec fn plan_refusal(item: RestorePublishPath, journal_id: Seq<char>) -> Option<
    PublishError,
> {
    if path::is_absolute_path(item.snapshot_path@) || path::goes_up(item.snapshot_path@) {
        Some(PublishError::UnsafeSnapshotPath)
    } else if !path::is_absolute_path(item.destination@) {
        Some(PublishError::RelativeDestination)
    } else {
        match rollback_path_of(item.destination@, journal_id) {
            Err(error) => Some(error),
            Ok(_) => None,
        }
    }
}

/// Works out the paths that one item is published through.
pub fn plan_entry(staging: &str, item: &RestorePublishPath, journal_id: &str, index: u64) -> (plan:
    Result<EntryPlan, PublishError>)
    ensures
        match plan {
            Err(error) => plan_refusal(*item, journal_id@) == Some(error),
            Ok(planned) => {
                let parent = path::parent_of(item.destination@)->Some_0;
                &&& plan_refusal(*item, journal_id@) is None
                &&& planned.destination@ == item.destination@
                &&& planned.destination_parent@ == parent
                &&& rollback_path_of(item.destination@, journal_id@) == Ok::<
                    Seq<char>,
                    PublishError,
                >(planned.rollback@)
                &&& planned.restored@ == path::joined(staging@, item.snapshot_path@)
                &&& planned.source@ == path::joined(parent, staged_name(journal_id@, index as nat))
            },
        },
{
    let snapshot_path = item.snapshot_path.as_str();
    if path::path_is_absolute(snapshot_path) || path::path_goes_up(snapshot_path) {
        return Err(PublishError::UnsafeSnapshotPath);
    }
    let destination = item.destination.as_str();
    if !path::path_is_absolute(destination) {
        return Err(PublishError::RelativeDestination);
    }
    match restore_rollback_path(destination, journal_id) {
        Err(error) => Err(error),
        Ok(rollback) => match path::parent(destination) {
            None => Err(PublishError::NoParent),
            Some(parent) => {
                let name = text::concat3(
                    text::concat2(".komodo-restore-", journal_id).as_str(),
                    "-",
                    text::decimal(index).as_str(),
                );
                let source = path::join(parent.as_str(), name.as_str());
                Ok(
                    EntryPlan {
                        destination: item.destination.clone(),
                        destination_parent: parent,
                        rollback,
                        restored: path::join(staging, snapshot_path),
                        source,
                    },
                )
            },
        },
    }
}

/// Whether what exists allows the restored tree to be staged.
pub fn admit_staging(rollback_exists: bool, restored_exists: bool) -> (outcome: Result<
    (),
    PublishError,
>)
    ensures
        outcome == (if rollback_exists {
            Err::<(), PublishError>(PublishError::RollbackExists)
        } else if !restored_exists {
            Err::<(), PublishError>(PublishError::MissingSnapshotPath)
        } else {
            Ok::<(), PublishError>(())
        }),
{
    if rollback_exists {
        Err(PublishError::RollbackExists)
    } else if !restored_exists {
        Err(PublishError::MissingSnapshotPath)
    } else {
        Ok(())
    }
}

/// The journal entry of a planned item whose tree has been staged.
pub fn entry_of(plan: EntryPlan, destination_exists: bool) -> (entry: RestoreJournalEntry)
    ensures
        entry.source == plan.source,
        entry.destination == plan.destination,
        entry.rollback == plan.rollback,
        entry.original_existed == Some(destination_exists),
        !entry.published,
{
    RestoreJournalEntry {
        source: plan.source,
        destination: plan.destination,
        rollback: plan.rollback,
        original_existed: Some(destination_exists),
        published: false,
    }
}

/// Whether every destination still is, or is not, there.
pub fn destinations_unchanged(entries: &Vec<RestoreJournalEntry>, exists: &Vec<bool>) -> (unchanged:
    bool)
    requires
        entries@.len() == exists@.len(),
    ensures
        unchanged <==> forall|i: int|
            0 <= i < entries@.len() ==> existence_matches(#[trigger] entries@[i], exists@[i]),
{
    for i in 0..entries.len()
        invariant
            entries@.len() == exists@.len(),
            forall|j: int| 0 <= j < i ==> existence_matches(#[trigger] entries@[j], exists@[j]),
    {
        if !destination_existence_matches(&entries[i], exists[i]) {
            assert(!existence_matches(entries@[i as int], exists@[i as int]));
            return false;
        }
    }
    true
}

/// A journal that only owns a volume may become the journal of a publication.
pub open spec fn may_become_publication(existing: RestoreJournal) -> bool {
    !existing.committed && existing.entries@.len() == 0 && existing.owned_volume is Some
}

/// The journal of a publication that is about to begin. A volume that was
/// created for the restore stays owned.
pub fn open_publication_journal(
    existing: Option<RestoreJournal>,
    staging: &str,
    entries: Vec<RestoreJournalEntry>,
    defer_finalize: bool,
) -> (journal: Result<RestoreJournal, PublishError>)
    ensures
        match journal {
            Err(error) => error == PublishError::JournalInUse && (existing matches Some(held)
                && !may_become_publication(held)),
            Ok(opened) => {
                &&& existing matches Some(held) ==> may_become_publication(held)
                    && opened.owned_volume == held.owned_volume
                &&& existing is None ==> opened.owned_volume is None
                &&& opened.staging@ == staging@
                &&& opened.entries == entries
                &&& opened.deferred == defer_finalize
                &&& !opened.committed
                &&& !opened.finalized
                &&& !opened.completed
            },
        },
{
    let owned_volume = match existing {
        Some(held) => {
            if held.committed || held.entries.len() > 0 || held.owned_volume.is_none() {
                return Err(PublishError::JournalInUse);
            }
            held.owned_volume
        },
        None => None,
    };
    Ok(
        RestoreJournal {
            staging: staging.to_owned(),
            entries,
            committed: false,
            finalized: false,
            deferred: defer_finalize,
            completed: false,
            owned_volume,
        },
    )
}

/// What is left of the journal once its publication has been rolled back and
/// its files have been removed: nothing, or the ownership of a volume.
pub fn cleanup_rolled_back_restore(journal: &RestoreJournal) -> (kept: Option<RestoreJournal>)
    ensures
        kept is Some <==> journal.owned_volume is Some,
        kept matches Some(left) ==> {
            &&& left.staging@.len() == 0
            &&& left.entries@.len() == 0
            &&& !left.committed
            &&& !left.finalized
            &&& !left.completed
            &&& left.deferred == journal.deferred
            &&& left.owned_volume == journal.owned_volume
        },
{
    match &journal.owned_volume {
        Some(owned) => Some(
            RestoreJournal {
                staging: String::new(),
                entries: Vec::new(),
                committed: false,
                finalized: false,
                deferred: journal.deferred,
                completed: false,
                owned_volume: Some(owned.duplicate()),
            },
        ),
        None => None,
    }
}

/// The journal of a volume that is about to be created for a restore.
pub fn persist_restore_volume_journal(
    journal_exists: bool,
    volume_name: &str,
    restore_plan_id: &str,
) -> (journal: Result<RestoreJournal, PublishError>)
    ensures
        match journal {
            Err(error) => journal_exists && error == PublishError::JournalInUse,
            Ok(opened) => {
                &&& !journal_exists
                &&& may_become_publication(opened)
                &&& opened.is_pending()
                &&& !opened.deferred
                &&& opened.staging@.len() == 0
                &&& opened.owned_volume matches Some(owned) && owned.volume_name@ == volume_name@
                    && owned.restore_plan_id@ == restore_plan_id@
            },
        },
{
    if journal_exists {
        return Err(PublishError::JournalInUse);
    }
    Ok(
        RestoreJournal {
            staging: String::new(),
            entries: Vec::new(),
            committed: false,
            finalized: false,
            deferred: false,
            completed: false,
            owned_volume: Some(
                RestoreOwnedVolume {
                    volume_name: volume_name.to_owned(),
                    restore_plan_id: restore_plan_id.to_owned(),
                },
            ),
        },
    )
}

/// How a publication ends once every entry has been published.
#[derive(Clone, Copy, Debug, PartialEq, Eq, Structural)]
pub enum PublicationEnd {
    /// Keep the journal and what is aside until the decision comes.
    Keep,
    /// Record the commit, discard what is aside, and remove staging and journal.
    Commit,
}

/// A deferred publication keeps everything; any other one is committed.
pub fn publication_end(defer_finalize: bool) -> (end: PublicationEnd)
    ensures
        end == (if defer_finalize {
            PublicationEnd::Keep
        } else {
            PublicationEnd::Commit
        }),
{
    if defer_finalize {
        PublicationEnd::Keep
    } else {
        PublicationEnd::Commit
    }
}

// ---------------------------------------------------------------------------
// The course of a publication
// ---------------------------------------------------------------------------

/// Whether a restored tree can be staged: nothing may stand where it is put.
pub fn admit_source(source_exists: bool) -> (outcome: Result<(), PublishError>)
    ensures
        outcome == if source_exists {
            Err(PublishError::SourceExists)
        } else {
            Ok(())
        },
{
    if source_exists {
        Err(PublishError::SourceExists)
    } else {
        Ok(())
    }
}

/// How a publication has ended.
#[derive(Clone, Copy, Debug, PartialEq, Eq, Structural)]
pub enum PublishEnd {
    /// It failed before anything was published.
    NotStarted,
    /// Everything was published, and the original is gone.
    Published,
    /// Everything was published; the decision is made later.
    Kept,
    /// What was published was put back.
    RolledBack,
    /// It broke off; the journal tells what has to be recovered.
    BrokeOff,
}

/// What is done next for a publication.
#[derive(Clone, Copy, Debug, PartialEq, Eq, Structural)]
pub enum PublishStage {
    /// Look at the destinations and at the places where originals are put aside.
    Validate,
    /// Stage the tree of this entry next to its destination, and compare it.
    StageEntry { index: usize },
    /// See that no destination has come or gone.
    Recheck,
    /// Write the journal of the publication.
    OpenJournal,
    /// Remove the note of what was staged; the journal owns it now.
    DropStagingNote,
    /// Publish this entry.
    PublishEntry { index: usize },
    /// Put back what was published, and clean up.
    RollBack,
    /// Write the commit, discard what is aside and remove the journal.
    Commit,
    /// The publication has ended.
    Ended { end: PublishEnd },
}

/// What came of a step of a publication.
#[derive(Clone, Copy, Debug, PartialEq, Eq, Structural)]
pub enum PublishHappened {
    Succeeded,
    /// The step did not happen.
    Failed,
    /// It is not known whether the step is durable.
    Uncertain,
}

/// What is done once every entry has been published.
pub open spec fn after_last_entry(defer_finalize: bool) -> PublishStage {
    if defer_finalize {
        PublishStage::Ended { end: PublishEnd::Kept }
    } else {
        PublishStage::Commit
    }
}

/// What is done after a step of a publication of so many entries.
pub open spec fn next_publish_stage(
    stage: PublishStage,
    count: usize,
    defer_finalize: bool,
    happened: PublishHappened,
) -> PublishStage {
    let ok = happened == PublishHappened::Succeeded;
    let not_started = PublishStage::Ended { end: PublishEnd::NotStarted };
    let broke_off = PublishStage::Ended { end: PublishEnd::BrokeOff };
    match stage {
        PublishStage::Validate => if !ok {
            not_started
        } else if count == 0 {
            PublishStage::Recheck
        } else {
            PublishStage::StageEntry { index: 0 }
        },
        PublishStage::StageEntry { index } => if !ok {
            not_started
        } else if index + 1 >= count {
            PublishStage::Recheck
        } else {
            PublishStage::StageEntry { index: (index + 1) as usize }
        },
        PublishStage::Recheck => if ok {
            PublishStage::OpenJournal
        } else {
            not_started
        },
        PublishStage::OpenJournal => if ok {
            PublishStage::DropStagingNote
        } else {
            not_started
        },
        PublishStage::DropStagingNote => if !ok {
            broke_off
        } else if count == 0 {
            after_last_entry(defer_finalize)
        } else {
            PublishStage::PublishEntry { index: 0 }
        },
        PublishStage::PublishEntry { index } => match happened {
            PublishHappened::Succeeded => if index + 1 >= count {
                after_last_entry(defer_finalize)
            } else {
                PublishStage::PublishEntry { index: (index + 1) as usize }
            },
            PublishHappened::Failed => PublishStage::RollBack,
            PublishHappened::Uncertain => broke_off,
        },
        PublishStage::RollBack => if ok {
            PublishStage::Ended { end: PublishEnd::RolledBack }
        } else {
            broke_off
        },
        PublishStage::Commit => if ok {
            PublishStage::Ended { end: PublishEnd::Published }
        } else {
            broke_off
        },
        PublishStage::Ended { end } => stage,
    }
}

fn follow_last_entry(defer_finalize: bool) -> (next: PublishStage)
    ensures
        next == after_last_entry(defer_finalize),
{
    match publication_end(defer_finalize) {
        PublicationEnd::Keep => PublishStage::Ended { end: PublishEnd::Kept },
        PublicationEnd::Commit => PublishStage::Commit,
    }
}

/// What is done after a step of a publication of so many entries.
pub fn publish_restore_in(
    stage: PublishStage,
    count: usize,
    defer_finalize: bool,
    happened: PublishHappened,
) -> (next: PublishStage)
    ensures
        next == next_publish_stage(stage, count, defer_finalize, happened),
{
    let ok = happened == PublishHappened::Succeeded;
    let not_started = PublishStage::Ended { end: PublishEnd::NotStarted };
    let broke_off = PublishStage::Ended { end: PublishEnd::BrokeOff };
    match stage {
        PublishStage::Validate => if !ok {
            not_started
        } else if count == 0 {
            PublishStage::Recheck
        } else {
            PublishStage::StageEntry { index: 0 }
        },
        PublishStage::StageEntry { index } => if !ok {
            not_started
        } else if index >= count || index == count - 1 {
            PublishStage::Recheck
        } else {
            PublishStage::StageEntry { index: index + 1 }
        },
        PublishStage::Recheck => if ok {
            PublishStage::OpenJournal
        } else {
            not_started
        },
        PublishStage::OpenJournal => if ok {
            PublishStage::DropStagingNote
        } else {
            not_started
        },
        PublishStage::DropStagingNote => if !ok {
            broke_off
        } else if count == 0 {
            follow_last_entry(defer_finalize)
        } else {
            PublishStage::PublishEntry { index: 0 }
        },
        PublishStage::PublishEntry { index } => match happened {
            PublishHappened::Succeeded => if index >= count || index == count - 1 {
                follow_last_entry(defer_finalize)
            } else {
                PublishStage::PublishEntry { index: index + 1 }
            },
            PublishHappened::Failed => PublishStage::RollBack,
            PublishHappened::Uncertain => broke_off,
        },
        PublishStage::RollBack => if ok {
            PublishStage::Ended { end: PublishEnd::RolledBack }
        } else {
            broke_off
        },
        PublishStage::Commit => if ok {
            PublishStage::Ended { end: PublishEnd::Published }
        } else {
            broke_off
        },
        PublishStage::Ended { end: _ } => stage,
    }
}

/// Nothing is published before the journal is written, a failure before that
/// leaves the destinations as they were, and an entry that cannot be published
/// has all of them put back.
pub proof fn publications_are_journaled_first(
    stage: PublishStage,
    count: usize,
    defer_finalize: bool,
    happened: PublishHappened,
)
    ensures
        next_publish_stage(stage, count, defer_finalize, happened) is PublishEntry ==> stage
            is DropStagingNote || stage is PublishEntry,
        next_publish_stage(stage, count, defer_finalize, happened) is DropStagingNote ==> stage
            is OpenJournal && happened == PublishHappened::Succeeded,
        next_publish_stage(stage, count, defer_finalize, happened) == (PublishStage::Ended {
            end: PublishEnd::NotStarted,
        }) ==> stage is Validate || stage is StageEntry || stage is Recheck || stage is OpenJournal
            || stage is Ended,
        stage is PublishEntry && happened == PublishHappened::Failed ==> next_publish_stage(
            stage,
            count,
            defer_finalize,
            happened,
        ) is RollBack,
        next_publish_stage(stage, count, defer_finalize, happened) is Commit ==> !defer_finalize,
{
}

/// The stage that a publication has come to after all that happened.
pub open spec fn publish_stage_after(
    count: usize,
    defer_finalize: bool,
    happened: Seq<PublishHappened>,
) -> PublishStage
    decreases happened.len(),
{
    if happened.len() == 0 {
        PublishStage::Validate
    } else {
        next_publish_stage(
            publish_stage_after(count, defer_finalize, happened.drop_last()),
            count,
            defer_finalize,
            happened.last(),
        )
    }
}

/// The step was taken on the way, and this came of it.
#[verifier::opaque]
pub open spec fn came_of(
    count: usize,
    defer_finalize: bool,
    happened: Seq<PublishHappened>,
    step: PublishStage,
    what: PublishHappened,
) -> bool {
    exists|i: int|
        0 <= i < happened.len() && #[trigger] publish_stage_after(
            count,
            defer_finalize,
            happened.take(i),
        ) == step && happened[i] == what
}

/// The step was taken on the way, with success.
pub open spec fn succeeded(
    count: usize,
    defer_finalize: bool,
    happened: Seq<PublishHappened>,
    step: PublishStage,
) -> bool {
    came_of(count, defer_finalize, happened, step, PublishHappened::Succeeded)
}

/// The step was taken on the way, without success.
pub open spec fn went_wrong(
    count: usize,
    defer_finalize: bool,
    happened: Seq<PublishHappened>,
    step: PublishStage,
) -> bool {
    ||| came_of(count, defer_finalize, happened, step, PublishHappened::Failed)
    ||| came_of(count, defer_finalize, happened, step, PublishHappened::Uncertain)
}

/// Every entry was staged on the way.
pub open spec fn all_staged(
    count: usize,
    defer_finalize: bool,
    happened: Seq<PublishHappened>,
) -> bool {
    forall|k: usize|
        k < count ==> #[trigger] succeeded(
            count,
            defer_finalize,
            happened,
            PublishStage::StageEntry { index: k },
        )
}

/// Every entry before this one was published on the way.
pub open spec fn published_before(
    count: usize,
    defer_finalize: bool,
    happened: Seq<PublishHappened>,
    index: int,
) -> bool {
    forall|k: usize|
        k < index ==> #[trigger] succeeded(
            count,
            defer_finalize,
            happened,
            PublishStage::PublishEntry { index: k },
        )
}

/// The publication was prepared on the way: the destinations were looked at twice,
/// with every entry staged in between, and the journal was written.
pub open spec fn was_prepared(
    count: usize,
    defer_finalize: bool,
    happened: Seq<PublishHappened>,
) -> bool {
    &&& succeeded(count, defer_finalize, happened, PublishStage::Validate)
    &&& all_staged(count, defer_finalize, happened)
    &&& succeeded(count, defer_finalize, happened, PublishStage::Recheck)
    &&& succeeded(count, defer_finalize, happened, PublishStage::OpenJournal)
}

/// An entry could not be published on the way.
pub open spec fn an_entry_failed(
    count: usize,
    defer_finalize: bool,
    happened: Seq<PublishHappened>,
) -> bool {
    exists|k: usize| #[trigger]
        came_of(
            count,
            defer_finalize,
            happened,
            PublishStage::PublishEntry { index: k },
            PublishHappened::Failed,
        )
}

proof fn lemma_came_of_grows(
    count: usize,
    defer_finalize: bool,
    happened: Seq<PublishHappened>,
)
    requires
        happened.len() > 0,
    ensures
        forall|step: PublishStage, what: PublishHappened|
            came_of(count, defer_finalize, happened.drop_last(), step, what)
                ==> #[trigger] came_of(count, defer_finalize, happened, step, what),
        forall|step: PublishStage, what: PublishHappened|
            #[trigger] came_of(count, defer_finalize, happened, step, what) ==> came_of(
                count,
                defer_finalize,
                happened.drop_last(),
                step,
                what,
            ) || step == publish_stage_after(count, defer_finalize, happened.drop_last()),
        came_of(
            count,
            defer_finalize,
            happened,
            publish_stage_after(count, defer_finalize, happened.drop_last()),
            happened.last(),
        ),
{
    reveal(came_of);
    let before = happened.drop_last();
    let n = before.len() as int;
    assert(happened.take(n) =~= before);
    assert(publish_stage_after(count, defer_finalize, happened.take(n)) == publish_stage_after(
        count,
        defer_finalize,
        before,
    ));
    assert forall|step: PublishStage, what: PublishHappened| came_of(
        count,
        defer_finalize,
        before,
        step,
        what,
    ) implies #[trigger] came_of(count, defer_finalize, happened, step, what) by {
        let i = choose|i: int|
            0 <= i < before.len() && #[trigger] publish_stage_after(
                count,
                defer_finalize,
                before.take(i),
            ) == step && before[i] == what;
        assert(happened.take(i) =~= before.take(i));
        assert(publish_stage_after(count, defer_finalize, happened.take(i)) == step);
    }
    assert forall|step: PublishStage, what: PublishHappened| #[trigger] came_of(
        count,
        defer_finalize,
        happened,
        step,
        what,
    ) implies came_of(count, defer_finalize, before, step, what) || step == publish_stage_after(
        count,
        defer_finalize,
        before,
    ) by {
        let i = choose|i: int|
            0 <= i < happened.len() && #[trigger] publish_stage_after(
                count,
                defer_finalize,
                happened.take(i),
            ) == step && happened[i] == what;
        if i < n {
            assert(happened.take(i) =~= before.take(i));
            assert(publish_stage_after(count, defer_finalize, before.take(i)) == step);
        }
    }
}

/// What must have happened for a publication to be at this stage.
pub open spec fn publication_was_met(
    count: usize,
    defer_finalize: bool,
    happened: Seq<PublishHappened>,
    stage: PublishStage,
) -> bool {
    match stage {
        PublishStage::Validate => true,
        PublishStage::StageEntry { index } => {
            &&& index < count
            &&& succeeded(count, defer_finalize, happened, PublishStage::Validate)
            &&& forall|k: usize|
                k < index ==> #[trigger] succeeded(
                    count,
                    defer_finalize,
                    happened,
                    PublishStage::StageEntry { index: k },
                )
        },
        PublishStage::Recheck => {
            &&& succeeded(count, defer_finalize, happened, PublishStage::Validate)
            &&& all_staged(count, defer_finalize, happened)
        },
        PublishStage::OpenJournal => {
            &&& succeeded(count, defer_finalize, happened, PublishStage::Validate)
            &&& all_staged(count, defer_finalize, happened)
            &&& succeeded(count, defer_finalize, happened, PublishStage::Recheck)
        },
        PublishStage::DropStagingNote => was_prepared(count, defer_finalize, happened),
        PublishStage::PublishEntry { index } => {
            &&& index < count
            &&& was_prepared(count, defer_finalize, happened)
            &&& published_before(count, defer_finalize, happened, index as int)
        },
        PublishStage::RollBack => an_entry_failed(count, defer_finalize, happened),
        PublishStage::Commit => {
            &&& !defer_finalize
            &&& was_prepared(count, defer_finalize, happened)
            &&& published_before(count, defer_finalize, happened, count as int)
        },
        PublishStage::Ended { end } => match end {
            PublishEnd::NotStarted => true,
            PublishEnd::Published => {
                &&& !defer_finalize
                &&& was_prepared(count, defer_finalize, happened)
                &&& published_before(count, defer_finalize, happened, count as int)
                &&& succeeded(count, defer_finalize, happened, PublishStage::Commit)
            },
            PublishEnd::Kept => {
                &&& defer_finalize
                &&& was_prepared(count, defer_finalize, happened)
                &&& published_before(count, defer_finalize, happened, count as int)
            },
            PublishEnd::RolledBack => {
                &&& an_entry_failed(count, defer_finalize, happened)
                &&& succeeded(count, defer_finalize, happened, PublishStage::RollBack)
            },
            PublishEnd::BrokeOff => true,
        },
    }
}

proof fn lemma_publication_stays(
    count: usize,
    defer_finalize: bool,
    happened: Seq<PublishHappened>,
    stage: PublishStage,
)
    requires
        happened.len() > 0,
        publication_was_met(count, defer_finalize, happened.drop_last(), stage),
    ensures
        publication_was_met(count, defer_finalize, happened, stage),
{
    let before = happened.drop_last();
    lemma_came_of_grows(count, defer_finalize, happened);
    assert forall|step: PublishStage| succeeded(
        count,
        defer_finalize,
        before,
        step,
    ) implies #[trigger] succeeded(count, defer_finalize, happened, step) by {}
    assert forall|k: usize| succeeded(
        count,
        defer_finalize,
        before,
        PublishStage::StageEntry { index: k },
    ) implies #[trigger] succeeded(
        count,
        defer_finalize,
        happened,
        PublishStage::StageEntry { index: k },
    ) by {}
    assert forall|k: usize| succeeded(
        count,
        defer_finalize,
        before,
        PublishStage::PublishEntry { index: k },
    ) implies #[trigger] succeeded(
        count,
        defer_finalize,
        happened,
        PublishStage::PublishEntry { index: k },
    ) by {}
    if an_entry_failed(count, defer_finalize, before) {
        let k = choose|k: usize| #[trigger]
            came_of(
                count,
                defer_finalize,
                before,
                PublishStage::PublishEntry { index: k },
                PublishHappened::Failed,
            );
        assert(came_of(
            count,
            defer_finalize,
            happened,
            PublishStage::PublishEntry { index: k },
            PublishHappened::Failed,
        ));
    }
}

/// A publication ends with what really came about: everything was published only
/// if every single entry was staged and published behind the journal, it is
/// committed only where the decision is not put off, and it is told to be put back
/// only behind an entry that failed and a rollback that succeeded.
pub proof fn publications_tell_how_they_ended(
    count: usize,
    defer_finalize: bool,
    happened: Seq<PublishHappened>,
)
    ensures
        publication_was_met(
            count,
            defer_finalize,
            happened,
            publish_stage_after(count, defer_finalize, happened),
        ),
    decreases happened.len(),
{
    if happened.len() > 0 {
        let before = happened.drop_last();
        let step = publish_stage_after(count, defer_finalize, before);
        let stage = publish_stage_after(count, defer_finalize, happened);
        publications_tell_how_they_ended(count, defer_finalize, before);
        lemma_publication_stays(count, defer_finalize, happened, step);
        lemma_came_of_grows(count, defer_finalize, happened);
        match step {
            PublishStage::StageEntry { index } => {
                if happened.last() == PublishHappened::Succeeded {
                    assert(succeeded(count, defer_finalize, happened, step));
                    assert forall|k: usize| k <= index implies #[trigger] succeeded(
                        count,
                        defer_finalize,
                        happened,
                        PublishStage::StageEntry { index: k },
                    ) by {}
                }
            },
            PublishStage::PublishEntry { index } => {
                if happened.last() == PublishHappened::Succeeded {
                    assert(succeeded(count, defer_finalize, happened, step));
                    assert forall|k: usize| k <= index implies #[trigger] succeeded(
                        count,
                        defer_finalize,
                        happened,
                        PublishStage::PublishEntry { index: k },
                    ) by {}
                }
                if happened.last() == PublishHappened::Failed {
                    assert(came_of(
                        count,
                        defer_finalize,
                        happened,
                        PublishStage::PublishEntry { index },
                        PublishHappened::Failed,
                    ));
                }
            },
            _ => {},
        }
    }
}

/// No entry was to be published so far.
pub open spec fn nothing_touched(
    count: usize,
    defer_finalize: bool,
    happened: Seq<PublishHappened>,
) -> bool {
    forall|k: usize, what: PublishHappened|
        !(#[trigger] came_of(
            count,
            defer_finalize,
            happened,
            PublishStage::PublishEntry { index: k },
            what,
        ))
}

/// A publication that is told not to have started has touched no destination.
pub proof fn unstarted_publications_touch_nothing(
    count: usize,
    defer_finalize: bool,
    happened: Seq<PublishHappened>,
)
    ensures
        ({
            let stage = publish_stage_after(count, defer_finalize, happened);
            stage is Validate || stage is StageEntry || stage is Recheck || stage is OpenJournal
                || stage is DropStagingNote || stage == (PublishStage::Ended {
                end: PublishEnd::NotStarted,
            }) ==> nothing_touched(count, defer_finalize, happened)
        }),
    decreases happened.len(),
{
    if happened.len() > 0 {
        unstarted_publications_touch_nothing(count, defer_finalize, happened.drop_last());
        lemma_came_of_grows(count, defer_finalize, happened);
    } else {
        reveal(came_of);
    }
}

/// Nothing but success, so many times.
pub open spec fn all_well(count: nat) -> Seq<PublishHappened> {
    Seq::new(count, |i: int| PublishHappened::Succeeded)
}

proof fn lemma_all_well(count: usize, defer_finalize: bool, steps: nat)
    requires
        steps > 0,
    ensures
        publish_stage_after(count, defer_finalize, all_well(steps)) == next_publish_stage(
            publish_stage_after(count, defer_finalize, all_well((steps - 1) as nat)),
            count,
            defer_finalize,
            PublishHappened::Succeeded,
        ),
{
    assert(all_well(steps).drop_last() =~= all_well((steps - 1) as nat));
}

proof fn lemma_all_staged(count: usize, defer_finalize: bool, k: nat)
    requires
        k <= count,
    ensures
        publish_stage_after(count, defer_finalize, all_well(1 + k)) == if k == count {
            PublishStage::Recheck
        } else {
            PublishStage::StageEntry { index: k as usize }
        },
    decreases k,
{
    lemma_all_well(count, defer_finalize, 1 + k);
    if k > 0 {
        lemma_all_staged(count, defer_finalize, (k - 1) as nat);
    } else {
        assert(all_well(0).len() == 0);
    }
}

proof fn lemma_all_published(count: usize, defer_finalize: bool, k: nat)
    requires
        k <= count,
    ensures
        publish_stage_after(count, defer_finalize, all_well(4 + count as nat + k)) == if k
            == count {
            if defer_finalize {
                PublishStage::Ended { end: PublishEnd::Kept }
            } else {
                PublishStage::Commit
            }
        } else {
            PublishStage::PublishEntry { index: k as usize }
        },
    decreases k,
{
    lemma_all_well(count, defer_finalize, 4 + count as nat + k);
    if k > 0 {
        lemma_all_published(count, defer_finalize, (k - 1) as nat);
    } else {
        lemma_all_staged(count, defer_finalize, count as nat);
        lemma_all_well(count, defer_finalize, 2 + count as nat);
        lemma_all_well(count, defer_finalize, 3 + count as nat);
    }
}

/// A publication whose steps all succeed publishes every entry, and is committed
/// unless the decision is put off.
pub proof fn undisturbed_publications_are_whole(count: usize)
    ensures
        publish_stage_after(count, true, all_well(4 + 2 * count as nat)) == (PublishStage::Ended {
            end: PublishEnd::Kept,
        }),
        publish_stage_after(count, false, all_well(5 + 2 * count as nat)) == (PublishStage::Ended {
            end: PublishEnd::Published,
        }),
{
    lemma_all_published(count, true, count as nat);
    lemma_all_published(count, false, count as nat);
    lemma_all_well(count, false, 5 + 2 * count as nat);
}

} // verus!
