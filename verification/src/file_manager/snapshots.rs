//! Snapshots of the paths that an operation changes, and how they are put back.

use vstd::prelude::*;

use crate::file_manager::journal::JournalEntryMetadata;
use crate::file_manager::journal::JournalRecord;
use crate::file_manager::journal::JournalSnapshot;
use crate::file_manager::journal::PathRevision;
use crate::file_manager::namespace;
use crate::file_manager::operation::FileManagerEntryKind;
use crate::file_manager::tree;
use crate::file_manager::tree::Entry;
use crate::file_manager::tree::EntryMetadata;
use crate::path;
use crate::path::PathError;
use crate::text;

verus! {

/// How a snapshotted path is put back: whatever stands there is removed, then
/// the named copy is put there, if there is one, and the entries get their modes
/// and owners back.
#[derive(Clone, Debug, PartialEq, Eq)]
pub struct RestoreStep {
    pub path: String,
    pub backup: Option<String>,
    pub owners: Vec<JournalEntryMetadata>,
}

/// The modes and owners that were recorded before the operation, or after it.
pub open spec fn recorded_owners(snapshot: JournalSnapshot, after: bool) -> Seq<
    JournalEntryMetadata,
> {
    if after {
        snapshot.after_metadata@
    } else {
        snapshot.before_metadata@
    }
}

/// How the path of a snapshot is put back as it was before the operation, or
/// after it.
pub open spec fn puts_back(
    step: RestoreStep,
    snapshot: JournalSnapshot,
    after: bool,
    existed: bool,
) -> bool {
    &&& step.path == snapshot.path
    &&& step.backup == if existed {
        Some(snapshot.backup_name)
    } else {
        None
    }
    &&& owner_models(step.owners@) == if existed {
        owner_models(recorded_owners(snapshot, after))
    } else {
        Seq::empty()
    }
}

fn copy_owners(entries: &Vec<JournalEntryMetadata>) -> (copy: Vec<JournalEntryMetadata>)
    ensures
        owner_models(copy@) == owner_models(entries@),
{
    let mut copy: Vec<JournalEntryMetadata> = Vec::new();
    for i in 0..entries.len()
        invariant
            owner_models(copy@) == owner_models(entries@).take(i as int),
    {
        let ghost before = owner_models(copy@);
        let entry = &entries[i];
        copy.push(
            JournalEntryMetadata {
                path: entry.path.clone(),
                mode: entry.mode,
                uid: entry.uid,
                gid: entry.gid,
            },
        );
        assert(owner_models(copy@) =~= before.push(owner_model(*entry)));
        assert(owner_models(copy@) =~= owner_models(entries@).take(i + 1));
    }
    assert(owner_models(copy@) =~= owner_models(entries@));
    copy
}

fn restore_step(snapshot: &JournalSnapshot, after: bool, existed: bool) -> (step: RestoreStep)
    ensures
        puts_back(step, *snapshot, after, existed),
{
    let owners = if !existed {
        Vec::new()
    } else if after {
        copy_owners(&snapshot.after_metadata)
    } else {
        copy_owners(&snapshot.before_metadata)
    };
    assert(!existed ==> owner_models(owners@) =~= Seq::<OwnerModel>::empty());
    RestoreStep {
        path: snapshot.path.clone(),
        backup: if existed {
            Some(snapshot.backup_name.clone())
        } else {
            None
        },
        owners,
    }
}

/// How the paths of a journal are put back as they were before the operation,
/// the last one first.
pub fn restore_journal(record: &JournalRecord) -> (steps: Vec<RestoreStep>)
    ensures
        steps@.len() == record.snapshots@.len(),
        forall|i: int|
            0 <= i < steps@.len() ==> puts_back(
                #[trigger] steps@[i],
                record.snapshots@[record.snapshots@.len() - 1 - i],
                false,
                record.snapshots@[record.snapshots@.len() - 1 - i].existed,
            ),
{
    let mut steps: Vec<RestoreStep> = Vec::new();
    let count: usize = record.snapshots.len();
    for i in 0..count
        invariant
            count == record.snapshots@.len(),
            steps@.len() == i,
            forall|k: int|
                0 <= k < i ==> puts_back(
                    #[trigger] steps@[k],
                    record.snapshots@[count - 1 - k],
                    false,
                    record.snapshots@[count - 1 - k].existed,
                ),
    {
        let snapshot = &record.snapshots[count - 1 - i];
        steps.push(restore_step(snapshot, false, snapshot.existed));
    }
    steps
}

/// Something stood at the path after the operation: the first note about it says
/// so.
pub open spec fn existed_after(revisions: Seq<PathRevision>, path: Seq<char>) -> bool
    decreases revisions.len(),
{
    if revisions.len() == 0 {
        false
    } else if revisions[0].path@ == path {
        revisions[0].revision is Some
    } else {
        existed_after(revisions.drop_first(), path)
    }
}

/// Whether something stood at the path after the operation.
pub fn stood_after(revisions: &Vec<PathRevision>, path: &str) -> (stood: bool)
    ensures
        stood == existed_after(revisions@, path@),
{
    assert(revisions@.skip(0) =~= revisions@);
    for i in 0..revisions.len()
        invariant
            existed_after(revisions@, path@) == existed_after(revisions@.skip(i as int), path@),
    {
        assert(revisions@.skip(i as int).drop_first() =~= revisions@.skip(i + 1));
        if text::same(revisions[i].path.as_str(), path) {
            return revisions[i].revision.is_some();
        }
    }
    false
}

/// How the paths of a journal are put back as they were after the operation, the
/// last one first.
pub fn restore_after_journal(record: &JournalRecord) -> (steps: Vec<RestoreStep>)
    ensures
        steps@.len() == record.snapshots@.len(),
        forall|i: int|
            0 <= i < steps@.len() ==> puts_back(
                #[trigger] steps@[i],
                record.snapshots@[record.snapshots@.len() - 1 - i],
                true,
                existed_after(
                    record.after_revisions@,
                    record.snapshots@[record.snapshots@.len() - 1 - i].path@,
                ),
            ),
{
    let mut steps: Vec<RestoreStep> = Vec::new();
    let count: usize = record.snapshots.len();
    for i in 0..count
        invariant
            count == record.snapshots@.len(),
            steps@.len() == i,
            forall|k: int|
                0 <= k < i ==> puts_back(
                    #[trigger] steps@[k],
                    record.snapshots@[count - 1 - k],
                    true,
                    existed_after(record.after_revisions@, record.snapshots@[count - 1 - k].path@),
                ),
    {
        let snapshot = &record.snapshots[count - 1 - i];
        let existed = stood_after(&record.after_revisions, snapshot.path.as_str());
        steps.push(restore_step(snapshot, true, existed));
    }
    steps
}

/// Where a journal keeps the copy of a path: from before the operation, or from
/// after it.
pub fn backup_path(journal_root: &str, id: &str, after: bool, backup_name: &str) -> (path: String)
    ensures
        path@ == path::joined(
            path::joined(
                path::joined(journal_root@, id@),
                if after {
                    "after"@
                } else {
                    "before"@
                },
            ),
            backup_name@,
        ),
{
    let directory = path::join(journal_root, id);
    let side = if after {
        path::join(directory.as_str(), "after")
    } else {
        path::join(directory.as_str(), "before")
    };
    path::join(side.as_str(), backup_name)
}

// ---------------------------------------------------------------------------
// What putting snapshots back does to a root
// ---------------------------------------------------------------------------

/// The tree after the path has been put back: with what `kept` holds there, or
/// with nothing.
pub open spec fn after_step(
    now: namespace::Tree,
    step: RestoreStep,
    kept: namespace::Tree,
) -> namespace::Tree {
    let place = path::path_names(step.path@);
    match step.backup {
        Some(_) => namespace::graft(
            namespace::cut(now, place),
            place,
            namespace::part(kept, place),
        ),
        None => namespace::cut(now, place),
    }
}

/// The tree after the paths have been put back, one after the other. The copies
/// were made of `kept`.
pub open spec fn after_steps(
    now: namespace::Tree,
    steps: Seq<RestoreStep>,
    kept: namespace::Tree,
) -> namespace::Tree
    decreases steps.len(),
{
    if steps.len() == 0 {
        now
    } else {
        after_step(after_steps(now, steps.drop_last(), kept), steps.last(), kept)
    }
}

/// The trees agree at the place.
pub open spec fn agree_at(a: namespace::Tree, b: namespace::Tree, place: namespace::Place) -> bool {
    a.contains_key(place) == b.contains_key(place) && (a.contains_key(place) ==> a[place]
        == b[place])
}

/// The place lies at or below one of the paths.
pub open spec fn is_covered(steps: Seq<RestoreStep>, place: namespace::Place) -> bool {
    exists|i: int|
        0 <= i < steps.len() && namespace::at_or_below(
            place,
            path::path_names((#[trigger] steps[i]).path@),
        )
}

/// A copy was made of every path at which `kept` has something, and of no other.
pub open spec fn copies_are_of(steps: Seq<RestoreStep>, kept: namespace::Tree) -> bool {
    forall|i: int|
        0 <= i < steps.len() ==> ((#[trigger] steps[i]).backup is None ==> namespace::absent(
            kept,
            path::path_names(steps[i].path@),
        ))
}

proof fn lemma_step(
    now: namespace::Tree,
    step: RestoreStep,
    kept: namespace::Tree,
    place: namespace::Place,
)
    requires
        step.backup is None ==> namespace::absent(kept, path::path_names(step.path@)),
    ensures
        namespace::at_or_below(place, path::path_names(step.path@)) ==> agree_at(
            after_step(now, step, kept),
            kept,
            place,
        ),
        !namespace::at_or_below(place, path::path_names(step.path@)) ==> agree_at(
            after_step(now, step, kept),
            now,
            place,
        ),
{
    let top = path::path_names(step.path@);
    if namespace::at_or_below(place, top) {
        let rest = place.skip(top.len() as int);
        assert(top + rest =~= place) by {
            assert(place =~= place.take(top.len() as int) + rest);
        }
    }
}

proof fn lemma_steps(
    now: namespace::Tree,
    steps: Seq<RestoreStep>,
    kept: namespace::Tree,
    place: namespace::Place,
)
    requires
        copies_are_of(steps, kept),
    ensures
        is_covered(steps, place) ==> agree_at(after_steps(now, steps, kept), kept, place),
        !is_covered(steps, place) ==> agree_at(after_steps(now, steps, kept), now, place),
    decreases steps.len(),
{
    if steps.len() > 0 {
        let rest = steps.drop_last();
        assert forall|i: int| 0 <= i < rest.len() implies ((
        #[trigger] rest[i]).backup is None ==> namespace::absent(
            kept,
            path::path_names(rest[i].path@),
        )) by {
            assert(rest[i] == steps[i]);
        }
        lemma_steps(now, rest, kept, place);
        lemma_step(after_steps(now, rest, kept), steps.last(), kept, place);
        let last = steps.len() - 1;
        assert(steps[last] == steps.last());
        if is_covered(rest, place) {
            let i = choose|i: int|
                0 <= i < rest.len() && namespace::at_or_below(
                    place,
                    path::path_names((#[trigger] rest[i]).path@),
                );
            assert(steps[i] == rest[i]);
        }
        if is_covered(steps, place) && !namespace::at_or_below(
            place,
            path::path_names(steps.last().path@),
        ) {
            let i = choose|i: int|
                0 <= i < steps.len() && namespace::at_or_below(
                    place,
                    path::path_names((#[trigger] steps[i]).path@),
                );
            assert(rest[i] == steps[i]);
        }
    }
}

/// Putting the snapshots back gives the root as it was, whatever an operation
/// did at the snapshotted paths and below them.
pub proof fn snapshots_restore_the_root(
    start: namespace::Tree,
    now: namespace::Tree,
    steps: Seq<RestoreStep>,
)
    requires
        copies_are_of(steps, start),
        forall|place: namespace::Place|
            !is_covered(steps, place) ==> #[trigger] agree_at(now, start, place),
    ensures
        after_steps(now, steps, start) == start,
{
    let back = after_steps(now, steps, start);
    assert forall|place: namespace::Place| #[trigger]
        back.contains_key(place) <==> start.contains_key(place) by {
        lemma_steps(now, steps, start, place);
        if !is_covered(steps, place) {
            assert(agree_at(now, start, place));
        }
    }
    assert forall|place: namespace::Place| #[trigger] back.contains_key(place) implies back[place]
        == start[place] by {
        lemma_steps(now, steps, start, place);
        if !is_covered(steps, place) {
            assert(agree_at(now, start, place));
        }
    }
    assert(back =~= start);
}

// ---------------------------------------------------------------------------
// Modes and owners
// ---------------------------------------------------------------------------

/// The mode and the owner of a path, over texts.
pub struct OwnerModel {
    pub path: Seq<char>,
    pub mode: u32,
    pub uid: u32,
    pub gid: u32,
}

/// The mode and the owner of a path, over texts.
pub open spec fn owner_model(entry: JournalEntryMetadata) -> OwnerModel {
    OwnerModel { path: entry.path@, mode: entry.mode, uid: entry.uid, gid: entry.gid }
}

/// The modes and the owners of paths, over texts.
pub open spec fn owner_models(entries: Seq<JournalEntryMetadata>) -> Seq<OwnerModel> {
    Seq::new(entries.len(), |i: int| owner_model(entries[i]))
}

/// The mode and the owner of an entry.
pub open spec fn owner_of(metadata: EntryMetadata, relative: Seq<char>) -> OwnerModel {
    OwnerModel {
        path: path::forward_slashed(relative),
        mode: metadata.mode,
        uid: metadata.uid,
        gid: metadata.gid,
    }
}

/// The modes and the owners of an entry and of all below it: a directory comes
/// before what it holds.
pub open spec fn captured(entry: Entry, relative: Seq<char>) -> Seq<OwnerModel>
    decreases entry, 0nat,
{
    match entry {
        Entry::Leaf { name, kind, metadata } => seq![owner_of(metadata, relative)],
        Entry::Directory { name, metadata, children } => seq![owner_of(metadata, relative)]
            + captured_children(children@, relative),
    }
}

/// The modes and the owners of the entries of a directory.
pub open spec fn captured_children(children: Seq<Entry>, relative: Seq<char>) -> Seq<OwnerModel>
    decreases children, 1nat,
{
    if children.len() == 0 {
        Seq::empty()
    } else {
        captured_children(children.drop_last(), relative) + captured(
            children.last(),
            path::joined(relative, children.last().entry_text()),
        )
    }
}

fn capture_entry(entry: &Entry, relative: &str, entries: &mut Vec<JournalEntryMetadata>)
    requires
        tree::holds_texts(*entry),
    ensures
        owner_models(final(entries)@) == owner_models(old(entries)@) + captured(*entry, relative@),
    decreases entry,
{
    let ghost start = owner_models(entries@);
    match entry {
        Entry::Leaf { name: _, kind: _, metadata } => {
            entries.push(
                JournalEntryMetadata {
                    path: path::path_string(relative),
                    mode: metadata.mode,
                    uid: metadata.uid,
                    gid: metadata.gid,
                },
            );
            assert(owner_models(entries@) =~= start + captured(*entry, relative@));
        },
        Entry::Directory { name: _, metadata, children } => {
            entries.push(
                JournalEntryMetadata {
                    path: path::path_string(relative),
                    mode: metadata.mode,
                    uid: metadata.uid,
                    gid: metadata.gid,
                },
            );
            let ghost head = seq![owner_of(*metadata, relative@)];
            assert(owner_models(entries@) =~= start + head);
            assert(children@.take(0) =~= Seq::<Entry>::empty());
            assert(start + head + captured_children(children@.take(0), relative@) =~= start + head);
            for i in 0..children.len()
                invariant
                    decreases_to!(entry => children),
                    tree::are_texts(children@),
                    owner_models(entries@) == start + head + captured_children(
                        children@.take(i as int),
                        relative@,
                    ),
            {
                let ghost before = captured_children(children@.take(i as int), relative@);
                assert(children@.take(i + 1).drop_last() =~= children@.take(i as int));
                assert(children@.take(i + 1).last() == children@[i as int]);
                proof {
                    tree::lemma_are_texts(children@, i as int);
                }
                let name = children[i].held_text();
                let below = path::join(relative, name.as_str());
                capture_entry(&children[i], below.as_str(), entries);
                proof {
                    let more = captured(children@[i as int], below@);
                    assert(start + head + before + more =~= start + head + (before + more));
                }
            }
            proof {
                assert(children@.take(children@.len() as int) =~= children@);
                let below = captured_children(children@, relative@);
                assert(start + head + below =~= start + (head + below));
            }
        },
    }
}

/// The modes and the owners of an entry and of all below it, each with its path
/// inside the entry. Nothing comes back where a name is no text.
pub fn capture_journal_metadata(entry: &Entry) -> (captures: Option<Vec<JournalEntryMetadata>>)
    ensures
        match captures {
            Some(entries) => tree::holds_texts(*entry) && owner_models(entries@) == captured(
                *entry,
                Seq::empty(),
            ),
            None => !tree::holds_texts(*entry),
        },
{
    if !tree::has_texts(entry) {
        return None;
    }
    let mut entries: Vec<JournalEntryMetadata> = Vec::new();
    let root = String::new();
    assert(root@ =~= Seq::<char>::empty());
    assert(owner_models(entries@) =~= Seq::<OwnerModel>::empty());
    capture_entry(entry, root.as_str(), &mut entries);
    assert(owner_models(entries@) =~= captured(*entry, Seq::empty()));
    Some(entries)
}

/// A path that gets its mode and its owner back.
#[derive(Clone, Debug, PartialEq, Eq)]
pub struct OwnerStep {
    pub path: String,
    pub mode: u32,
    pub uid: u32,
    pub gid: u32,
}

/// Where a recorded mode and owner belongs, below the path of the snapshot.
pub open spec fn recorded_place(relative: Seq<char>, recorded: Seq<char>) -> Result<
    Seq<char>,
    PathError,
> {
    if recorded.len() == 0 {
        Ok(relative)
    } else {
        match path::relative_path_outcome(recorded, false) {
            Some(error) => Err(error),
            None => Ok(path::joined(relative, recorded)),
        }
    }
}

/// The paths that get their modes and owners back, and in which order: what a
/// directory holds comes before the directory. A path that leaves the snapshot is
/// refused.
pub fn restore_journal_metadata(relative: &str, entries: &Vec<JournalEntryMetadata>) -> (steps: Result<
    Vec<OwnerStep>,
    PathError,
>)
    ensures
        match steps {
            Ok(list) => list@.len() == entries@.len() && forall|i: int|
                0 <= i < list@.len() ==> {
                    let entry = entries@[entries@.len() - 1 - i];
                    &&& recorded_place(relative@, entry.path@) == Ok::<Seq<char>, PathError>(
                        (#[trigger] list@[i]).path@,
                    )
                    &&& list@[i].mode == entry.mode
                    &&& list@[i].uid == entry.uid
                    &&& list@[i].gid == entry.gid
                },
            Err(error) => exists|i: int|
                {
                    &&& 0 <= i < entries@.len()
                    &&& recorded_place(relative@, (#[trigger] entries@[i]).path@) == Err::<
                        Seq<char>,
                        PathError,
                    >(error)
                    &&& forall|j: int|
                        i < j < entries@.len() ==> recorded_place(
                            relative@,
                            (#[trigger] entries@[j]).path@,
                        ) is Ok
                },
        },
{
    let mut steps: Vec<OwnerStep> = Vec::new();
    let mut left: usize = entries.len();
    while left > 0
        invariant
            left <= entries@.len(),
            steps@.len() == entries@.len() - left,
            forall|i: int|
                0 <= i < steps@.len() ==> {
                    let entry = entries@[entries@.len() - 1 - i];
                    &&& recorded_place(relative@, entry.path@) == Ok::<Seq<char>, PathError>(
                        (#[trigger] steps@[i]).path@,
                    )
                    &&& steps@[i].mode == entry.mode
                    &&& steps@[i].uid == entry.uid
                    &&& steps@[i].gid == entry.gid
                },
            forall|j: int|
                left <= j < entries@.len() ==> recorded_place(
                    relative@,
                    (#[trigger] entries@[j]).path@,
                ) is Ok,
        decreases left,
    {
        left = left - 1;
        let entry = &entries[left];
        let place = if text::chars_of(entry.path.as_str()).len() == 0 {
            relative.to_owned()
        } else {
            match path::relative_path(entry.path.as_str(), false) {
                Err(error) => {
                    return Err(error);
                },
                Ok(inner) => path::join(relative, inner.as_str()),
            }
        };
        steps.push(
            OwnerStep { path: place, mode: entry.mode, uid: entry.uid, gid: entry.gid },
        );
    }
    Ok(steps)
}

/// What is done to a path that gets its mode and its owner back.
#[derive(Clone, Copy, Debug, PartialEq, Eq, Structural)]
pub struct OwnerChange {
    pub change_owner: bool,
    /// The mode that is set; that of a link is not.
    pub set_mode: Option<u32>,
}

/// What is done to a path that gets its mode and its owner back, by what stands
/// there. Nothing is done to anything but a file, a directory or a link.
pub fn apply_recorded_file_metadata(
    kind: FileManagerEntryKind,
    current_uid: u32,
    current_gid: u32,
    step: &OwnerStep,
    preserve_privilege_bits: bool,
) -> (change: Option<OwnerChange>)
    ensures
        change == match kind {
            FileManagerEntryKind::Special => None,
            FileManagerEntryKind::Symlink => Some(
                OwnerChange {
                    change_owner: current_uid != step.uid || current_gid != step.gid,
                    set_mode: None,
                },
            ),
            _ => Some(
                OwnerChange {
                    change_owner: current_uid != step.uid || current_gid != step.gid,
                    set_mode: Some(
                        step.mode & if preserve_privilege_bits {
                            0o7777u32
                        } else {
                            0o1777u32
                        },
                    ),
                },
            ),
        },
{
    let change_owner = current_uid != step.uid || current_gid != step.gid;
    match kind {
        FileManagerEntryKind::Special => None,
        FileManagerEntryKind::Symlink => Some(OwnerChange { change_owner, set_mode: None }),
        _ => {
            let mask: u32 = if preserve_privilege_bits {
                0o7777
            } else {
                0o1777
            };
            Some(OwnerChange { change_owner, set_mode: Some(step.mode & mask) })
        },
    }
}

proof fn lemma_captured_paths(entry: Entry, relative: Seq<char>)
    ensures
        captured(entry, relative).len() > 0,
        captured(entry, relative)[0] == owner_of(entry.entry_metadata(), relative),
{
}

/// An entry is recorded before all that is below it, and so gets its mode and its
/// owner back after all of them: a directory that may not be entered any more
/// does not keep what it holds from being restored.
pub proof fn directories_are_recorded_first(entry: Entry, relative: Seq<char>, i: int)
    requires
        0 <= i < entry.entries().len(),
    ensures
        captured(entry, relative)[0] == owner_of(entry.entry_metadata(), relative),
        exists|k: int|
            1 <= k < captured(entry, relative).len() && #[trigger] captured(entry, relative)[k]
                == owner_of(
                entry.entries()[i].entry_metadata(),
                path::joined(relative, entry.entries()[i].entry_text()),
            ),
{
    lemma_captured_paths(entry, relative);
    match entry {
        Entry::Directory { name, metadata, children } => {
            lemma_child_is_recorded(children@, relative, i);
            let below = captured_children(children@, relative);
            let k = choose|k: int|
                0 <= k < below.len() && #[trigger] below[k] == owner_of(
                    children@[i].entry_metadata(),
                    path::joined(relative, children@[i].entry_text()),
                );
            assert(captured(entry, relative)[k + 1] == below[k]);
        },
        Entry::Leaf { name, kind, metadata } => {},
    }
}

proof fn lemma_child_is_recorded(children: Seq<Entry>, relative: Seq<char>, i: int)
    requires
        0 <= i < children.len(),
    ensures
        exists|k: int|
            0 <= k < captured_children(children, relative).len() && #[trigger] captured_children(
                children,
                relative,
            )[k] == owner_of(
                children[i].entry_metadata(),
                path::joined(relative, children[i].entry_text()),
            ),
    decreases children.len(),
{
    let rest = children.drop_last();
    let before = captured_children(rest, relative);
    let all = captured_children(children, relative);
    if i < rest.len() {
        lemma_child_is_recorded(rest, relative, i);
        let k = choose|k: int|
            0 <= k < before.len() && #[trigger] before[k] == owner_of(
                rest[i].entry_metadata(),
                path::joined(relative, rest[i].entry_text()),
            );
        assert(all[k] == before[k]);
    } else {
        let inner = path::joined(relative, children.last().entry_text());
        lemma_captured_paths(children.last(), inner);
        assert(all[before.len() as int] == captured(children.last(), inner)[0]);
    }
}

/// The path that the way leads to, seen from the path of the top.
pub open spec fn joined_along(entry: Entry, top: Seq<char>, way: Seq<int>) -> Seq<char>
    decreases way.len(),
{
    if way.len() == 0 {
        top
    } else {
        let next = entry.entries()[way[0]];
        joined_along(next, path::joined(top, next.entry_text()), way.drop_first())
    }
}

proof fn lemma_captured_counts(entry: Entry, relative: Seq<char>)
    ensures
        captured(entry, relative).len() == tree::entry_count(entry),
    decreases entry, 0nat,
{
    if let Entry::Directory { children, .. } = entry {
        assert(decreases_to!(entry => children));
        assert(decreases_to!(children => children@));
        lemma_captured_children_counts(children@, relative);
    }
}

proof fn lemma_captured_children_counts(children: Seq<Entry>, relative: Seq<char>)
    ensures
        captured_children(children, relative).len() == tree::all_count(children),
    decreases children, 1nat,
{
    if children.len() > 0 {
        lemma_captured_children_counts(children.drop_last(), relative);
        assert(decreases_to!(children => children[children.len() - 1]));
        lemma_captured_counts(
            children.last(),
            path::joined(relative, children.last().entry_text()),
        );
    }
}

proof fn lemma_captured_part(children: Seq<Entry>, relative: Seq<char>, i: int) -> (at: nat)
    requires
        0 <= i < children.len(),
    ensures
        ({
            let all = captured_children(children, relative);
            let part = captured(children[i], path::joined(relative, children[i].entry_text()));
            &&& at + part.len() <= all.len()
            &&& all.subrange(at as int, (at + part.len()) as int) == part
        }),
    decreases children.len(),
{
    let rest = children.drop_last();
    let before = captured_children(rest, relative);
    let all = captured_children(children, relative);
    let part = captured(children[i], path::joined(relative, children[i].entry_text()));
    if i < rest.len() {
        let at = lemma_captured_part(rest, relative, i);
        assert(all.subrange(at as int, (at + part.len()) as int) =~= before.subrange(
            at as int,
            (at + part.len()) as int,
        ));
        at
    } else {
        assert(all.subrange(before.len() as int, (before.len() + part.len()) as int) =~= part);
        before.len()
    }
}

/// The owners and modes of a whole tree are recorded: those of every entry that a
/// way through the tree leads to, under its path, and of nothing else. There are as
/// many records as there are entries, and that of a directory comes before those
/// below it.
pub proof fn whole_trees_are_recorded(entry: Entry, relative: Seq<char>, way: Seq<int>) -> (k: int)
    requires
        tree::leads(entry, way),
    ensures
        captured(entry, relative).len() == tree::entry_count(entry),
        0 <= k < captured(entry, relative).len(),
        k == 0 <==> way.len() == 0,
        captured(entry, relative)[k].path == path::forward_slashed(
            joined_along(entry, relative, way),
        ),
        captured(entry, relative)[k].mode == tree::entry_along(entry, way).entry_metadata().mode,
        captured(entry, relative)[k].uid == tree::entry_along(entry, way).entry_metadata().uid,
        captured(entry, relative)[k].gid == tree::entry_along(entry, way).entry_metadata().gid,
    decreases way.len(),
{
    lemma_captured_counts(entry, relative);
    let all = captured(entry, relative);
    if way.len() == 0 {
        0
    } else {
        let children = entry.entries();
        let next = children[way[0]];
        let inner = path::joined(relative, next.entry_text());
        let below = captured_children(children, relative);
        let at = lemma_captured_part(children, relative, way[0]);
        let part = captured(next, inner);
        let k = whole_trees_are_recorded(next, inner, way.drop_first());
        assert(below.subrange(at as int, (at + part.len()) as int)[k] == below[at + k]);
        assert(all[1 + at + k] == below[at + k]);
        1 + at + k
    }
}

/// Whether a path existed afterwards is told by its first recorded revision; a path
/// without one did not.
pub proof fn first_revisions_tell(revisions: Seq<PathRevision>, path: Seq<char>)
    ensures
        existed_after(revisions, path) <==> exists|i: int|
            {
                &&& 0 <= i < revisions.len()
                &&& (#[trigger] revisions[i]).path@ == path
                &&& revisions[i].revision is Some
                &&& forall|j: int| 0 <= j < i ==> (#[trigger] revisions[j]).path@ != path
            },
    decreases revisions.len(),
{
    if revisions.len() > 0 {
        let rest = revisions.drop_first();
        first_revisions_tell(rest, path);
        if revisions[0].path@ != path {
            if existed_after(rest, path) {
                let i = choose|i: int|
                    {
                        &&& 0 <= i < rest.len()
                        &&& (#[trigger] rest[i]).path@ == path
                        &&& rest[i].revision is Some
                        &&& forall|j: int| 0 <= j < i ==> (#[trigger] rest[j]).path@ != path
                    };
                assert(revisions[i + 1] == rest[i]);
                assert forall|j: int| 0 <= j < i + 1 implies (#[trigger] revisions[j]).path@
                    != path by {
                    if j > 0 {
                        assert(revisions[j] == rest[j - 1]);
                    }
                }
            }
            if exists|i: int|
                {
                    &&& 0 <= i < revisions.len()
                    &&& (#[trigger] revisions[i]).path@ == path
                    &&& revisions[i].revision is Some
                    &&& forall|j: int| 0 <= j < i ==> (#[trigger] revisions[j]).path@ != path
                } {
                let i = choose|i: int|
                    {
                        &&& 0 <= i < revisions.len()
                        &&& (#[trigger] revisions[i]).path@ == path
                        &&& revisions[i].revision is Some
                        &&& forall|j: int| 0 <= j < i ==> (#[trigger] revisions[j]).path@ != path
                    };
                assert(rest[i - 1] == revisions[i]);
                assert forall|j: int| 0 <= j < i - 1 implies (#[trigger] rest[j]).path@ != path by {
                    assert(rest[j] == revisions[j + 1]);
                }
            }
        } else {
            assert(revisions[0].path@ == path);
        }
    } else {
        assert forall|i: int| 0 <= i < revisions.len() implies (#[trigger] revisions[i]).path@
            != path by {}
    }
}

/// A record puts a path back with the backup that was made of it and the owners of
/// that time, or removes what has come to stand there.
pub proof fn steps_follow_their_records(
    step: RestoreStep,
    snapshot: JournalSnapshot,
    after: bool,
    existed: bool,
)
    requires
        puts_back(step, snapshot, after, existed),
    ensures
        step.path@ == snapshot.path@,
        existed <==> step.backup is Some,
        step.backup matches Some(name) ==> name@ == snapshot.backup_name@,
        existed && after ==> owner_models(step.owners@) == owner_models(snapshot.after_metadata@),
        existed && !after ==> owner_models(step.owners@) == owner_models(
            snapshot.before_metadata@,
        ),
        !existed ==> step.owners@.len() == 0,
{
    if !existed {
        assert(owner_models(step.owners@).len() == 0);
    }
}

/// What was recorded of a tree is put back at its own place: the top at the path
/// itself, everything else below it, and nothing outside of it.
pub proof fn records_stay_below_their_path(relative: Seq<char>, recorded: Seq<char>)
    ensures
        recorded.len() == 0 ==> recorded_place(relative, recorded) == Ok::<Seq<char>, PathError>(
            relative,
        ),
        recorded.len() > 0 ==> (recorded_place(relative, recorded) is Ok
            <==> path::relative_path_outcome(recorded, false) is None),
        recorded.len() > 0 && recorded_place(relative, recorded) is Ok ==> recorded_place(
            relative,
            recorded,
        )->Ok_0 == path::joined(relative, recorded),
{
}

} // verus!
