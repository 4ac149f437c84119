//! Carrying out operations: how much work and space they take, what they copy,
//! remove and replace, and when they are refused.

use vstd::prelude::*;

use crate::file_manager::actions;
use crate::file_manager::actions::ActionError;
use crate::file_manager::conflict;
use crate::file_manager::conflict::Destination;
use crate::file_manager::conflict::FileManagerConflictDecision;
use crate::file_manager::copying::CopyTarget;
use crate::file_manager::journal::PathRevision;
use crate::file_manager::limits;
use crate::file_manager::limits::LimitError;
use crate::file_manager::limits::SpaceRequirements;
use crate::file_manager::limits::WorkTotal;
use crate::file_manager::operation::FileManagerOperation;
use crate::file_manager::operation::FileManagerRevision;
use crate::file_manager::operation::OperationError;
use crate::file_manager::tree;
use crate::file_manager::tree::Entry;
use crate::file_manager::tree::LeafKind;
use crate::order;
use crate::path;
use crate::text;

verus! {

// ---------------------------------------------------------------------------
// Whether an operation can be carried out by changing names only
// ---------------------------------------------------------------------------

/// What is seen of an entry.
#[derive(Clone, Copy, Debug, PartialEq, Eq, Structural)]
pub struct EntrySeen {
    pub device: u64,
    pub directory: bool,
}

/// What is seen of a place that an entry is put at.
#[derive(Clone, Copy, Debug, PartialEq, Eq, Structural)]
pub struct PlaceSeen {
    pub parent_device: u64,
    pub entry: Option<EntrySeen>,
}

/// What stands at the place can be moved away within the device.
pub open spec fn replaceable(place: PlaceSeen, device: u64) -> bool {
    place.parent_device == device && (place.entry matches Some(entry) ==> entry.device == device)
}

fn is_replaceable(place: PlaceSeen, device: u64) -> (can: bool)
    ensures
        can == replaceable(place, device),
{
    place.parent_device == device && match place.entry {
        Some(entry) => entry.device == device,
        None => true,
    }
}

/// The entry can be moved to the place by a rename: both lie on the device, and
/// a directory is not merged into another.
pub open spec fn movable(source: EntrySeen, place: PlaceSeen, device: u64) -> bool {
    &&& source.device == device
    &&& place.parent_device == device
    &&& place.entry matches Some(entry) ==> entry.device == device && !(source.directory
        && entry.directory)
}

fn is_movable(source: EntrySeen, place: PlaceSeen, device: u64) -> (can: bool)
    ensures
        can == movable(source, place, device),
{
    source.device == device && place.parent_device == device && match place.entry {
        Some(entry) => entry.device == device && !(source.directory && entry.directory),
        None => true,
    }
}

/// Whether all sources lie on the device. The first one that does not, or that
/// is not there, settles it.
pub open spec fn all_local(sources: Seq<Option<EntrySeen>>, device: u64) -> Result<
    bool,
    ActionError,
>
    decreases sources.len(),
{
    if sources.len() == 0 {
        Ok(true)
    } else {
        match sources[0] {
            None => Err(ActionError::Missing),
            Some(entry) => if entry.device != device {
                Ok(false)
            } else {
                all_local(sources.drop_first(), device)
            },
        }
    }
}

/// Whether all sources can be moved by renames. The first one that cannot, or
/// that is not there, settles it.
pub open spec fn all_movable(
    sources: Seq<Option<EntrySeen>>,
    places: Seq<PlaceSeen>,
    device: u64,
) -> Result<bool, ActionError>
    decreases sources.len(),
{
    if sources.len() == 0 {
        Ok(true)
    } else {
        match sources[0] {
            None => Err(ActionError::Missing),
            Some(entry) => if !movable(entry, places[0], device) {
                Ok(false)
            } else {
                all_movable(sources.drop_first(), places.drop_first(), device)
            },
        }
    }
}

/// The places are free and on the device.
pub open spec fn all_free(places: Seq<PlaceSeen>, device: u64) -> bool {
    forall|i: int|
        0 <= i < places.len() ==> (#[trigger] places[i]).entry is None && places[i].parent_device
            == device
}

/// The numbers of sources and places that are looked at for an operation.
pub open spec fn observations(operation: FileManagerOperation, targets: Seq<CopyTarget>) -> (
    nat,
    nat,
) {
    match operation {
        FileManagerOperation::CreateFile { .. } => (0, 1),
        FileManagerOperation::CreateDirectory { .. } => (0, 1),
        FileManagerOperation::Rename { .. } => (1, 1),
        FileManagerOperation::Delete { paths } => (paths@.len(), 0),
        FileManagerOperation::Move { paths, .. } => (paths@.len(), paths@.len()),
        FileManagerOperation::Copy { .. } => (0, targets.len()),
        _ => (0, 0),
    }
}

/// Whether the operation can be carried out by changing names only.
pub open spec fn by_name_only(
    operation: FileManagerOperation,
    device: u64,
    sources: Seq<Option<EntrySeen>>,
    places: Seq<PlaceSeen>,
) -> Result<bool, ActionError> {
    match operation {
        FileManagerOperation::CreateFile { .. } => Ok(replaceable(places[0], device)),
        FileManagerOperation::CreateDirectory { .. } => Ok(replaceable(places[0], device)),
        FileManagerOperation::Rename { .. } => match sources[0] {
            None => Err(ActionError::Missing),
            Some(entry) => Ok(entry.device == device && replaceable(places[0], device)),
        },
        FileManagerOperation::Delete { .. } => all_local(sources, device),
        FileManagerOperation::Move { .. } => all_movable(sources, places, device),
        FileManagerOperation::Copy { .. } => Ok(all_free(places, device)),
        _ => Ok(false),
    }
}

/// Whether the operation can be carried out by changing names only: everything
/// lies on the device of the root, and nothing is merged. `sources` are the
/// entries that leave their place, `places` those that entries are put at.
#[verifier::loop_isolation(false)]
pub fn supports_action_journal(
    operation: &FileManagerOperation,
    targets: &Vec<CopyTarget>,
    device: u64,
    sources: &Vec<Option<EntrySeen>>,
    places: &Vec<PlaceSeen>,
) -> (supported: Result<bool, ActionError>)
    requires
        (sources@.len(), places@.len()) == observations(*operation, targets@),
    ensures
        supported == by_name_only(*operation, device, sources@, places@),
{
    match operation {
        FileManagerOperation::CreateFile { .. } => Ok(is_replaceable(places[0], device)),
        FileManagerOperation::CreateDirectory { .. } => Ok(is_replaceable(places[0], device)),
        FileManagerOperation::Rename { .. } => match sources[0] {
            None => Err(ActionError::Missing),
            Some(entry) => Ok(entry.device == device && is_replaceable(places[0], device)),
        },
        FileManagerOperation::Delete { .. } => {
            assert(sources@.skip(0) =~= sources@);
            for i in 0..sources.len()
                invariant
                    all_local(sources@, device) == all_local(sources@.skip(i as int), device),
            {
                assert(sources@.skip(i as int).drop_first() =~= sources@.skip(i + 1));
                match sources[i] {
                    None => {
                        return Err(ActionError::Missing);
                    },
                    Some(entry) => {
                        if entry.device != device {
                            return Ok(false);
                        }
                    },
                }
            }
            Ok(true)
        },
        FileManagerOperation::Move { .. } => {
            assert(sources@.skip(0) =~= sources@);
            assert(places@.skip(0) =~= places@);
            for i in 0..sources.len()
                invariant
                    sources@.len() == places@.len(),
                    all_movable(sources@, places@, device) == all_movable(
                        sources@.skip(i as int),
                        places@.skip(i as int),
                        device,
                    ),
            {
                assert(sources@.skip(i as int).drop_first() =~= sources@.skip(i + 1));
                assert(places@.skip(i as int).drop_first() =~= places@.skip(i + 1));
                match sources[i] {
                    None => {
                        return Err(ActionError::Missing);
                    },
                    Some(entry) => {
                        if !is_movable(entry, places[i], device) {
                            return Ok(false);
                        }
                    },
                }
            }
            Ok(true)
        },
        FileManagerOperation::Copy { .. } => {
            for i in 0..places.len()
                invariant
                    forall|k: int|
                        0 <= k < i ==> (#[trigger] places@[k]).entry is None
                            && places@[k].parent_device == device,
            {
                if places[i].entry.is_some() || places[i].parent_device != device {
                    assert(!(places@[i as int].entry is None && places@[i as int].parent_device
                        == device));
                    return Ok(false);
                }
            }
            Ok(true)
        },
        _ => Ok(false),
    }
}

/// Directories are never merged by changing names only.
pub proof fn merged_directories_are_not_renamed(
    operation: FileManagerOperation,
    device: u64,
    sources: Seq<Option<EntrySeen>>,
    places: Seq<PlaceSeen>,
    i: int,
)
    requires
        operation is Move,
        sources.len() == places.len(),
        0 <= i < sources.len(),
        sources[i] matches Some(entry) && entry.directory,
        places[i].entry matches Some(entry) && entry.directory,
    ensures
        by_name_only(operation, device, sources, places) != Ok::<bool, ActionError>(true),
    decreases i,
{
    if i > 0 {
        assert(sources.drop_first()[i - 1] == sources[i]);
        assert(places.drop_first()[i - 1] == places[i]);
        merged_directories_are_not_renamed(
            operation,
            device,
            sources.drop_first(),
            places.drop_first(),
            i - 1,
        );
    }
}

// ---------------------------------------------------------------------------
// Work and space
// ---------------------------------------------------------------------------

/// The work of an operation. `selected` are the entries at its selected paths,
/// or the sources of its copies; `extraction` is the work of extracting its
/// archive.
pub open spec fn work_of(
    operation: FileManagerOperation,
    selected: Seq<Option<Entry>>,
    extraction: WorkTotal,
    maximum: u64,
) -> Result<WorkTotal, LimitError> {
    match operation {
        FileManagerOperation::CreateFile { .. } => Ok(WorkTotal { entries: 1, bytes: 0 }),
        FileManagerOperation::CreateDirectory { .. } => Ok(WorkTotal { entries: 1, bytes: 0 }),
        FileManagerOperation::Rename { .. } => Ok(WorkTotal { entries: 1, bytes: 0 }),
        FileManagerOperation::WriteText { contents, .. } => Ok(
            WorkTotal { entries: 1, bytes: vstd::utf8::encode_utf8(contents@).len() as u64 },
        ),
        FileManagerOperation::Move { .. } => match tree::paths_work(selected, maximum) {
            Ok(work) => Ok(WorkTotal { entries: work.entries, bytes: 0 }),
            Err(error) => Err(error),
        },
        FileManagerOperation::Delete { .. } => tree::paths_work(selected, maximum),
        FileManagerOperation::CreateArchive { .. } => tree::paths_work(selected, maximum),
        FileManagerOperation::Copy { .. } => tree::paths_work(selected, maximum),
        FileManagerOperation::ExtractArchive { .. } => Ok(extraction),
    }
}

/// The work of an operation. `selected` are the entries at its selected paths,
/// or the sources of its copies; `extraction` is the work of extracting its
/// archive.
pub fn operation_work(
    operation: &FileManagerOperation,
    selected: &Vec<Option<Entry>>,
    extraction: WorkTotal,
    maximum: u64,
) -> (work: Result<WorkTotal, LimitError>)
    ensures
        work == work_of(*operation, selected@, extraction, maximum),
{
    match operation {
        FileManagerOperation::CreateFile { .. } => Ok(WorkTotal { entries: 1, bytes: 0 }),
        FileManagerOperation::CreateDirectory { .. } => Ok(WorkTotal { entries: 1, bytes: 0 }),
        FileManagerOperation::Rename { .. } => Ok(WorkTotal { entries: 1, bytes: 0 }),
        FileManagerOperation::WriteText { contents, .. } => Ok(
            WorkTotal { entries: 1, bytes: contents.as_str().as_bytes().len() as u64 },
        ),
        FileManagerOperation::Move { .. } => match tree::work_for_paths(selected, maximum) {
            Ok(work) => Ok(WorkTotal { entries: work.entries, bytes: 0 }),
            Err(error) => Err(error),
        },
        FileManagerOperation::Delete { .. } => tree::work_for_paths(selected, maximum),
        FileManagerOperation::CreateArchive { .. } => tree::work_for_paths(selected, maximum),
        FileManagerOperation::Copy { .. } => tree::work_for_paths(selected, maximum),
        FileManagerOperation::ExtractArchive { .. } => Ok(extraction),
    }
}

/// What an archive takes beyond its contents and a tenth of them, in bytes.
pub const ARCHIVE_OVERHEAD_BYTES: u64 = 1048576;

/// The bytes that an operation writes next to its target.
pub open spec fn target_bytes(
    operation: FileManagerOperation,
    work: WorkTotal,
    extraction_capacity: u64,
) -> u64 {
    match operation {
        FileManagerOperation::Copy { .. } => work.bytes,
        FileManagerOperation::CreateArchive { .. } => limits::saturating_sum(
            limits::saturating_sum(work.bytes, (work.bytes / 10) as u64),
            ARCHIVE_OVERHEAD_BYTES,
        ),
        FileManagerOperation::ExtractArchive { .. } => extraction_capacity,
        FileManagerOperation::WriteText { contents, .. } => vstd::utf8::encode_utf8(
            contents@,
        ).len() as u64,
        _ => 0,
    }
}

/// The space that an operation takes: what it changes is kept in the journal,
/// what it writes lies next to its target. `watched` are the entries that it
/// changes, `work` is its work.
pub fn operation_space_requirements(
    operation: &FileManagerOperation,
    watched: &Vec<Option<Entry>>,
    work: WorkTotal,
    extraction_capacity: u64,
    maximum: u64,
) -> (required: Result<SpaceRequirements, LimitError>)
    ensures
        match required {
            Ok(space) => {
                &&& tree::paths_work(watched@, maximum) is Ok
                &&& space.journal_bytes == tree::paths_work(watched@, maximum)->Ok_0.bytes
                &&& space.target_bytes == target_bytes(*operation, work, extraction_capacity)
            },
            Err(error) => tree::paths_work(watched@, maximum) == Err::<WorkTotal, LimitError>(
                error,
            ),
        },
{
    let journal_bytes: u64 = match tree::work_for_paths(watched, maximum) {
        Ok(before) => before.bytes,
        Err(error) => {
            return Err(error);
        },
    };
    let target_bytes: u64 = match operation {
        FileManagerOperation::Copy { .. } => work.bytes,
        FileManagerOperation::CreateArchive { .. } => work.bytes.saturating_add(
            work.bytes / 10,
        ).saturating_add(ARCHIVE_OVERHEAD_BYTES),
        FileManagerOperation::ExtractArchive { .. } => extraction_capacity,
        FileManagerOperation::WriteText { contents, .. } =>
            contents.as_str().as_bytes().len() as u64,
        _ => 0,
    };
    Ok(SpaceRequirements { journal_bytes, target_bytes })
}

// ---------------------------------------------------------------------------
// Copying and removing trees
// ---------------------------------------------------------------------------

/// Why a tree cannot be copied.
#[derive(Clone, Copy, Debug, PartialEq, Eq, Structural)]
pub enum CopyRefusal {
    /// The tree has too many entries.
    Limit(LimitError),
    /// Symbolic links are not copied.
    Symlink,
    /// Special entries are not copied.
    Special,
}

/// The number of entries that have been copied once the tree has been, if
/// `copied` had been before; or why copying stops.
pub open spec fn copied_entries(entry: Entry, copied: u64, maximum: u64) -> Result<u64, CopyRefusal>
    decreases entry, 0nat,
{
    let count = limits::saturating_sum(copied, 1);
    if count > maximum {
        Err(CopyRefusal::Limit(LimitError::TooManyEntries { maximum }))
    } else {
        match entry {
            Entry::Leaf { kind, .. } => match kind {
                LeafKind::File => Ok(count),
                LeafKind::Symlink => Err(CopyRefusal::Symlink),
                LeafKind::Special => Err(CopyRefusal::Special),
            },
            Entry::Directory { children, .. } => copied_children(children@, count, maximum),
        }
    }
}

/// The same for the entries of a directory, one after the other.
pub open spec fn copied_children(children: Seq<Entry>, copied: u64, maximum: u64) -> Result<
    u64,
    CopyRefusal,
>
    decreases children, 1nat,
{
    if children.len() == 0 {
        Ok(copied)
    } else {
        match copied_children(children.drop_last(), copied, maximum) {
            Err(error) => Err(error),
            Ok(count) => copied_entries(children.last(), count, maximum),
        }
    }
}

proof fn lemma_copy_stops(children: Seq<Entry>, n: int, copied: u64, maximum: u64)
    requires
        0 <= n <= children.len(),
        copied_children(children.take(n), copied, maximum) is Err,
    ensures
        copied_children(children, copied, maximum) == copied_children(
            children.take(n),
            copied,
            maximum,
        ),
    decreases children.len(),
{
    if n == children.len() {
        assert(children.take(n) =~= children);
    } else {
        assert(children.drop_last().take(n) =~= children.take(n));
        lemma_copy_stops(children.drop_last(), n, copied, maximum);
    }
}

/// Whether a tree can be copied: the number of entries that have been copied
/// then, if `copied` had been before.
#[verifier::loop_isolation(false)]
pub fn copy_entry_counted(entry: &Entry, copied: u64, maximum: u64) -> (outcome: Result<
    u64,
    CopyRefusal,
>)
    ensures
        outcome == copied_entries(*entry, copied, maximum),
    decreases entry,
{
    let count: u64 = copied.saturating_add(1);
    if count > maximum {
        return Err(CopyRefusal::Limit(LimitError::TooManyEntries { maximum }));
    }
    match entry {
        Entry::Leaf { kind, .. } => match kind {
            LeafKind::File => Ok(count),
            LeafKind::Symlink => Err(CopyRefusal::Symlink),
            LeafKind::Special => Err(CopyRefusal::Special),
        },
        Entry::Directory { children, .. } => {
            let mut total: u64 = count;
            assert(children@.take(0) =~= Seq::<Entry>::empty());
            for i in 0..children.len()
                invariant
                    decreases_to!(entry => children),
                    copied_children(children@.take(i as int), count, maximum) == Ok::<
                        u64,
                        CopyRefusal,
                    >(total),
            {
                assert(children@.take(i + 1).drop_last() =~= children@.take(i as int));
                match copy_entry_counted(&children[i], total, maximum) {
                    Ok(next) => {
                        total = next;
                    },
                    Err(error) => {
                        proof {
                            lemma_copy_stops(children@, i + 1, count, maximum);
                        }
                        return Err(error);
                    },
                }
            }
            assert(children@.take(children@.len() as int) =~= children@);
            Ok(total)
        },
    }
}

/// The permission bits that a copy takes over: set-user-id and set-group-id
/// only for directories.
pub fn copied_mode(mode: u32, preserve_privilege_bits: bool) -> (bits: u32)
    ensures
        preserve_privilege_bits ==> bits == mode & 0o7777,
        !preserve_privilege_bits ==> bits == mode & 0o1777,
{
    if preserve_privilege_bits {
        mode & 0o7777
    } else {
        mode & 0o1777
    }
}

/// A copied file never gets privilege bits that its directory form would not,
/// and never the set-user-id or set-group-id bit.
pub proof fn copied_files_lose_privileges(mode: u32)
    ensures
        (mode & 0o1777) & 0o6000 == 0,
        (mode & 0o1777) | (mode & 0o6000) == mode & 0o7777,
{
    assert((mode & 0o1777) & 0o6000 == 0) by (bit_vector);
    assert((mode & 0o1777) | (mode & 0o6000) == mode & 0o7777) by (bit_vector);
}

/// A step of removing a tree.
#[derive(Clone, Debug, PartialEq, Eq)]
pub struct Removal {
    pub path: Vec<u8>,
    /// The entry is a directory, empty by then.
    pub directory: bool,
    /// The bytes that removing the entry frees.
    pub bytes: u64,
}

/// A step of removing a tree, over sequences.
pub struct RemovalModel {
    pub path: Seq<u8>,
    pub directory: bool,
    pub bytes: u64,
}

/// What a step removes.
pub open spec fn removal_of(step: Removal) -> RemovalModel {
    RemovalModel { path: step.path@, directory: step.directory, bytes: step.bytes }
}

/// What the steps remove.
pub open spec fn removals_of(steps: Seq<Removal>) -> Seq<RemovalModel> {
    steps.map_values(|step: Removal| removal_of(step))
}

/// The steps that remove the tree at the path: the entries of a directory come
/// before the directory.
pub open spec fn removals(entry: Entry, path: Seq<u8>) -> Seq<RemovalModel>
    decreases entry, 0nat,
{
    match entry {
        Entry::Leaf { metadata, .. } => seq![
            RemovalModel { path, directory: false, bytes: metadata.len },
        ],
        Entry::Directory { children, .. } => children_removals(children@, path).push(
            RemovalModel { path, directory: true, bytes: 0 },
        ),
    }
}

/// The steps that remove the entries of the directory at the path.
pub open spec fn children_removals(children: Seq<Entry>, path: Seq<u8>) -> Seq<RemovalModel>
    decreases children, 1nat,
{
    if children.len() == 0 {
        Seq::empty()
    } else {
        children_removals(children.drop_last(), path) + removals(
            children.last(),
            order::below(path, children.last().entry_name()),
        )
    }
}

/// The steps that remove the tree at the path.
pub fn remove_entry_progress(entry: &Entry, path: &Vec<u8>) -> (steps: Vec<Removal>)
    ensures
        removals_of(steps@) == removals(*entry, path@),
    decreases entry,
{
    let mut steps: Vec<Removal> = Vec::new();
    match entry {
        Entry::Leaf { metadata, .. } => {
            steps.push(Removal { path: order::copy_bytes(path), directory: false, bytes: metadata.len });
            assert(removals_of(steps@) =~= removals(*entry, path@));
        },
        Entry::Directory { children, .. } => {
            assert(children@.take(0) =~= Seq::<Entry>::empty());
            assert(removals_of(steps@) =~= children_removals(children@.take(0), path@));
            for i in 0..children.len()
                invariant
                    decreases_to!(entry => children),
                    removals_of(steps@) == children_removals(children@.take(i as int), path@),
            {
                assert(children@.take(i + 1).drop_last() =~= children@.take(i as int));
                let name = children[i].name();
                let below = order::path_below(path, name);
                let mut more = remove_entry_progress(&children[i], &below);
                let ghost before = steps@;
                let ghost added = more@;
                steps.append(&mut more);
                assert(removals_of(steps@) =~= removals_of(before) + removals_of(added));
            }
            assert(children@.take(children@.len() as int) =~= children@);
            let ghost before = steps@;
            steps.push(Removal { path: order::copy_bytes(path), directory: true, bytes: 0 });
            assert(removals_of(steps@) =~= removals(*entry, path@));
        },
    }
    steps
}

proof fn lemma_removals_last(entry: Entry, path: Seq<u8>)
    ensures
        removals(entry, path).len() > 0,
        removals(entry, path).last().path == path,
{
}

/// A tree's own entry is the last one that is removed, and the one step of a
/// tree without entries.
pub proof fn directories_are_removed_last(entry: Entry, path: Seq<u8>)
    ensures
        removals(entry, path).last() == (RemovalModel {
            path,
            directory: entry is Directory,
            bytes: match entry {
                Entry::Leaf { metadata, .. } => metadata.len,
                Entry::Directory { .. } => 0,
            },
        }),
        entry is Leaf ==> removals(entry, path).len() == 1,
{
    lemma_removals_last(entry, path);
}

// ---------------------------------------------------------------------------
// Single items
// ---------------------------------------------------------------------------

/// What is done for an item of an operation.
#[derive(Clone, Debug, PartialEq, Eq)]
pub enum Application {
    /// The item is left alone.
    Skip,
    /// A file is created, after what stands there has been removed if `replace`.
    CreateFile { path: String, replace: bool },
    /// A directory is created, after what stands there has been removed if
    /// `replace`.
    CreateDirectory { path: String, replace: bool },
    /// An entry is renamed, after what stands there has been removed if
    /// `replace`.
    Rename { from: String, to: String, replace: bool },
    /// A tree is merged into another place.
    Merge { from: String, to: String, moving: bool },
    /// A tree is removed.
    Remove { path: String },
    /// A text is written.
    WriteText,
    /// An archive is written.
    CreateArchive,
    /// An archive is extracted.
    ExtractArchive,
}

/// What is done for the item agrees with the operation.
pub open spec fn applies_item(
    application: Application,
    operation: FileManagerOperation,
    targets: Seq<CopyTarget>,
    index: int,
    verdict: Destination,
) -> bool {
    match operation {
        FileManagerOperation::CreateFile { path } => if verdict is Keep {
            application is Skip
        } else {
            application matches Application::CreateFile { path: made, replace } && made@ == path@
                && replace == (verdict is Replace)
        },
        FileManagerOperation::CreateDirectory { path } => if verdict is Keep {
            application is Skip
        } else {
            application matches Application::CreateDirectory { path: made, replace } && made@
                == path@ && replace == (verdict is Replace)
        },
        FileManagerOperation::Rename { path, .. } => if verdict is Keep {
            application is Skip
        } else {
            application matches Application::Rename { from, to, replace } && from@ == path@
                && actions::place_of(operation, index) == Ok::<Option<Seq<char>>, ActionError>(
                Some(to@),
            ) && replace == (verdict is Replace)
        },
        FileManagerOperation::Move { paths, .. } => application matches Application::Merge {
            from,
            to,
            moving,
        } && from@ == paths@[index]@ && actions::place_of(operation, index) == Ok::<
            Option<Seq<char>>,
            ActionError,
        >(Some(to@)) && moving,
        FileManagerOperation::Copy { .. } => application matches Application::Merge {
            from,
            to,
            moving,
        } && from@ == targets[index].source@ && to@ == targets[index].destination@ && !moving,
        FileManagerOperation::Delete { paths } => application matches Application::Remove { path }
            && path@ == paths@[index]@,
        FileManagerOperation::WriteText { .. } => application is WriteText,
        FileManagerOperation::CreateArchive { .. } => application is CreateArchive,
        FileManagerOperation::ExtractArchive { .. } => application is ExtractArchive,
    }
}

/// The operation puts a single entry at a place that may be occupied.
pub open spec fn puts_one(operation: FileManagerOperation) -> bool {
    operation is CreateFile || operation is CreateDirectory || operation is Rename
}

/// The verdict on what stands at the place of the item.
pub open spec fn item_verdict(
    operation: FileManagerOperation,
    decisions: Seq<FileManagerConflictDecision>,
    index: int,
    occupied: bool,
) -> Destination {
    match actions::place_of(operation, index) {
        Ok(Some(place)) => conflict::destination_verdict(
            occupied,
            conflict::decision_at(place, decisions),
        ),
        _ => Destination::Free,
    }
}

/// Why the item is refused. The paths are looked at first.
pub open spec fn item_refusal(
    operation: FileManagerOperation,
    targets: Seq<CopyTarget>,
    decisions: Seq<FileManagerConflictDecision>,
    index: int,
    occupied: bool,
) -> Option<ActionError> {
    if puts_one(operation) || operation is Move || operation is Delete {
        match actions::place_of(operation, index) {
            Err(error) => Some(error),
            Ok(_) => if puts_one(operation) && item_verdict(operation, decisions, index, occupied)
                is Undecided {
                Some(ActionError::DestinationExists)
            } else {
                None
            },
        }
    } else {
        match operation {
            FileManagerOperation::Copy { .. } => match actions::copy_refusal(targets[index]) {
                Some(error) => Some(ActionError::Operation(OperationError::Path(error))),
                None => None,
            },
            FileManagerOperation::WriteText { path, .. } => match actions::checked_path(path@) {
                Err(error) => Some(error),
                Ok(_) => None,
            },
            _ => None,
        }
    }
}

/// What is done for the item at `index` of an operation. `occupied` says whether
/// something stands at the item's place.
pub fn apply_operation_planned(
    operation: &FileManagerOperation,
    targets: &Vec<CopyTarget>,
    decisions: &Vec<FileManagerConflictDecision>,
    index: usize,
    occupied: bool,
) -> (outcome: Result<Application, ActionError>)
    requires
        index < actions::items_of(*operation, targets@),
    ensures
        match outcome {
            Ok(application) => item_refusal(*operation, targets@, decisions@, index as int, occupied) is None
                && applies_item(
                application,
                *operation,
                targets@,
                index as int,
                item_verdict(*operation, decisions@, index as int, occupied),
            ),
            Err(error) => item_refusal(*operation, targets@, decisions@, index as int, occupied) == Some(
                error,
            ),
        },
{
    match operation {
        FileManagerOperation::Copy { .. } => {
            match actions::refuse_copy(&targets[index]) {
                Some(error) => {
                    return Err(ActionError::Operation(OperationError::Path(error)));
                },
                None => {},
            }
            return Ok(
                Application::Merge {
                    from: targets[index].source.clone(),
                    to: targets[index].destination.clone(),
                    moving: false,
                },
            );
        },
        FileManagerOperation::Delete { paths } => {
            match actions::check_path(paths[index].as_str()) {
                Err(error) => {
                    return Err(error);
                },
                Ok(_) => {},
            }
            return Ok(Application::Remove { path: paths[index].clone() });
        },
        FileManagerOperation::WriteText { path, .. } => {
            match actions::check_path(path.as_str()) {
                Err(error) => {
                    return Err(error);
                },
                Ok(_) => {},
            }
            return Ok(Application::WriteText);
        },
        FileManagerOperation::CreateArchive { .. } => {
            return Ok(Application::CreateArchive);
        },
        FileManagerOperation::ExtractArchive { .. } => {
            return Ok(Application::ExtractArchive);
        },
        _ => {},
    }
    let place = match actions::item_place(operation, index) {
        Err(error) => {
            return Err(error);
        },
        Ok(Some(place)) => place,
        Ok(None) => {
            return Err(ActionError::NotByName);
        },
    };
    match operation {
        FileManagerOperation::Move { paths, .. } => {
            return Ok(Application::Merge { from: paths[index].clone(), to: place, moving: true });
        },
        _ => {},
    }
    let replace = match conflict::judge_destination(occupied, place.as_str(), decisions) {
        Destination::Keep => {
            return Ok(Application::Skip);
        },
        Destination::Undecided => {
            return Err(ActionError::DestinationExists);
        },
        Destination::Replace => true,
        Destination::Free => false,
    };
    match operation {
        FileManagerOperation::CreateFile { .. } => Ok(
            Application::CreateFile { path: place, replace },
        ),
        FileManagerOperation::CreateDirectory { .. } => Ok(
            Application::CreateDirectory { path: place, replace },
        ),
        FileManagerOperation::Rename { path, .. } => Ok(
            Application::Rename { from: path.clone(), to: place, replace },
        ),
        _ => Err(ActionError::NotByName),
    }
}

/// What stands at the path of a text.
#[derive(Clone, Debug, PartialEq, Eq)]
pub struct ExistingText {
    /// It is a file and no symbolic link.
    pub regular: bool,
    /// The revision of its metadata and contents.
    pub revision: FileManagerRevision,
}

/// Why a text is not written.
#[derive(Clone, Copy, Debug, PartialEq, Eq, Structural)]
pub enum WriteError {
    /// What stands at the path is no regular file.
    NotRegular,
    /// The file changed since it was opened.
    Changed,
    /// The file that was opened is gone.
    Missing,
}

/// Whether a text may be written over what stands at its path. Only a file that
/// was never there may be created, and then the expected revision is empty.
pub fn admit_text(existing: &Option<ExistingText>, expected: &FileManagerRevision) -> (outcome: Result<
    (),
    WriteError,
>)
    ensures
        outcome == match *existing {
            Some(file) => if !file.regular {
                Err(WriteError::NotRegular)
            } else if file.revision.id@ != expected.id@ {
                Err(WriteError::Changed)
            } else {
                Ok(())
            },
            None => if expected.id@.len() == 0 {
                Ok(())
            } else {
                Err(WriteError::Missing)
            },
        },
{
    match existing {
        Some(file) => if !file.regular {
            Err(WriteError::NotRegular)
        } else if !text::same(file.revision.id.as_str(), expected.id.as_str()) {
            Err(WriteError::Changed)
        } else {
            Ok(())
        },
        None => {
            let empty = text::same(expected.id.as_str(), "");
            proof {
                reveal_strlit("");
                if expected.id@.len() == 0 {
                    assert(expected.id@ =~= ""@);
                }
            }
            if empty {
                Ok(())
            } else {
                Err(WriteError::Missing)
            }
        },
    }
}

// ---------------------------------------------------------------------------
// Revisions
// ---------------------------------------------------------------------------

/// The revisions are equal.
pub open spec fn same_revision(a: Option<FileManagerRevision>, b: Option<FileManagerRevision>) -> bool {
    match (a, b) {
        (Some(x), Some(y)) => x.id@ == y.id@,
        (None, None) => true,
        _ => false,
    }
}

fn is_same_revision(a: &Option<FileManagerRevision>, b: &Option<FileManagerRevision>) -> (same: bool)
    ensures
        same == same_revision(*a, *b),
{
    match (a, b) {
        (Some(x), Some(y)) => text::same(x.id.as_str(), y.id.as_str()),
        (None, None) => true,
        _ => false,
    }
}

/// Whether every path still has the revision that was noted for it. `actual`
/// holds what is found at the paths, in the same order.
pub fn verify_plan_revisions(
    expected: &Vec<PathRevision>,
    actual: &Vec<Option<FileManagerRevision>>,
) -> (unchanged: bool)
    requires
        expected@.len() == actual@.len(),
    ensures
        unchanged <==> forall|i: int|
            0 <= i < expected@.len() ==> same_revision(
                (#[trigger] expected@[i]).revision,
                actual@[i],
            ),
{
    for i in 0..expected.len()
        invariant
            expected@.len() == actual@.len(),
            forall|k: int|
                0 <= k < i ==> same_revision((#[trigger] expected@[k]).revision, actual@[k]),
    {
        if !is_same_revision(&expected[i].revision, &actual[i]) {
            assert(!same_revision(expected@[i as int].revision, actual@[i as int]));
            return false;
        }
    }
    true
}

// ---------------------------------------------------------------------------
// The private directory of a root
// ---------------------------------------------------------------------------

/// What stands at the place of the private directory.
#[derive(Clone, Copy, Debug, PartialEq, Eq, Structural)]
pub enum StateSeen {
    Missing,
    Directory { owner: u32 },
    Other,
}

/// Why the private directory is not used.
#[derive(Clone, Copy, Debug, PartialEq, Eq, Structural)]
pub enum StateError {
    NotOwned,
    NotADirectory,
    NotManaged,
    InvalidMarker,
}

/// What marks a directory as private to the file manager.
pub const STATE_MARKER: &'static str = "Komodo File Manager state v1\n";

/// Whether the private directory has to be created, or why it is not used.
pub fn judge_state_directory(seen: StateSeen, user: u32) -> (create: Result<bool, StateError>)
    ensures
        create == match seen {
            StateSeen::Missing => Ok::<bool, StateError>(true),
            StateSeen::Directory { owner } => if owner == user {
                Ok(false)
            } else {
                Err(StateError::NotOwned)
            },
            StateSeen::Other => Err(StateError::NotADirectory),
        },
{
    match seen {
        StateSeen::Missing => Ok(true),
        StateSeen::Directory { owner } => if owner == user {
            Ok(false)
        } else {
            Err(StateError::NotOwned)
        },
        StateSeen::Other => Err(StateError::NotADirectory),
    }
}

/// Whether a directory that was there before is the file manager's own. `marker`
/// holds what its marker file says, up to one byte more than a marker has.
pub fn judge_state_marker(marker: &Option<Vec<u8>>) -> (outcome: Result<(), StateError>)
    ensures
        outcome == match *marker {
            None => Err(StateError::NotManaged),
            Some(contents) => if contents@ == vstd::utf8::encode_utf8(STATE_MARKER@) {
                Ok(())
            } else {
                Err(StateError::InvalidMarker)
            },
        },
{
    match marker {
        None => Err(StateError::NotManaged),
        Some(contents) => {
            let expected = STATE_MARKER.as_bytes();
            if contents.len() != expected.len() {
                return Err(StateError::InvalidMarker);
            }
            for i in 0..contents.len()
                invariant
                    *marker == Some(*contents),
                    expected@ == vstd::utf8::encode_utf8(STATE_MARKER@),
                    contents@.len() == expected@.len(),
                    forall|k: int| 0 <= k < i ==> contents@[k] == expected@[k],
            {
                if contents[i] != expected[i] {
                    return Err(StateError::InvalidMarker);
                }
            }
            assert(contents@ =~= expected@);
            Ok(())
        },
    }
}

/// The path that the way leads to, seen from the path of the top.
pub open spec fn bytes_along(entry: Entry, top: Seq<u8>, way: Seq<int>) -> Seq<u8>
    decreases way.len(),
{
    if way.len() == 0 {
        top
    } else {
        let next = entry.entries()[way[0]];
        bytes_along(next, order::below(top, next.entry_name()), way.drop_first())
    }
}

proof fn lemma_removal_counts(entry: Entry, path: Seq<u8>)
    ensures
        removals(entry, path).len() == tree::entry_count(entry),
    decreases entry, 0nat,
{
    if let Entry::Directory { children, .. } = entry {
        assert(decreases_to!(entry => children));
        assert(decreases_to!(children => children@));
        lemma_children_removal_counts(children@, path);
    }
}

proof fn lemma_children_removal_counts(children: Seq<Entry>, path: Seq<u8>)
    ensures
        children_removals(children, path).len() == tree::all_count(children),
    decreases children, 1nat,
{
    if children.len() > 0 {
        lemma_children_removal_counts(children.drop_last(), path);
        assert(decreases_to!(children => children[children.len() - 1]));
        lemma_removal_counts(
            children.last(),
            order::below(path, children.last().entry_name()),
        );
    }
}

proof fn lemma_child_removals(children: Seq<Entry>, path: Seq<u8>, i: int) -> (at: nat)
    requires
        0 <= i < children.len(),
    ensures
        ({
            let all = children_removals(children, path);
            let part = removals(children[i], order::below(path, children[i].entry_name()));
            &&& at + part.len() <= all.len()
            &&& all.subrange(at as int, (at + part.len()) as int) == part
        }),
    decreases children.len(),
{
    let rest = children.drop_last();
    let before = children_removals(rest, path);
    let all = children_removals(children, path);
    let part = removals(children[i], order::below(path, children[i].entry_name()));
    if i < rest.len() {
        let at = lemma_child_removals(rest, path, i);
        assert(all.subrange(at as int, (at + part.len()) as int) =~= before.subrange(
            at as int,
            (at + part.len()) as int,
        ));
        at
    } else {
        assert(all.subrange(before.len() as int, (before.len() + part.len()) as int) =~= part);
        before.len()
    }
}

proof fn lemma_removals_stand_together(entry: Entry, path: Seq<u8>, way: Seq<int>) -> (at: int)
    requires
        tree::leads(entry, way),
    ensures
        ({
            let all = removals(entry, path);
            let part = removals(tree::entry_along(entry, way), bytes_along(entry, path, way));
            &&& 0 <= at
            &&& at + part.len() <= all.len()
            &&& all.subrange(at, at + part.len()) == part
        }),
    decreases way.len(),
{
    let all = removals(entry, path);
    if way.len() == 0 {
        assert(all.subrange(0, all.len() as int) =~= all);
        0
    } else {
        let children = entry.entries();
        let next = children[way[0]];
        let inner = order::below(path, next.entry_name());
        let below = children_removals(children, path);
        let at = lemma_child_removals(children, path, way[0]);
        let part = removals(next, inner);
        let k = lemma_removals_stand_together(next, inner, way.drop_first());
        let n = removals(tree::entry_along(entry, way), bytes_along(entry, path, way)).len() as int;
        let first = at as int;
        assert(all.subrange(first, first + part.len()) =~= below.subrange(
            first,
            first + part.len(),
        ));
        assert(all.subrange(first + k, first + k + n) =~= all.subrange(
            first,
            first + part.len(),
        ).subrange(k, k + n));
        first + k
    }
}

/// Removing a tree removes every entry of it, and nothing else: each way through
/// the tree leads to one of the steps, and there are as many as there are entries.
/// The steps for what lies at and below an entry stand together, and those below a
/// directory come before its own.
pub proof fn removals_take_whole_trees(entry: Entry, path: Seq<u8>, way: Seq<int>) -> (at: int)
    requires
        tree::leads(entry, way),
    ensures
        removals(entry, path).len() == tree::entry_count(entry),
        ({
            let all = removals(entry, path);
            let taken = tree::entry_along(entry, way);
            let last = at + tree::entry_count(taken) - 1;
            &&& 0 <= at
            &&& last < all.len()
            &&& all.subrange(at, last + 1) == removals(taken, bytes_along(entry, path, way))
            &&& all[last].path == bytes_along(entry, path, way)
            &&& all[last].directory == (taken is Directory)
            &&& all[last].bytes == if taken is Leaf {
                taken.entry_metadata().len
            } else {
                0
            }
        }),
{
    let all = removals(entry, path);
    let taken = tree::entry_along(entry, way);
    let place = bytes_along(entry, path, way);
    let part = removals(taken, place);
    lemma_removal_counts(entry, path);
    lemma_removal_counts(taken, place);
    directories_are_removed_last(taken, place);
    let at = lemma_removals_stand_together(entry, path, way);
    assert(all.subrange(at, at + part.len())[part.len() - 1] == all[at + part.len() - 1]);
    at
}

/// Every entry of the tree is a file or a directory.
pub open spec fn is_copyable(entry: Entry) -> bool {
    forall|way: Seq<int>| #[trigger]
        tree::leads(entry, way) ==> (tree::entry_along(entry, way) matches Entry::Leaf {
            kind,
            ..
        } ==> kind == LeafKind::File)
}

proof fn lemma_copyable_child(entry: Entry, i: int)
    requires
        is_copyable(entry),
        0 <= i < entry.entries().len(),
    ensures
        is_copyable(entry.entries()[i]),
{
    let child = entry.entries()[i];
    assert forall|way: Seq<int>| #[trigger] tree::leads(child, way) implies (tree::entry_along(
        child,
        way,
    ) matches Entry::Leaf { kind, .. } ==> kind == LeafKind::File) by {
        tree::lemma_step(entry, i, way);
        assert(tree::leads(entry, seq![i] + way));
    }
}

proof fn lemma_copied_counts(entry: Entry, copied: u64, maximum: u64)
    requires
        maximum < u64::MAX,
        copied <= maximum,
    ensures
        copied_entries(entry, copied, maximum) matches Ok(count) ==> count == copied
            + tree::entry_count(entry) && count <= maximum,
        is_copyable(entry) && copied + tree::entry_count(entry) <= maximum ==> copied_entries(
            entry,
            copied,
            maximum,
        ) is Ok,
    decreases entry, 0nat,
{
    let here: Seq<int> = Seq::empty();
    assert(tree::leads(entry, here));
    assert(tree::entry_along(entry, here) == entry);
    if let Entry::Directory { children, .. } = entry {
        if copied + 1 <= maximum {
            assert(decreases_to!(entry => children));
            assert(decreases_to!(children => children@));
            if is_copyable(entry) {
                assert forall|i: int| 0 <= i < children@.len() implies is_copyable(
                    #[trigger] children@[i],
                ) by {
                    lemma_copyable_child(entry, i);
                    assert(entry.entries()[i] == children@[i]);
                }
            }
            lemma_copied_children_counts(children@, (copied + 1) as u64, maximum);
        }
    }
}

proof fn lemma_copied_children_counts(children: Seq<Entry>, copied: u64, maximum: u64)
    requires
        maximum < u64::MAX,
        copied <= maximum,
    ensures
        copied_children(children, copied, maximum) matches Ok(count) ==> count == copied
            + tree::all_count(children) && count <= maximum,
        (forall|i: int| 0 <= i < children.len() ==> is_copyable(#[trigger] children[i])) && copied
            + tree::all_count(children) <= maximum ==> copied_children(children, copied, maximum)
            is Ok,
    decreases children, 1nat,
{
    if children.len() > 0 {
        let rest = children.drop_last();
        lemma_copied_children_counts(rest, copied, maximum);
        if forall|i: int| 0 <= i < children.len() ==> is_copyable(#[trigger] children[i]) {
            assert forall|i: int| 0 <= i < rest.len() implies is_copyable(#[trigger] rest[i]) by {
                assert(rest[i] == children[i]);
            }
            assert(is_copyable(children[children.len() - 1]));
        }
        if let Ok(count) = copied_children(rest, copied, maximum) {
            assert(decreases_to!(children => children[children.len() - 1]));
            lemma_copied_counts(children.last(), count, maximum);
        }
    }
}

/// A copy counts every entry of the tree, and a tree of files and directories that
/// is small enough is copied.
pub proof fn copies_count_whole_trees(entry: Entry, copied: u64, maximum: u64)
    requires
        maximum < u64::MAX,
        copied <= maximum,
    ensures
        copied_entries(entry, copied, maximum) matches Ok(count) ==> count == copied
            + tree::entry_count(entry) && count <= maximum,
        is_copyable(entry) && copied + tree::entry_count(entry) <= maximum ==> copied_entries(
            entry,
            copied,
            maximum,
        ) is Ok,
{
    lemma_copied_counts(entry, copied, maximum);
}

proof fn lemma_child_copied(children: Seq<Entry>, copied: u64, maximum: u64, i: int) -> (before:
    u64)
    requires
        0 <= i < children.len(),
        copied_children(children, copied, maximum) is Ok,
    ensures
        copied_entries(children[i], before, maximum) is Ok,
    decreases children.len(),
{
    let rest = children.drop_last();
    if i < rest.len() {
        lemma_child_copied(rest, copied, maximum, i)
    } else {
        copied_children(rest, copied, maximum)->Ok_0
    }
}

/// A tree that is copied has no links and no special entries, however deep.
pub proof fn copied_trees_are_plain(entry: Entry, copied: u64, maximum: u64, way: Seq<int>)
    requires
        copied_entries(entry, copied, maximum) is Ok,
        tree::leads(entry, way),
    ensures
        tree::entry_along(entry, way) matches Entry::Leaf { kind, .. } ==> kind == LeafKind::File,
    decreases way.len(),
{
    if way.len() > 0 {
        let children = entry.entries();
        let before = lemma_child_copied(
            children,
            limits::saturating_sum(copied, 1),
            maximum,
            way[0],
        );
        copied_trees_are_plain(children[way[0]], before, maximum, way.drop_first());
    }
}

proof fn lemma_all_local(sources: Seq<Option<EntrySeen>>, device: u64)
    ensures
        all_local(sources, device) == Ok::<bool, ActionError>(true) <==> forall|i: int|
            0 <= i < sources.len() ==> ((#[trigger] sources[i]) matches Some(entry)
                && entry.device == device),
    decreases sources.len(),
{
    if sources.len() > 0 {
        let rest = sources.drop_first();
        lemma_all_local(rest, device);
        assert forall|i: int| 0 <= i < rest.len() implies #[trigger] rest[i] == sources[i + 1] by {}
        if all_local(sources, device) == Ok::<bool, ActionError>(true) {
            assert forall|i: int| 0 <= i < sources.len() implies ((#[trigger] sources[i]) matches Some(
                entry,
            ) && entry.device == device) by {
                if i > 0 {
                    assert(rest[i - 1] == sources[i]);
                }
            }
        }
        if forall|i: int|
            0 <= i < sources.len() ==> ((#[trigger] sources[i]) matches Some(entry)
                && entry.device == device) {
            assert(sources[0] is Some);
            assert forall|i: int| 0 <= i < rest.len() implies ((#[trigger] rest[i]) matches Some(
                entry,
            ) && entry.device == device) by {
                assert(sources[i + 1] is Some);
            }
        }
    }
}

proof fn lemma_all_movable(sources: Seq<Option<EntrySeen>>, places: Seq<PlaceSeen>, device: u64)
    requires
        sources.len() == places.len(),
    ensures
        all_movable(sources, places, device) == Ok::<bool, ActionError>(true) <==> forall|i: int|
            0 <= i < sources.len() ==> ((#[trigger] sources[i]) matches Some(entry) && movable(
                entry,
                places[i],
                device,
            )),
    decreases sources.len(),
{
    if sources.len() > 0 {
        let rest = sources.drop_first();
        let left = places.drop_first();
        lemma_all_movable(rest, left, device);
        if all_movable(sources, places, device) == Ok::<bool, ActionError>(true) {
            assert forall|i: int| 0 <= i < sources.len() implies ((#[trigger] sources[i]) matches Some(
                entry,
            ) && movable(entry, places[i], device)) by {
                if i > 0 {
                    assert(rest[i - 1] == sources[i]);
                    assert(left[i - 1] == places[i]);
                }
            }
        }
        if forall|i: int|
            0 <= i < sources.len() ==> ((#[trigger] sources[i]) matches Some(entry) && movable(
                entry,
                places[i],
                device,
            )) {
            assert(sources[0] is Some);
            assert forall|i: int| 0 <= i < rest.len() implies ((#[trigger] rest[i]) matches Some(
                entry,
            ) && movable(entry, left[i], device)) by {
                assert(sources[i + 1] is Some);
                assert(left[i] == places[i + 1]);
            }
        }
    }
}

/// An operation goes by renaming alone only where nothing that it touches lies on
/// another device. A deletion does whenever every path is there and on the device.
/// A move does whenever that holds of every path and of the directory that it goes
/// to, and nothing is to be merged.
pub proof fn renames_stay_on_the_device(
    operation: FileManagerOperation,
    device: u64,
    sources: Seq<Option<EntrySeen>>,
    places: Seq<PlaceSeen>,
)
    requires
        operation is Move ==> sources.len() == places.len(),
    ensures
        operation is Delete ==> (by_name_only(operation, device, sources, places) == Ok::<
            bool,
            ActionError,
        >(true) <==> forall|i: int|
            0 <= i < sources.len() ==> ((#[trigger] sources[i]) matches Some(entry)
                && entry.device == device)),
        operation is Move ==> (by_name_only(operation, device, sources, places) == Ok::<
            bool,
            ActionError,
        >(true) <==> forall|i: int|
            0 <= i < sources.len() ==> {
                &&& (#[trigger] sources[i]) is Some
                &&& sources[i]->Some_0.device == device
                &&& places[i].parent_device == device
                &&& places[i].entry is Some ==> {
                    &&& places[i].entry->Some_0.device == device
                    &&& !sources[i]->Some_0.directory || !places[i].entry->Some_0.directory
                }
            }),
{
    lemma_all_local(sources, device);
    if operation is Move {
        lemma_all_movable(sources, places, device);
    }
}

/// The first path that is not there is told, unless one before it already rules
/// renaming out.
pub proof fn missing_sources_are_told(sources: Seq<Option<EntrySeen>>, device: u64, i: int)
    requires
        0 <= i < sources.len(),
        sources[i] is None,
        forall|j: int|
            0 <= j < i ==> ((#[trigger] sources[j]) matches Some(entry) && entry.device == device),
    ensures
        all_local(sources, device) == Err::<bool, ActionError>(ActionError::Missing),
    decreases i,
{
    if i > 0 {
        let rest = sources.drop_first();
        assert(sources[0] is Some);
        assert forall|j: int| 0 <= j < i - 1 implies ((#[trigger] rest[j]) matches Some(entry)
            && entry.device == device) by {
            assert(sources[j + 1] is Some);
        }
        missing_sources_are_told(rest, device, i - 1);
    }
}

/// The work of an operation on selected trees counts every entry of them. A
/// deletion, a copy and an archive count their bytes too; a move moves no bytes.
pub proof fn work_counts_the_selection(
    operation: FileManagerOperation,
    selected: Seq<Option<Entry>>,
    extraction: WorkTotal,
    maximum: u64,
)
    requires
        work_of(operation, selected, extraction, maximum) is Ok,
    ensures
        ({
            let work = work_of(operation, selected, extraction, maximum)->Ok_0;
            match operation {
                FileManagerOperation::Move { .. } => work.entries == tree::as_far_as_held(
                    tree::present_count(selected),
                ) && work.bytes == 0,
                FileManagerOperation::Delete { .. } | FileManagerOperation::CreateArchive {
                    ..
                } | FileManagerOperation::Copy { .. } => work.entries == tree::as_far_as_held(
                    tree::present_count(selected),
                ) && work.bytes == tree::as_far_as_held(tree::present_bytes(selected)),
                FileManagerOperation::ExtractArchive { .. } => work == extraction,
                FileManagerOperation::WriteText { contents, .. } => work.entries == 1 && (
                vstd::utf8::encode_utf8(contents@).len() <= u64::MAX ==> work.bytes
                    == vstd::utf8::encode_utf8(contents@).len()),
                _ => work.entries == 1 && work.bytes == 0,
            }
        }),
{
    if operation is Move || operation is Delete || operation is CreateArchive || operation is Copy {
        tree::work_of_paths_adds_up(selected, maximum);
    }
}

/// A written text needs the room of its bytes, a copy that of what is copied, and
/// an archive more than what it holds. What only changes names needs none.
pub proof fn targets_have_room_for_what_is_written(
    operation: FileManagerOperation,
    work: WorkTotal,
    extraction_capacity: u64,
)
    ensures
        operation is Copy ==> target_bytes(operation, work, extraction_capacity) == work.bytes,
        operation is CreateArchive && work.bytes < 0x1000_0000_0000_0000 ==> {
            &&& target_bytes(operation, work, extraction_capacity) - work.bytes >= 1024 * 1024
            &&& 10 * (target_bytes(operation, work, extraction_capacity) - work.bytes - 1024
                * 1024) <= work.bytes < 10 * (target_bytes(operation, work, extraction_capacity)
                - work.bytes - 1024 * 1024 + 1)
        },
        operation is ExtractArchive ==> target_bytes(operation, work, extraction_capacity)
            == extraction_capacity,
        operation is Rename || operation is Move || operation is Delete || operation is CreateFile
            || operation is CreateDirectory ==> target_bytes(operation, work, extraction_capacity)
            == 0,
{
}

/// Nothing that stands at a place is replaced, and nothing created over it, unless
/// it was so decided; what was decided to be kept is left alone.
pub proof fn undecided_places_are_not_touched(
    application: Application,
    operation: FileManagerOperation,
    targets: Seq<CopyTarget>,
    decisions: Seq<FileManagerConflictDecision>,
    index: int,
    occupied: bool,
)
    requires
        puts_one(operation),
        item_refusal(operation, targets, decisions, index, occupied) is None,
        applies_item(
            application,
            operation,
            targets,
            index,
            item_verdict(operation, decisions, index, occupied),
        ),
        actions::place_of(operation, index) matches Ok(Some(_)),
    ensures
        ({
            let place = actions::place_of(operation, index)->Ok_0->Some_0;
            let decision = conflict::decision_at(place, decisions);
            let replaces = match application {
                Application::CreateFile { replace, .. } => replace,
                Application::CreateDirectory { replace, .. } => replace,
                Application::Rename { replace, .. } => replace,
                _ => false,
            };
            &&& occupied ==> decision is Some
            &&& replaces <==> occupied && decision == Some(conflict::FileManagerConflictAction::Overwrite)
            &&& application is Skip <==> occupied && decision == Some(
                conflict::FileManagerConflictAction::Skip,
            )
        }),
{
}

} // verus!
