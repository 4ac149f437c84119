//! Operations on the entries below a root.

use vstd::prelude::*;

use crate::file_manager::limits;
use crate::path;
use crate::path::PathError;
use crate::text;
use crate::text::texts;

verus! {

/// A directory that the file manager works in.
#[derive(Clone, Debug, PartialEq, Eq)]
pub struct ResolvedRoot {
    pub path: String,
    /// Identifies the directory among all roots.
    pub key: String,
    pub read_only: bool,
    /// A file that only the editor may change.
    pub managed_file: Option<String>,
    pub create_if_missing: bool,
}

/// What kind of entry a name denotes.
#[derive(Clone, Copy, Debug, PartialEq, Eq, Structural)]
pub enum FileManagerEntryKind {
    File,
    Directory,
    Symlink,
    Special,
}

/// The kind of an entry, from what its metadata says.
pub fn entry_kind(is_symlink: bool, is_dir: bool, is_file: bool) -> (kind: FileManagerEntryKind)
    ensures
        kind == (if is_symlink {
            FileManagerEntryKind::Symlink
        } else if is_dir {
            FileManagerEntryKind::Directory
        } else if is_file {
            FileManagerEntryKind::File
        } else {
            FileManagerEntryKind::Special
        }),
{
    if is_symlink {
        FileManagerEntryKind::Symlink
    } else if is_dir {
        FileManagerEntryKind::Directory
    } else if is_file {
        FileManagerEntryKind::File
    } else {
        FileManagerEntryKind::Special
    }
}

/// The state of an entry, as an opaque text.
#[derive(Clone, Debug, PartialEq, Eq)]
pub struct FileManagerRevision {
    pub id: String,
}

/// An archive format that can be written.
#[derive(Clone, Copy, Debug, PartialEq, Eq, Structural)]
pub enum FileManagerArchiveFormat {
    Zip,
    Tar,
    TarGz,
    SevenZip,
}

/// An operation that a caller asks for.
#[derive(Clone, Debug, PartialEq, Eq)]
pub enum FileManagerOperation {
    CreateFile { path: String },
    CreateDirectory { path: String },
    Rename { path: String, new_name: String },
    Move { paths: Vec<String>, destination: String },
    Copy { paths: Vec<String>, destination: String },
    Delete { paths: Vec<String> },
    WriteText { path: String, contents: String, expected_revision: FileManagerRevision },
    CreateArchive { paths: Vec<String>, destination: String, format: FileManagerArchiveFormat },
    ExtractArchive { path: String, destination: String },
}

/// Why an operation is refused.
#[derive(Clone, Copy, Debug, PartialEq, Eq, Structural)]
pub enum OperationError {
    /// A path or name is refused.
    Path(PathError),
    /// Nothing is selected.
    EmptySelection,
    /// Two selected entries have the same name.
    SameDestinationName,
    /// An entry would be moved onto itself.
    SamePlace,
    /// A directory would be put inside itself.
    InsideItself,
    /// The archive would replace one of its sources.
    ReplacesSource,
    /// The archive would lie inside one of its sources.
    InsideSource,
    /// An archive would be extracted over itself.
    ReplacesArchive,
    /// The text is too large.
    TextTooLarge,
    /// The managed file may only be edited.
    ManagedFile,
    /// A source has no name.
    NoFileName,
}

/// What an operation is called in its history.
pub open spec fn described(operation: FileManagerOperation) -> Seq<char> {
    match operation {
        FileManagerOperation::CreateFile { .. } => "Create file"@,
        FileManagerOperation::CreateDirectory { .. } => "Create folder"@,
        FileManagerOperation::Rename { .. } => "Rename"@,
        FileManagerOperation::Move { .. } => "Move"@,
        FileManagerOperation::Copy { .. } => "Copy"@,
        FileManagerOperation::Delete { .. } => "Delete"@,
        FileManagerOperation::WriteText { .. } => "Save text file"@,
        FileManagerOperation::CreateArchive { .. } => "Create archive"@,
        FileManagerOperation::ExtractArchive { .. } => "Extract archive"@,
    }
}

/// What an operation is called in its history. The name never holds any of the
/// operation's contents.
pub fn operation_description(operation: &FileManagerOperation) -> (description: String)
    ensures
        description@ == described(*operation),
{
    match operation {
        FileManagerOperation::CreateFile { .. } => "Create file".to_owned(),
        FileManagerOperation::CreateDirectory { .. } => "Create folder".to_owned(),
        FileManagerOperation::Rename { .. } => "Rename".to_owned(),
        FileManagerOperation::Move { .. } => "Move".to_owned(),
        FileManagerOperation::Copy { .. } => "Copy".to_owned(),
        FileManagerOperation::Delete { .. } => "Delete".to_owned(),
        FileManagerOperation::WriteText { .. } => "Save text file".to_owned(),
        FileManagerOperation::CreateArchive { .. } => "Create archive".to_owned(),
        FileManagerOperation::ExtractArchive { .. } => "Extract archive".to_owned(),
    }
}

/// The file name extension of an archive format.
pub open spec fn extension_of(format: FileManagerArchiveFormat) -> Seq<char> {
    match format {
        FileManagerArchiveFormat::Zip => ".zip"@,
        FileManagerArchiveFormat::Tar => ".tar"@,
        FileManagerArchiveFormat::TarGz => ".tar.gz"@,
        FileManagerArchiveFormat::SevenZip => ".7z"@,
    }
}

/// The file name extension of an archive format.
pub fn archive_extension(format: FileManagerArchiveFormat) -> (extension: &'static str)
    ensures
        extension@ == extension_of(format),
{
    match format {
        FileManagerArchiveFormat::Zip => ".zip",
        FileManagerArchiveFormat::Tar => ".tar",
        FileManagerArchiveFormat::TarGz => ".tar.gz",
        FileManagerArchiveFormat::SevenZip => ".7z",
    }
}

/// The text ends with the ASCII suffix, in any case of letters.
pub open spec fn ends_ignoring_case(name: Seq<char>, suffix: Seq<char>) -> bool {
    suffix.len() <= name.len() && text::same_ignoring_ascii_case(
        name.skip(name.len() - suffix.len()),
        suffix,
    )
}

/// Whether the text ends with the ASCII suffix, in any case of letters.
pub fn finishes_ignoring_case(name: &str, suffix: &str) -> (ends: bool)
    ensures
        ends == ends_ignoring_case(name@, suffix@),
{
    let chars = text::chars_of(name);
    let tail = text::chars_of(suffix);
    if tail.len() > chars.len() {
        return false;
    }
    let start: usize = chars.len() - tail.len();
    let end = text::text_between(&chars, start, chars.len());
    assert(end@ =~= name@.skip(name@.len() - suffix@.len()));
    text::equal_ignoring_ascii_case(end.as_str(), suffix)
}

/// The destination of an archive with the extension of its format.
pub fn ensure_archive_extension(destination: &str, format: FileManagerArchiveFormat) -> (named:
    String)
    ensures
        named@ == (if ends_ignoring_case(destination@, extension_of(format)) {
            destination@
        } else {
            destination@ + extension_of(format)
        }),
{
    let extension = archive_extension(format);
    if finishes_ignoring_case(destination, extension) {
        destination.to_owned()
    } else {
        text::concat2(destination, extension)
    }
}

// ---------------------------------------------------------------------------
// Redundant selections
// ---------------------------------------------------------------------------

/// The first refusal among the paths.
pub open spec fn first_path_refusal(paths: Seq<Seq<char>>) -> Option<PathError>
    decreases paths.len(),
{
    if paths.len() == 0 {
        None
    } else {
        match path::relative_path_outcome(paths[0], false) {
            Some(error) => Some(error),
            None => first_path_refusal(paths.drop_first()),
        }
    }
}

/// Every one of the paths is accepted.
pub open spec fn all_accepted(paths: Seq<Seq<char>>) -> bool {
    forall|i: int|
        0 <= i < paths.len() ==> path::relative_path_outcome(#[trigger] paths[i], false) is None
}

/// The path at `i` has to be acted on: it does not repeat an earlier one, and
/// none of the directories above it is selected as well.
pub open spec fn is_needed(paths: Seq<Seq<char>>, i: int) -> bool {
    &&& forall|j: int|
        0 <= j < i ==> path::path_of(#[trigger] paths[j]) != path::path_of(paths[i])
    &&& forall|j: int|
        0 <= j < paths.len() && path::path_of(#[trigger] paths[j]) != path::path_of(paths[i])
            ==> !path::is_below(paths[i], paths[j])
}

/// Those of the first `count` paths that have to be acted on.
pub open spec fn needed_paths(paths: Seq<Seq<char>>, count: nat) -> Seq<Seq<char>>
    decreases count,
{
    if count == 0 {
        Seq::empty()
    } else {
        let before = needed_paths(paths, (count - 1) as nat);
        if is_needed(paths, count - 1) {
            before.push(paths[count - 1])
        } else {
            before
        }
    }
}

/// A list of paths is refused exactly when one of its paths is.
pub proof fn lists_pass_when_every_path_is_accepted(paths: Seq<Seq<char>>)
    ensures
        first_path_refusal(paths) is None <==> all_accepted(paths),
    decreases paths.len(),
{
    if paths.len() > 0 {
        lists_pass_when_every_path_is_accepted(paths.drop_first());
        if all_accepted(paths) {
            assert(path::relative_path_outcome(paths[0], false) is None);
            assert forall|i: int| 0 <= i < paths.drop_first().len() implies path::relative_path_outcome(
                #[trigger] paths.drop_first()[i],
                false,
            ) is None by {
                assert(paths.drop_first()[i] == paths[i + 1]);
            }
        } else if first_path_refusal(paths) is None {
            assert forall|i: int| 0 <= i < paths.len() implies path::relative_path_outcome(
                #[trigger] paths[i],
                false,
            ) is None by {
                if i > 0 {
                    assert(paths[i] == paths.drop_first()[i - 1]);
                }
            }
        }
    }
}

fn check_paths(paths: &Vec<String>) -> (outcome: Result<(), PathError>)
    ensures
        match outcome {
            Ok(()) => first_path_refusal(texts(paths@)) is None,
            Err(error) => first_path_refusal(texts(paths@)) == Some(error),
        },
{
    assert(texts(paths@).skip(0) =~= texts(paths@));
    for i in 0..paths.len()
        invariant
            first_path_refusal(texts(paths@)) == first_path_refusal(texts(paths@).skip(i as int)),
    {
        let ghost rest = texts(paths@).skip(i as int);
        assert(rest[0] == paths@[i as int]@);
        assert(rest.drop_first() =~= texts(paths@).skip(i + 1));
        match path::relative_path(paths[i].as_str(), false) {
            Err(error) => {
                return Err(error);
            },
            Ok(_) => {},
        }
    }
    assert(texts(paths@).skip(paths@.len() as int) =~= Seq::<Seq<char>>::empty());
    Ok(())
}

fn needed(paths: &Vec<String>, i: usize) -> (kept: bool)
    requires
        i < paths@.len(),
    ensures
        kept == is_needed(texts(paths@), i as int),
{
    let ghost all = texts(paths@);
    let mut kept = true;
    for j in 0..paths.len()
        invariant
            i < paths@.len(),
            all == texts(paths@),
            kept ==> forall|k: int|
                0 <= k < j && k < i ==> path::path_of(#[trigger] all[k]) != path::path_of(
                    all[i as int],
                ),
            kept ==> forall|k: int|
                0 <= k < j && path::path_of(#[trigger] all[k]) != path::path_of(all[i as int])
                    ==> !path::is_below(all[i as int], all[k]),
            !kept ==> !is_needed(all, i as int),
    {
        assert(all[j as int] == paths@[j as int]@);
        assert(all[i as int] == paths@[i as int]@);
        if path::same_path(paths[j].as_str(), paths[i].as_str()) {
            if j < i {
                kept = false;
            }
        } else if path::path_is_below(paths[i].as_str(), paths[j].as_str()) {
            kept = false;
        }
    }
    kept
}

/// The paths that have to be acted on so that every selected entry is: without
/// repetitions, and without entries of directories that are selected too.
pub fn normalize_redundant_paths(paths: &Vec<String>) -> (normalized: Result<Vec<String>, PathError>)
    ensures
        match normalized {
            Ok(kept) => first_path_refusal(texts(paths@)) is None && texts(kept@) == needed_paths(
                texts(paths@),
                paths@.len(),
            ),
            Err(error) => first_path_refusal(texts(paths@)) == Some(error),
        },
{
    match check_paths(paths) {
        Err(error) => {
            return Err(error);
        },
        Ok(()) => {},
    }
    let mut kept: Vec<String> = Vec::new();
    assert(texts(kept@) =~= Seq::<Seq<char>>::empty());
    for i in 0..paths.len()
        invariant
            first_path_refusal(texts(paths@)) is None,
            texts(kept@) == needed_paths(texts(paths@), i as nat),
    {
        let ghost before = kept@;
        if needed(paths, i) {
            kept.push(paths[i].clone());
            assert(texts(kept@) =~= texts(before).push(texts(paths@)[i as int]));
        }
    }
    Ok(kept)
}

proof fn lemma_needed_sources(paths: Seq<Seq<char>>, count: nat, k: int) -> (i: int)
    requires
        count <= paths.len(),
        0 <= k < needed_paths(paths, count).len(),
    ensures
        0 <= i < count,
        needed_paths(paths, count)[k] == paths[i],
        is_needed(paths, i),
    decreases count,
{
    let before = needed_paths(paths, (count - 1) as nat);
    if is_needed(paths, count - 1) && k == before.len() {
        count - 1
    } else {
        lemma_needed_sources(paths, (count - 1) as nat, k)
    }
}

proof fn lemma_needed_member(paths: Seq<Seq<char>>, count: nat, i: int)
    requires
        0 <= i < count <= paths.len(),
        is_needed(paths, i),
    ensures
        needed_paths(paths, count).contains(paths[i]),
    decreases count,
{
    let all = needed_paths(paths, count);
    let before = needed_paths(paths, (count - 1) as nat);
    if i == count - 1 {
        assert(all.last() == paths[i]);
    } else {
        lemma_needed_member(paths, (count - 1) as nat, i);
        let k = choose|k: int| 0 <= k < before.len() && before[k] == paths[i];
        assert(all[k] == paths[i]);
    }
}

proof fn lemma_needed_order(paths: Seq<Seq<char>>, count: nat, a: int, b: int)
    requires
        count <= paths.len(),
        0 <= a < b < needed_paths(paths, count).len(),
    ensures
        path::path_of(needed_paths(paths, count)[a]) != path::path_of(needed_paths(paths, count)[b]),
    decreases count,
{
    let before = needed_paths(paths, (count - 1) as nat);
    if is_needed(paths, count - 1) && b == before.len() {
        let i = lemma_needed_sources(paths, (count - 1) as nat, a);
        assert(path::path_of(paths[i]) != path::path_of(paths[count - 1]));
    } else {
        lemma_needed_order(paths, (count - 1) as nat, a, b);
    }
}

/// What is left of a selection holds no path twice and no path below another:
/// acting on its entries one after the other never finds one already gone.
pub proof fn normalized_selections_are_independent(paths: Seq<Seq<char>>)
    ensures
        ({
            let kept = needed_paths(paths, paths.len());
            forall|a: int, b: int|
                0 <= a < kept.len() && 0 <= b < kept.len() && a != b ==> path::path_of(
                    #[trigger] kept[a],
                ) != path::path_of(#[trigger] kept[b]) && !path::is_below(kept[a], kept[b])
        }),
{
    let kept = needed_paths(paths, paths.len());
    assert forall|a: int, b: int|
        0 <= a < kept.len() && 0 <= b < kept.len() && a != b implies path::path_of(
        #[trigger] kept[a],
    ) != path::path_of(#[trigger] kept[b]) && !path::is_below(kept[a], kept[b]) by {
        let i = lemma_needed_sources(paths, paths.len(), a);
        let j = lemma_needed_sources(paths, paths.len(), b);
        if a < b {
            lemma_needed_order(paths, paths.len(), a, b);
        } else {
            lemma_needed_order(paths, paths.len(), b, a);
        }
        assert(path::path_of(paths[j]) != path::path_of(paths[i]));
    }
}

/// Normalizing a selection again changes nothing.
pub proof fn normalizing_twice_changes_nothing(paths: Seq<Seq<char>>)
    ensures
        ({
            let kept = needed_paths(paths, paths.len());
            needed_paths(kept, kept.len()) == kept
        }),
{
    let kept = needed_paths(paths, paths.len());
    normalized_selections_are_independent(paths);
    lemma_all_needed(kept, kept.len());
    assert(kept.take(kept.len() as int) =~= kept);
}

proof fn lemma_all_needed(paths: Seq<Seq<char>>, count: nat)
    requires
        count <= paths.len(),
        forall|a: int, b: int|
            0 <= a < paths.len() && 0 <= b < paths.len() && a != b ==> path::path_of(
                #[trigger] paths[a],
            ) != path::path_of(#[trigger] paths[b]) && !path::is_below(paths[a], paths[b]),
    ensures
        needed_paths(paths, count) == paths.take(count as int),
    decreases count,
{
    if count > 0 {
        lemma_all_needed(paths, (count - 1) as nat);
        let i = count - 1;
        assert(is_needed(paths, i)) by {
            assert forall|j: int|
                0 <= j < paths.len() && path::path_of(#[trigger] paths[j]) != path::path_of(
                    paths[i],
                ) implies !path::is_below(paths[i], paths[j]) by {
                assert(i != j);
            }
            assert forall|j: int| 0 <= j < i implies path::path_of(#[trigger] paths[j])
                != path::path_of(paths[i]) by {
                assert(i != j);
            }
        }
        assert(paths.take(count as int) =~= paths.take(i).push(paths[i]));
    }
    assert(paths.take(0) =~= Seq::<Seq<char>>::empty());
}

/// Every selected entry is still acted on: it lies at or below one of the paths
/// that are left.
pub proof fn normalized_selections_are_complete(paths: Seq<Seq<char>>, i: int) -> (k: int)
    requires
        all_accepted(paths),
        0 <= i < paths.len(),
    ensures
        0 <= k < needed_paths(paths, paths.len()).len(),
        path::is_below(paths[i], needed_paths(paths, paths.len())[k]),
    decreases path::path_names(paths[i]).len(), i,
{
    let kept = needed_paths(paths, paths.len());
    let p = path::path_of(paths[i]);
    assert(path::relative_path_outcome(paths[i], false) is None);
    path::accepted_paths_stay_below_the_root(paths[i], false);
    if is_needed(paths, i) {
        lemma_needed_member(paths, paths.len(), i);
        let k = choose|k: int| 0 <= k < kept.len() && kept[k] == paths[i];
        assert(p.names.subrange(0, p.names.len() as int) =~= p.names);
        k
    } else if exists|j: int|
        0 <= j < i && path::path_of(#[trigger] paths[j]) == path::path_of(paths[i]) {
        let j = choose|j: int|
            0 <= j < i && path::path_of(#[trigger] paths[j]) == path::path_of(paths[i]);
        normalized_selections_are_complete(paths, j)
    } else {
        let j = choose|j: int|
            0 <= j < paths.len() && path::path_of(#[trigger] paths[j]) != path::path_of(paths[i])
                && path::is_below(paths[i], paths[j]);
        let q = path::path_of(paths[j]);
        assert(path::relative_path_outcome(paths[j], false) is None);
        path::accepted_paths_stay_below_the_root(paths[j], false);
        assert(q.names.len() < p.names.len()) by {
            if q.names.len() == p.names.len() {
                assert(q.names =~= p.names.subrange(0, p.names.len() as int));
                assert(q.names =~= p.names);
            }
        }
        let k = normalized_selections_are_complete(paths, j);
        let r = path::path_of(kept[k]);
        let s = lemma_needed_sources(paths, paths.len(), k);
        assert(path::relative_path_outcome(paths[s], false) is None);
        path::accepted_paths_stay_below_the_root(paths[s], false);
        assert(r.names =~= p.names.subrange(0, r.names.len() as int)) by {
            assert(r.names =~= q.names.subrange(0, r.names.len() as int));
            assert(q.names =~= p.names.subrange(0, q.names.len() as int));
        }
        k
    }
}

/// The operation with the archive's extension and without redundant paths.
pub open spec fn is_normalized_as(before: FileManagerOperation, after: FileManagerOperation) -> bool {
    match before {
        FileManagerOperation::CreateArchive { paths, destination, format } => {
            after matches FileManagerOperation::CreateArchive {
                paths: kept,
                destination: named,
                format: same,
            } && kept == paths && same == format && named@ == (if ends_ignoring_case(
                destination@,
                extension_of(format),
            ) {
                destination@
            } else {
                destination@ + extension_of(format)
            })
        },
        FileManagerOperation::Delete { paths } => {
            after matches FileManagerOperation::Delete { paths: kept } && texts(kept@)
                == needed_paths(texts(paths@), paths@.len())
        },
        FileManagerOperation::Move { paths, destination } => {
            after matches FileManagerOperation::Move { paths: kept, destination: same } && same
                == destination && texts(kept@) == needed_paths(texts(paths@), paths@.len())
        },
        _ => after == before,
    }
}

/// Why an operation cannot be normalized.
pub open spec fn normalize_refusal(operation: FileManagerOperation) -> Option<PathError> {
    match operation {
        FileManagerOperation::Delete { paths } => first_path_refusal(texts(paths@)),
        FileManagerOperation::Move { paths, .. } => first_path_refusal(texts(paths@)),
        _ => None,
    }
}

/// Gives an archive its extension, and drops what is redundant of a selection
/// that is moved or deleted. What is copied is left as it is selected.
pub fn normalize_operation(operation: FileManagerOperation) -> (normalized: Result<
    FileManagerOperation,
    PathError,
>)
    ensures
        match normalized {
            Ok(after) => normalize_refusal(operation) is None && is_normalized_as(operation, after),
            Err(error) => normalize_refusal(operation) == Some(error),
        },
{
    match operation {
        FileManagerOperation::CreateArchive { paths, destination, format } => Ok(
            FileManagerOperation::CreateArchive {
                paths,
                destination: ensure_archive_extension(destination.as_str(), format),
                format,
            },
        ),
        FileManagerOperation::Delete { paths } => match normalize_redundant_paths(&paths) {
            Ok(kept) => Ok(FileManagerOperation::Delete { paths: kept }),
            Err(error) => Err(error),
        },
        FileManagerOperation::Move { paths, destination } => match normalize_redundant_paths(
            &paths,
        ) {
            Ok(kept) => Ok(FileManagerOperation::Move { paths: kept, destination }),
            Err(error) => Err(error),
        },
        other => Ok(other),
    }
}

// ---------------------------------------------------------------------------
// The paths that an operation changes
// ---------------------------------------------------------------------------

/// The directory of the path, the root for a path of one name.
pub open spec fn directory_of(path: Seq<char>) -> Seq<char> {
    match path::parent_of(path) {
        Some(parent) => parent,
        None => Seq::empty(),
    }
}

/// A path with another last name.
pub open spec fn renamed_to(path: Seq<char>, name: Seq<char>) -> Seq<char> {
    path::joined(directory_of(path), name)
}

/// Where a source ends up inside a directory.
pub open spec fn target_in(destination: Seq<char>, source: Seq<char>) -> Result<
    Seq<char>,
    OperationError,
> {
    match path::relative_path_outcome(source, false) {
        Some(error) => Err(OperationError::Path(error)),
        None => match path::last_name(source) {
            Some(name) => Ok(path::joined(destination, name)),
            None => Err(OperationError::NoFileName),
        },
    }
}

/// Where the sources end up inside a directory, or why the first refused one is
/// refused.
pub open spec fn targets_in(destination: Seq<char>, sources: Seq<Seq<char>>) -> Result<
    Seq<Seq<char>>,
    OperationError,
>
    decreases sources.len(),
{
    if sources.len() == 0 {
        Ok(Seq::empty())
    } else {
        match targets_in(destination, sources.drop_last()) {
            Err(error) => Err(error),
            Ok(before) => match target_in(destination, sources.last()) {
                Err(error) => Err(error),
                Ok(target) => Ok(before.push(target)),
            },
        }
    }
}

/// The paths that the operation changes.
pub open spec fn watched(operation: FileManagerOperation) -> Result<Seq<Seq<char>>, OperationError> {
    match operation {
        FileManagerOperation::CreateFile { path } => Ok(seq![path@]),
        FileManagerOperation::CreateDirectory { path } => Ok(seq![path@]),
        FileManagerOperation::WriteText { path, .. } => Ok(seq![path@]),
        FileManagerOperation::Delete { paths } => Ok(texts(paths@)),
        FileManagerOperation::Rename { path, new_name } => match path::relative_path_outcome(
            path@,
            false,
        ) {
            Some(error) => Err(OperationError::Path(error)),
            None => match path::single_name_outcome(new_name@) {
                Err(error) => Err(OperationError::Path(error)),
                Ok(name) => Ok(seq![path@, renamed_to(path@, name)]),
            },
        },
        FileManagerOperation::Move { paths, destination } => match path::relative_path_outcome(
            destination@,
            true,
        ) {
            Some(error) => Err(OperationError::Path(error)),
            None => match targets_in(destination@, texts(paths@)) {
                Err(error) => Err(error),
                Ok(targets) => Ok(texts(paths@) + targets),
            },
        },
        FileManagerOperation::Copy { paths, destination } => match path::relative_path_outcome(
            destination@,
            true,
        ) {
            Some(error) => Err(OperationError::Path(error)),
            None => targets_in(destination@, texts(paths@)),
        },
        FileManagerOperation::CreateArchive { destination, .. } => Ok(seq![destination@]),
        FileManagerOperation::ExtractArchive { destination, .. } => Ok(seq![destination@]),
    }
}

/// A result over texts says the same as one over their contents.
pub open spec fn agrees_with(
    result: Result<Vec<String>, OperationError>,
    model: Result<Seq<Seq<char>>, OperationError>,
) -> bool {
    match result {
        Ok(list) => model == Ok::<Seq<Seq<char>>, OperationError>(texts(list@)),
        Err(error) => model == Err::<Seq<Seq<char>>, OperationError>(error),
    }
}

/// The directory of a path, the root for a path of one name.
pub fn directory(path: &str) -> (parent: String)
    ensures
        parent@ == directory_of(path@),
{
    match path::parent(path) {
        Some(parent) => parent,
        None => {
            let parent = String::new();
            assert(parent@ =~= Seq::<char>::empty());
            parent
        },
    }
}

/// Where a source ends up inside a directory.
pub fn target_of(destination: &str, source: &str) -> (target: Result<String, OperationError>)
    ensures
        match target {
            Ok(text) => target_in(destination@, source@) == Ok::<Seq<char>, OperationError>(text@),
            Err(error) => target_in(destination@, source@) == Err::<Seq<char>, OperationError>(
                error,
            ),
        },
{
    match path::relative_path(source, false) {
        Err(error) => Err(OperationError::Path(error)),
        Ok(_) => match path::file_name(source) {
            Some(name) => Ok(path::join(destination, name.as_str())),
            None => Err(OperationError::NoFileName),
        },
    }
}

fn targets_of(destination: &str, sources: &Vec<String>) -> (targets: Result<
    Vec<String>,
    OperationError,
>)
    ensures
        agrees_with(targets, targets_in(destination@, texts(sources@))),
{
    let mut targets: Vec<String> = Vec::new();
    assert(texts(targets@) =~= Seq::<Seq<char>>::empty());
    for i in 0..sources.len()
        invariant
            targets_in(destination@, texts(sources@.take(i as int))) == Ok::<
                Seq<Seq<char>>,
                OperationError,
            >(texts(targets@)),
    {
        proof {
            let all = texts(sources@.take(i + 1));
            assert(all.drop_last() =~= texts(sources@.take(i as int)));
            assert(all.last() == sources@[i as int]@);
        }
        match target_of(destination, sources[i].as_str()) {
            Err(error) => {
                proof {
                    lemma_targets_error(destination@, texts(sources@), i as int + 1);
                    assert(texts(sources@).take(i + 1) =~= texts(sources@.take(i + 1)));
                }
                return Err(error);
            },
            Ok(target) => {
                let ghost before = texts(targets@);
                targets.push(target);
                assert(texts(targets@) =~= before.push(target@));
            },
        }
    }
    assert(sources@.take(sources@.len() as int) =~= sources@);
    Ok(targets)
}

proof fn lemma_targets_error(destination: Seq<char>, sources: Seq<Seq<char>>, count: int)
    requires
        0 <= count <= sources.len(),
        targets_in(destination, sources.take(count)) is Err,
    ensures
        targets_in(destination, sources) == targets_in(destination, sources.take(count)),
    decreases sources.len() - count,
{
    if count < sources.len() {
        assert(sources.take(count + 1).drop_last() =~= sources.take(count));
        lemma_targets_error(destination, sources, count + 1);
    } else {
        assert(sources.take(count) =~= sources);
    }
}

/// The paths that the operation changes.
pub fn watched_paths(operation: &FileManagerOperation) -> (paths: Result<
    Vec<String>,
    OperationError,
>)
    ensures
        agrees_with(paths, watched(*operation)),
{
    match operation {
        FileManagerOperation::CreateFile { path }
        | FileManagerOperation::CreateDirectory { path }
        | FileManagerOperation::WriteText { path, .. } => {
            let mut list: Vec<String> = Vec::new();
            list.push(path.clone());
            assert(texts(list@) =~= seq![path@]);
            Ok(list)
        },
        FileManagerOperation::Delete { paths } => Ok(text::clone_texts(paths)),
        FileManagerOperation::Rename { path, new_name } => {
            match path::relative_path(path.as_str(), false) {
                Err(error) => {
                    return Err(OperationError::Path(error));
                },
                Ok(_) => {},
            }
            match path::single_name(new_name.as_str()) {
                Err(error) => Err(OperationError::Path(error)),
                Ok(name) => {
                    let target = path::join(directory(path.as_str()).as_str(), name.as_str());
                    let mut list: Vec<String> = Vec::new();
                    list.push(path.clone());
                    list.push(target);
                    assert(texts(list@) =~= seq![path@, renamed_to(path@, name@)]);
                    Ok(list)
                },
            }
        },
        FileManagerOperation::Move { paths, destination } => {
            match path::relative_path(destination.as_str(), true) {
                Err(error) => {
                    return Err(OperationError::Path(error));
                },
                Ok(_) => {},
            }
            match targets_of(destination.as_str(), paths) {
                Err(error) => Err(error),
                Ok(targets) => {
                    let mut list = text::clone_texts(paths);
                    let mut more = targets;
                    let ghost sum = texts(list@) + texts(more@);
                    list.append(&mut more);
                    assert(texts(list@) =~= sum);
                    Ok(list)
                },
            }
        },
        FileManagerOperation::Copy { paths, destination } => {
            match path::relative_path(destination.as_str(), true) {
                Err(error) => Err(OperationError::Path(error)),
                Ok(_) => targets_of(destination.as_str(), paths),
            }
        },
        FileManagerOperation::CreateArchive { destination, .. }
        | FileManagerOperation::ExtractArchive { destination, .. } => {
            let mut list: Vec<String> = Vec::new();
            list.push(destination.clone());
            assert(texts(list@) =~= seq![destination@]);
            Ok(list)
        },
    }
}

/// The operation changes the managed file in the editor.
pub open spec fn edits_managed_file(root: ResolvedRoot, operation: FileManagerOperation) -> bool {
    &&& operation matches FileManagerOperation::WriteText { path, .. }
    &&& root.managed_file matches Some(managed)
    &&& path@ == managed@
}

/// Whether the operation changes the managed file in the editor.
pub fn operation_edits_managed_file(root: &ResolvedRoot, operation: &FileManagerOperation) -> (edits:
    bool)
    ensures
        edits == edits_managed_file(*root, *operation),
{
    match operation {
        FileManagerOperation::WriteText { path, .. } => text::is_some_text(
            &root.managed_file,
            path.as_str(),
        ),
        _ => false,
    }
}

// ---------------------------------------------------------------------------
// Validation
// ---------------------------------------------------------------------------

/// An earlier selected entry has the same name.
pub open spec fn repeats_name(paths: Seq<Seq<char>>, k: int) -> bool {
    exists|j: int|
        0 <= j < k && path::last_name(#[trigger] paths[j]) == path::last_name(paths[k])
}

/// Why the entry at `k` cannot be moved or copied into the destination.
pub open spec fn item_refusal(
    paths: Seq<Seq<char>>,
    destination: Seq<char>,
    moving: bool,
    k: int,
) -> Option<OperationError> {
    match target_in(destination, paths[k]) {
        Err(error) => Some(error),
        Ok(target) => if repeats_name(paths, k) {
            Some(OperationError::SameDestinationName)
        } else if moving && path::path_of(target) == path::path_of(paths[k]) {
            Some(OperationError::SamePlace)
        } else if path::is_below(destination, paths[k]) {
            Some(OperationError::InsideItself)
        } else {
            None
        },
    }
}

/// Why the first refused one of `count` entries is refused.
pub open spec fn items_refusal(
    paths: Seq<Seq<char>>,
    destination: Seq<char>,
    moving: bool,
    count: nat,
) -> Option<OperationError>
    decreases count,
{
    if count == 0 {
        None
    } else {
        match items_refusal(paths, destination, moving, (count - 1) as nat) {
            Some(error) => Some(error),
            None => item_refusal(paths, destination, moving, count - 1),
        }
    }
}

/// Why entries cannot be moved or copied.
pub open spec fn transfer_refusal(
    paths: Seq<Seq<char>>,
    destination: Seq<char>,
    moving: bool,
) -> Option<OperationError> {
    if paths.len() == 0 {
        Some(OperationError::EmptySelection)
    } else {
        match path::relative_path_outcome(destination, true) {
            Some(error) => Some(OperationError::Path(error)),
            None => items_refusal(paths, destination, moving, paths.len()),
        }
    }
}

/// Why an archive cannot be made of the entries.
pub open spec fn archive_refusal(paths: Seq<Seq<char>>, destination: Seq<char>) -> Option<
    OperationError,
> {
    if paths.len() == 0 {
        Some(OperationError::EmptySelection)
    } else {
        match first_path_refusal(paths) {
            Some(error) => Some(OperationError::Path(error)),
            None => match path::relative_path_outcome(destination, false) {
                Some(error) => Some(OperationError::Path(error)),
                None => if paths.contains(destination) {
                    Some(OperationError::ReplacesSource)
                } else if exists|i: int|
                    0 <= i < paths.len() && path::is_below(destination, #[trigger] paths[i]) {
                    Some(OperationError::InsideSource)
                } else {
                    None
                },
            },
        }
    }
}

/// A refused path as a refused operation.
pub open spec fn as_operation_error(error: Option<PathError>) -> Option<OperationError> {
    match error {
        Some(refused) => Some(OperationError::Path(refused)),
        None => None,
    }
}

/// Why the operation's own arguments are refused.
pub open spec fn arguments_refusal(operation: FileManagerOperation) -> Option<OperationError> {
    match operation {
        FileManagerOperation::CreateFile { path } => as_operation_error(
            path::relative_path_outcome(path@, false),
        ),
        FileManagerOperation::CreateDirectory { path } => as_operation_error(
            path::relative_path_outcome(path@, false),
        ),
        FileManagerOperation::Rename { path, new_name } => match path::relative_path_outcome(
            path@,
            false,
        ) {
            Some(error) => Some(OperationError::Path(error)),
            None => match path::single_name_outcome(new_name@) {
                Err(error) => Some(OperationError::Path(error)),
                Ok(_) => None,
            },
        },
        FileManagerOperation::WriteText { path, contents, .. } => match path::relative_path_outcome(
            path@,
            false,
        ) {
            Some(error) => Some(OperationError::Path(error)),
            None => if vstd::utf8::encode_utf8(contents@).len() > limits::MAX_TEXT_BYTES {
                Some(OperationError::TextTooLarge)
            } else {
                None
            },
        },
        FileManagerOperation::Move { paths, destination } => transfer_refusal(
            texts(paths@),
            destination@,
            true,
        ),
        FileManagerOperation::Copy { paths, destination } => transfer_refusal(
            texts(paths@),
            destination@,
            false,
        ),
        FileManagerOperation::Delete { paths } => if paths@.len() == 0 {
            Some(OperationError::EmptySelection)
        } else {
            as_operation_error(first_path_refusal(texts(paths@)))
        },
        FileManagerOperation::CreateArchive { paths, destination, .. } => archive_refusal(
            texts(paths@),
            destination@,
        ),
        FileManagerOperation::ExtractArchive { path, destination } => match path::relative_path_outcome(
            path@,
            false,
        ) {
            Some(error) => Some(OperationError::Path(error)),
            None => match path::relative_path_outcome(destination@, false) {
                Some(error) => Some(OperationError::Path(error)),
                None => if path@ == destination@ {
                    Some(OperationError::ReplacesArchive)
                } else {
                    None
                },
            },
        },
    }
}

/// Why an operation is refused in a root.
pub open spec fn operation_refusal(root: ResolvedRoot, operation: FileManagerOperation) -> Option<
    OperationError,
> {
    match arguments_refusal(operation) {
        Some(error) => Some(error),
        None => match root.managed_file {
            None => None,
            Some(managed) => match watched(operation) {
                Err(error) => Some(error),
                Ok(paths) => if paths.contains(managed@) && !edits_managed_file(root, operation) {
                    Some(OperationError::ManagedFile)
                } else {
                    None
                },
            },
        },
    }
}

fn check_path(path: &str, allow_root: bool) -> (outcome: Result<(), OperationError>)
    ensures
        match outcome {
            Ok(()) => path::relative_path_outcome(path@, allow_root) is None,
            Err(error) => as_operation_error(path::relative_path_outcome(path@, allow_root)) == Some(
                error,
            ),
        },
{
    match path::relative_path(path, allow_root) {
        Ok(_) => Ok(()),
        Err(error) => Err(OperationError::Path(error)),
    }
}

fn check_transfer(paths: &Vec<String>, destination: &str, moving: bool) -> (outcome: Result<
    (),
    OperationError,
>)
    ensures
        match outcome {
            Ok(()) => transfer_refusal(texts(paths@), destination@, moving) is None,
            Err(error) => transfer_refusal(texts(paths@), destination@, moving) == Some(error),
        },
{
    if paths.len() == 0 {
        return Err(OperationError::EmptySelection);
    }
    match check_path(destination, true) {
        Err(error) => {
            return Err(error);
        },
        Ok(()) => {},
    }
    let ghost all = texts(paths@);
    let mut names: Vec<String> = Vec::new();
    assert(texts(names@) =~= Seq::<Seq<char>>::empty());
    for i in 0..paths.len()
        invariant
            all == texts(paths@),
            all.len() > 0,
            path::relative_path_outcome(destination@, true) is None,
            items_refusal(all, destination@, moving, i as nat) is None,
            names@.len() == i,
            forall|j: int|
                0 <= j < i ==> path::last_name(#[trigger] all[j]) == Some(texts(names@)[j]),
    {
        let source = paths[i].as_str();
        assert(all[i as int] == source@);
        let target = match target_of(destination, source) {
            Err(error) => {
                proof {
                    lemma_items_error(all, destination@, moving, (i + 1) as nat);
                }
                return Err(error);
            },
            Ok(target) => target,
        };
        let name = match path::file_name(source) {
            Some(name) => name,
            None => {
                return Err(OperationError::NoFileName);
            },
        };
        let repeated = text::contains_text(&names, name.as_str());
        proof {
            if repeated {
                let j = choose|j: int|
                    0 <= j < texts(names@).len() && texts(names@)[j] == name@;
                assert(path::last_name(all[j]) == path::last_name(all[i as int]));
            } else if repeats_name(all, i as int) {
                let j = choose|j: int|
                    0 <= j < i && path::last_name(#[trigger] all[j]) == path::last_name(
                        all[i as int],
                    );
                assert(texts(names@)[j] == name@);
            }
        }
        if repeated {
            proof {
                lemma_items_error(all, destination@, moving, (i + 1) as nat);
            }
            return Err(OperationError::SameDestinationName);
        }
        if moving && path::same_path(target.as_str(), source) {
            proof {
                lemma_items_error(all, destination@, moving, (i + 1) as nat);
            }
            return Err(OperationError::SamePlace);
        }
        if path::path_is_below(destination, source) {
            proof {
                lemma_items_error(all, destination@, moving, (i + 1) as nat);
            }
            return Err(OperationError::InsideItself);
        }
        let ghost before = texts(names@);
        names.push(name);
        assert(texts(names@) =~= before.push(name@));
    }
    Ok(())
}

proof fn lemma_items_error(
    paths: Seq<Seq<char>>,
    destination: Seq<char>,
    moving: bool,
    count: nat,
)
    requires
        count <= paths.len(),
        items_refusal(paths, destination, moving, count) is Some,
    ensures
        items_refusal(paths, destination, moving, paths.len()) == items_refusal(
            paths,
            destination,
            moving,
            count,
        ),
    decreases paths.len() - count,
{
    if count < paths.len() {
        lemma_items_error(paths, destination, moving, count + 1);
    }
}

fn check_archive(paths: &Vec<String>, destination: &str) -> (outcome: Result<(), OperationError>)
    ensures
        match outcome {
            Ok(()) => archive_refusal(texts(paths@), destination@) is None,
            Err(error) => archive_refusal(texts(paths@), destination@) == Some(error),
        },
{
    if paths.len() == 0 {
        return Err(OperationError::EmptySelection);
    }
    match check_paths(paths) {
        Err(error) => {
            return Err(OperationError::Path(error));
        },
        Ok(()) => {},
    }
    match check_path(destination, false) {
        Err(error) => {
            return Err(error);
        },
        Ok(()) => {},
    }
    if text::contains_text(paths, destination) {
        return Err(OperationError::ReplacesSource);
    }
    for i in 0..paths.len()
        invariant
            paths@.len() > 0,
            first_path_refusal(texts(paths@)) is None,
            path::relative_path_outcome(destination@, false) is None,
            !texts(paths@).contains(destination@),
            forall|j: int|
                0 <= j < i ==> !path::is_below(destination@, #[trigger] texts(paths@)[j]),
    {
        assert(texts(paths@)[i as int] == paths@[i as int]@);
        if path::path_is_below(destination, paths[i].as_str()) {
            return Err(OperationError::InsideSource);
        }
    }
    Ok(())
}

fn check_arguments(operation: &FileManagerOperation) -> (outcome: Result<(), OperationError>)
    ensures
        match outcome {
            Ok(()) => arguments_refusal(*operation) is None,
            Err(error) => arguments_refusal(*operation) == Some(error),
        },
{
    match operation {
        FileManagerOperation::CreateFile { path } => check_path(path.as_str(), false),
        FileManagerOperation::CreateDirectory { path } => check_path(path.as_str(), false),
        FileManagerOperation::Rename { path, new_name } => {
            match check_path(path.as_str(), false) {
                Err(error) => {
                    return Err(error);
                },
                Ok(()) => {},
            }
            match path::single_name(new_name.as_str()) {
                Err(error) => Err(OperationError::Path(error)),
                Ok(_) => Ok(()),
            }
        },
        FileManagerOperation::WriteText { path, contents, .. } => {
            match check_path(path.as_str(), false) {
                Err(error) => {
                    return Err(error);
                },
                Ok(()) => {},
            }
            if contents.as_str().as_bytes().len() as u64 > limits::MAX_TEXT_BYTES {
                return Err(OperationError::TextTooLarge);
            }
            Ok(())
        },
        FileManagerOperation::Move { paths, destination } => check_transfer(
            paths,
            destination.as_str(),
            true,
        ),
        FileManagerOperation::Copy { paths, destination } => check_transfer(
            paths,
            destination.as_str(),
            false,
        ),
        FileManagerOperation::Delete { paths } => {
            if paths.len() == 0 {
                return Err(OperationError::EmptySelection);
            }
            match check_paths(paths) {
                Err(error) => Err(OperationError::Path(error)),
                Ok(()) => Ok(()),
            }
        },
        FileManagerOperation::CreateArchive { paths, destination, .. } => check_archive(
            paths,
            destination.as_str(),
        ),
        FileManagerOperation::ExtractArchive { path, destination } => {
            match check_path(path.as_str(), false) {
                Err(error) => {
                    return Err(error);
                },
                Ok(()) => {},
            }
            match check_path(destination.as_str(), false) {
                Err(error) => {
                    return Err(error);
                },
                Ok(()) => {},
            }
            if text::same(path.as_str(), destination.as_str()) {
                return Err(OperationError::ReplacesArchive);
            }
            Ok(())
        },
    }
}

/// Whether an operation may be planned in a root.
pub fn validate_operation(root: &ResolvedRoot, operation: &FileManagerOperation) -> (outcome: Result<
    (),
    OperationError,
>)
    ensures
        match outcome {
            Ok(()) => operation_refusal(*root, *operation) is None,
            Err(error) => operation_refusal(*root, *operation) == Some(error),
        },
{
    match check_arguments(operation) {
        Err(error) => {
            return Err(error);
        },
        Ok(()) => {},
    }
    match &root.managed_file {
        None => Ok(()),
        Some(managed) => match watched_paths(operation) {
            Err(error) => Err(error),
            Ok(paths) => {
                if text::contains_text(&paths, managed.as_str()) && !operation_edits_managed_file(
                    root,
                    operation,
                ) {
                    return Err(OperationError::ManagedFile);
                }
                Ok(())
            },
        },
    }
}

/// The managed file is only ever changed in the editor: an accepted operation
/// that changes its path is the edit of its text.
pub proof fn managed_files_are_only_edited(
    root: ResolvedRoot,
    operation: FileManagerOperation,
    managed: String,
)
    requires
        root.managed_file == Some(managed),
        operation_refusal(root, operation) is None,
    ensures
        watched(operation) is Ok,
        watched(operation)->Ok_0.contains(managed@) ==> edits_managed_file(root, operation),
{
}

/// No accepted transfer puts an entry inside itself or gives two entries the
/// same name.
pub proof fn accepted_transfers_do_not_collide(
    paths: Seq<Seq<char>>,
    destination: Seq<char>,
    moving: bool,
    k: int,
)
    requires
        transfer_refusal(paths, destination, moving) is None,
        0 <= k < paths.len(),
    ensures
        !path::is_below(destination, paths[k]),
        !repeats_name(paths, k),
        path::relative_path_outcome(paths[k], false) is None,
        moving ==> path::path_of(target_in(destination, paths[k])->Ok_0) != path::path_of(paths[k]),
{
    lemma_no_item_refused(paths, destination, moving, paths.len(), k);
}

proof fn lemma_no_item_refused(
    paths: Seq<Seq<char>>,
    destination: Seq<char>,
    moving: bool,
    count: nat,
    k: int,
)
    requires
        items_refusal(paths, destination, moving, count) is None,
        0 <= k < count,
    ensures
        item_refusal(paths, destination, moving, k) is None,
    decreases count,
{
    if k < count - 1 {
        lemma_no_item_refused(paths, destination, moving, (count - 1) as nat, k);
    }
}

/// Every source gets a target of its own name in the destination, in the same order.
pub proof fn targets_keep_names_and_order(
    destination: Seq<char>,
    sources: Seq<Seq<char>>,
    i: int,
)
    requires
        targets_in(destination, sources) is Ok,
        0 <= i < sources.len(),
    ensures
        targets_in(destination, sources)->Ok_0.len() == sources.len(),
        path::last_name(sources[i]) is Some,
        targets_in(destination, sources)->Ok_0[i] == path::joined(
            destination,
            path::last_name(sources[i])->Some_0,
        ),
        path::relative_path_outcome(sources[i], false) is None,
    decreases sources.len(),
{
    let rest = sources.drop_last();
    if i < rest.len() {
        targets_keep_names_and_order(destination, rest, i);
    } else if rest.len() > 0 {
        targets_keep_names_and_order(destination, rest, 0);
    }
}

/// An operation watches every path that it changes: those that go away and those
/// that come to be.
pub proof fn changed_paths_are_watched(operation: FileManagerOperation, i: int)
    requires
        watched(operation) is Ok,
    ensures
        ({
            let paths = watched(operation)->Ok_0;
            match operation {
                FileManagerOperation::CreateFile { path } => paths == seq![path@],
                FileManagerOperation::CreateDirectory { path } => paths == seq![path@],
                FileManagerOperation::WriteText { path, .. } => paths == seq![path@],
                FileManagerOperation::CreateArchive { destination, .. } => paths
                    == seq![destination@],
                FileManagerOperation::ExtractArchive { destination, .. } => paths
                    == seq![destination@],
                FileManagerOperation::Rename { path, new_name } => paths.len() == 2
                    && paths.contains(path@) && paths.contains(
                    path::joined(directory_of(path@), path::path_names(new_name@)[0]),
                ),
                FileManagerOperation::Delete { paths: gone } => paths == texts(gone@),
                FileManagerOperation::Move { paths: sources, destination } => paths.len() == 2
                    * sources@.len() && (0 <= i < sources@.len() ==> paths.contains(sources@[i]@)
                    && paths.contains(
                    path::joined(destination@, path::last_name(sources@[i]@)->Some_0),
                )),
                FileManagerOperation::Copy { paths: sources, destination } => paths.len()
                    == sources@.len() && (0 <= i < sources@.len() ==> paths.contains(
                    path::joined(destination@, path::last_name(sources@[i]@)->Some_0),
                )),
            }
        }),
{
    let paths = watched(operation)->Ok_0;
    match operation {
        FileManagerOperation::Rename { path, new_name } => {
            assert(paths[0] == path@);
            assert(paths[1] == paths[1]);
        },
        FileManagerOperation::Move { paths: sources, destination } => {
            let from = texts(sources@);
            let targets = targets_in(destination@, from)->Ok_0;
            if from.len() > 0 {
                targets_keep_names_and_order(destination@, from, 0);
            }
            if 0 <= i < from.len() {
                targets_keep_names_and_order(destination@, from, i);
                assert(paths[i] == sources@[i]@);
                assert(paths[from.len() + i] == targets[i]);
            }
        },
        FileManagerOperation::Copy { paths: sources, destination } => {
            let from = texts(sources@);
            if from.len() > 0 {
                targets_keep_names_and_order(destination@, from, 0);
            }
            if 0 <= i < from.len() {
                targets_keep_names_and_order(destination@, from, i);
                assert(paths[i] == targets_in(destination@, from)->Ok_0[i]);
            }
        },
        _ => {},
    }
}

proof fn lemma_items_pass(
    paths: Seq<Seq<char>>,
    destination: Seq<char>,
    moving: bool,
    count: nat,
)
    requires
        count <= paths.len(),
    ensures
        items_refusal(paths, destination, moving, count) is None <==> forall|k: int|
            #![trigger paths[k]]
            0 <= k < count ==> item_refusal(paths, destination, moving, k) is None,
    decreases count,
{
    if count > 0 {
        lemma_items_pass(paths, destination, moving, (count - 1) as nat);
        let last = paths[count - 1];
        assert(last == paths[count - 1]);
    }
}

/// A transfer is accepted when something is selected, every path and the destination
/// are good, no two selected entries have the same name, none is put inside itself,
/// and none is moved to where it already is; and only then.
pub proof fn good_transfers_are_accepted(
    paths: Seq<Seq<char>>,
    destination: Seq<char>,
    moving: bool,
)
    ensures
        transfer_refusal(paths, destination, moving) is None <==> {
            &&& paths.len() > 0
            &&& path::relative_path_outcome(destination, true) is None
            &&& forall|k: int|
                #![trigger paths[k]]
                0 <= k < paths.len() ==> {
                    &&& path::relative_path_outcome(paths[k], false) is None
                    &&& path::last_name(paths[k]) is Some
                    &&& !repeats_name(paths, k)
                    &&& !path::is_below(destination, paths[k])
                    &&& moving ==> path::path_of(
                        path::joined(destination, path::last_name(paths[k])->Some_0),
                    ) != path::path_of(paths[k])
                }
        },
{
    lemma_items_pass(paths, destination, moving, paths.len());
    if paths.len() > 0 && path::relative_path_outcome(destination, true) is None {
        assert forall|k: int|
            #![trigger paths[k]]
            0 <= k < paths.len() implies (item_refusal(paths, destination, moving, k) is None <==> {
            &&& path::relative_path_outcome(paths[k], false) is None
            &&& path::last_name(paths[k]) is Some
            &&& !repeats_name(paths, k)
            &&& !path::is_below(destination, paths[k])
            &&& moving ==> path::path_of(
                path::joined(destination, path::last_name(paths[k])->Some_0),
            ) != path::path_of(paths[k])
        }) by {}
    }
}

/// An archive is accepted when something is selected, every path is good, and it
/// would neither replace nor lie inside what it packs; and only then.
pub proof fn good_archives_are_accepted(paths: Seq<Seq<char>>, destination: Seq<char>)
    ensures
        archive_refusal(paths, destination) is None <==> {
            &&& paths.len() > 0
            &&& all_accepted(paths)
            &&& path::relative_path_outcome(destination, false) is None
            &&& forall|i: int|
                0 <= i < paths.len() ==> #[trigger] paths[i] != destination && !path::is_below(
                    destination,
                    paths[i],
                )
        },
{
    lists_pass_when_every_path_is_accepted(paths);
    if paths.contains(destination) {
        let i = paths.index_of(destination);
        assert(paths[i] == destination);
    }
}

/// A renamed entry stays in its directory and gets the new name.
pub proof fn renamed_entries_stay_in_their_directory(path: Seq<char>, new_name: Seq<char>)
    requires
        path::relative_path_outcome(path, false) is None,
        path::single_name_outcome(new_name) is Ok,
    ensures
        path::path_names(renamed_to(path, path::single_name_outcome(new_name)->Ok_0))
            == path::path_names(path).drop_last() + path::path_names(new_name),
{
    let name = path::single_name_outcome(new_name)->Ok_0;
    path::accepted_paths_stay_below_the_root(path, false);
    path::parents_lack_the_last_name(path);
    path::accepted_names_are_accepted_paths(new_name);
    path::accepted_paths_are_normalized(new_name, false);
    path::accepted_paths_stay_below_the_root(new_name, false);
    assert(path::slashed(seq![name]) == name);
    path::joined_paths_have_the_names_of_both(directory_of(path), name);
}

} // verus!
