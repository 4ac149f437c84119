//! What a restore would do to the paths of its destination.

use vstd::prelude::*;
use vstd::utf8::encode_utf8;

use crate::backup::publication::RestorePublishPath;
use crate::file_manager::revision;
use crate::file_manager::revision::le_bytes;
use crate::outside;
use crate::path;
use crate::text;
use crate::text::in_order;
use crate::text::texts;

verus! {

/// How many paths a preview shows at most.
pub const MAX_RESTORE_PREVIEW_ROWS: usize = 10_000;

/// How many bytes the paths of a preview take at most.
pub const MAX_RESTORE_PREVIEW_BYTES: usize = 1_048_576;

/// How many directories deep a destination may be.
pub const MAX_RESTORE_PREVIEW_DEPTH: usize = 128;

/// The letter `c` for created paths.
pub const CREATED: u8 = 0x63;

/// The letter `o` for overwritten paths.
pub const OVERWRITTEN: u8 = 0x6f;

/// The letter `d` for deleted paths.
pub const DELETED: u8 = 0x64;

/// How many paths there are, and a digest of all of them.
#[derive(Clone, Debug, PartialEq, Eq)]
pub struct BackupRestorePathSummary {
    pub created: u32,
    pub overwritten: u32,
    pub deleted: u32,
    pub sha256: String,
}

/// What a restore would do.
#[derive(Clone, Debug, PartialEq, Eq)]
pub struct PreflightVykarRestoreResponse {
    pub destination_exists: bool,
    pub created_paths: Vec<String>,
    pub overwritten_paths: Vec<String>,
    pub deleted_paths: Vec<String>,
    pub containers_to_stop: Vec<String>,
    pub path_summary: Option<BackupRestorePathSummary>,
}

// ---------------------------------------------------------------------------
// The bounded preview
// ---------------------------------------------------------------------------

/// The bytes of the paths, each behind its length.
pub open spec fn paths_bytes(paths: Seq<Seq<char>>) -> Seq<u8>
    decreases paths.len(),
{
    if paths.len() == 0 {
        Seq::empty()
    } else {
        paths_bytes(paths.drop_last()) + le_bytes(encode_utf8(paths.last()).len(), 8) + encode_utf8(
            paths.last(),
        )
    }
}

/// The bytes of one category: its letter, the number of its paths, the paths.
pub open spec fn category_bytes(category: u8, paths: Seq<Seq<char>>) -> Seq<u8> {
    seq![category] + le_bytes(paths.len(), 8) + paths_bytes(paths)
}

/// What the digest of a preview is made from.
pub open spec fn preview_bytes(
    created: Seq<Seq<char>>,
    overwritten: Seq<Seq<char>>,
    deleted: Seq<Seq<char>>,
) -> Seq<u8> {
    encode_utf8("komodo-restore-paths-v1"@) + category_bytes(CREATED, created) + category_bytes(
        OVERWRITTEN,
        overwritten,
    ) + category_bytes(DELETED, deleted)
}

/// How many bytes the paths take.
pub open spec fn bytes_taken(paths: Seq<Seq<char>>) -> nat
    decreases paths.len(),
{
    if paths.len() == 0 {
        0
    } else {
        bytes_taken(paths.drop_last()) + encode_utf8(paths.last()).len()
    }
}

/// How many of the paths are shown when there is room for so many rows and
/// bytes: all in front of the first one that has no room.
pub open spec fn shown(paths: Seq<Seq<char>>, rows: nat, bytes: nat) -> nat
    decreases paths.len(),
{
    if paths.len() == 0 {
        0
    } else {
        let before = shown(paths.drop_last(), rows, bytes);
        if before < paths.len() - 1 || paths.len() > rows || bytes_taken(paths) > bytes {
            before
        } else {
            before + 1
        }
    }
}

proof fn lemma_shown(paths: Seq<Seq<char>>, rows: nat, bytes: nat)
    ensures
        shown(paths, rows, bytes) <= paths.len(),
        shown(paths, rows, bytes) <= rows,
        bytes_taken(paths.take(shown(paths, rows, bytes) as int)) <= bytes,
    decreases paths.len(),
{
    if paths.len() > 0 {
        let rest = paths.drop_last();
        lemma_shown(rest, rows, bytes);
        let n = shown(paths, rows, bytes);
        if n == paths.len() {
            assert(paths.take(n as int) =~= paths);
        } else {
            assert(paths.take(n as int) =~= rest.take(n as int));
        }
    } else {
        assert(paths.take(0) =~= paths);
    }
}

proof fn lemma_shown_stops(paths: Seq<Seq<char>>, n: int, rows: nat, bytes: nat)
    requires
        0 <= n < paths.len(),
        shown(paths.take(n), rows, bytes) == n,
        n + 1 > rows || bytes_taken(paths.take(n + 1)) > bytes,
    ensures
        shown(paths, rows, bytes) == n,
    decreases paths.len(),
{
    if n == paths.len() - 1 {
        assert(paths.drop_last() =~= paths.take(n));
        assert(paths.take(n + 1) =~= paths);
    } else {
        let rest = paths.drop_last();
        assert(rest.take(n) =~= paths.take(n));
        assert(rest.take(n + 1) =~= paths.take(n + 1));
        lemma_shown_stops(rest, n, rows, bytes);
    }
}

fn absorb_paths(bytes: &mut Vec<u8>, category: u8, paths: &Vec<String>)
    ensures
        final(bytes)@ == old(bytes)@ + category_bytes(category, texts(paths@)),
{
    let ghost start = bytes@;
    bytes.push(category);
    revision::push_le(bytes, paths.len() as u64, 8);
    let ghost head = seq![category] + le_bytes(paths@.len(), 8);
    assert(texts(paths@.take(0)) =~= Seq::<Seq<char>>::empty());
    assert(bytes@ =~= start + head + paths_bytes(texts(paths@.take(0))));
    for i in 0..paths.len()
        invariant
            bytes@ == start + head + paths_bytes(texts(paths@.take(i as int))),
    {
        let contents = revision::bytes_of_text(paths[i].as_str());
        let ghost before = bytes@;
        revision::push_le(bytes, contents.len() as u64, 8);
        let mut rest = contents;
        bytes.append(&mut rest);
        proof {
            let more = texts(paths@.take(i + 1));
            assert(more.drop_last() =~= texts(paths@.take(i as int)));
            assert(more.last() == paths@[i as int]@);
            assert(bytes@ =~= start + head + paths_bytes(more));
        }
    }
    assert(paths@.take(paths@.len() as int) =~= paths@);
    assert(start + head + paths_bytes(texts(paths@)) =~= start + category_bytes(
        category,
        texts(paths@),
    ));
}

/// Keeps the paths that are shown, and tells how much room is left.
fn keep_shown(paths: &Vec<String>, rows: usize, room: usize) -> (kept: (Vec<String>, usize, usize))
    ensures
        ({
            let count = shown(texts(paths@), rows as nat, room as nat);
            &&& texts(kept.0@) == texts(paths@).take(count as int)
            &&& kept.1 == rows - count
            &&& kept.2 == room - bytes_taken(texts(paths@).take(count as int))
        }),
{
    let ghost all = texts(paths@);
    let mut kept: Vec<String> = Vec::new();
    let mut rows_left: usize = rows;
    let mut room_left: usize = room;
    assert(all.take(0) =~= Seq::<Seq<char>>::empty());
    assert(texts(kept@) =~= all.take(0));
    for i in 0..paths.len()
        invariant
            all == texts(paths@),
            texts(kept@) == all.take(i as int),
            shown(all.take(i as int), rows as nat, room as nat) == i,
            rows_left == rows - i,
            room_left == room - bytes_taken(all.take(i as int)),
    {
        let size = revision::bytes_of_text(paths[i].as_str()).len();
        proof {
            assert(all.take(i + 1).drop_last() =~= all.take(i as int));
            assert(all.take(i + 1).last() == paths@[i as int]@);
        }
        if rows_left == 0 || size > room_left {
            proof {
                lemma_shown_stops(all, i as int, rows as nat, room as nat);
            }
            return (kept, rows_left, room_left);
        }
        rows_left = rows_left - 1;
        room_left = room_left - size;
        kept.push(paths[i].clone());
        assert(texts(kept@) =~= all.take(i + 1));
    }
    assert(all.take(all.len() as int) =~= all);
    (kept, rows_left, room_left)
}

/// The paths of a preview: how many of each category, the digest of all of
/// them, and as many as there is room for.
pub open spec fn previews(
    response: PreflightVykarRestoreResponse,
    created: Seq<Seq<char>>,
    overwritten: Seq<Seq<char>>,
    deleted: Seq<Seq<char>>,
) -> bool {
    let rows = MAX_RESTORE_PREVIEW_ROWS as nat;
    let room = MAX_RESTORE_PREVIEW_BYTES as nat;
    let c = shown(created, rows, room);
    let rows2 = (rows - c) as nat;
    let room2 = (room - bytes_taken(created.take(c as int))) as nat;
    let o = shown(overwritten, rows2, room2);
    let rows3 = (rows2 - o) as nat;
    let room3 = (room2 - bytes_taken(overwritten.take(o as int))) as nat;
    let d = shown(deleted, rows3, room3);
    &&& texts(response.created_paths@) == created.take(c as int)
    &&& texts(response.overwritten_paths@) == overwritten.take(o as int)
    &&& texts(response.deleted_paths@) == deleted.take(d as int)
    &&& response.path_summary matches Some(summary)
    &&& summary.created == created.len() as u32
    &&& summary.overwritten == overwritten.len() as u32
    &&& summary.deleted == deleted.len() as u32
    &&& summary.sha256@ == revision::digest_text(preview_bytes(created, overwritten, deleted))
}

/// The preview of a restore. Every path counts for the digest, also one that is
/// not shown.
pub fn bounded_restore_preview(
    created_paths: &Vec<String>,
    overwritten_paths: &Vec<String>,
    deleted_paths: &Vec<String>,
) -> (response: PreflightVykarRestoreResponse)
    ensures
        previews(
            response,
            in_order(texts(created_paths@)),
            in_order(texts(overwritten_paths@)),
            in_order(texts(deleted_paths@)),
        ),
        !response.destination_exists,
        response.containers_to_stop@.len() == 0,
{
    let created = text::sorted_unique(created_paths);
    let overwritten = text::sorted_unique(overwritten_paths);
    let deleted = text::sorted_unique(deleted_paths);
    let mut bytes = revision::bytes_of_text("komodo-restore-paths-v1");
    absorb_paths(&mut bytes, CREATED, &created);
    absorb_paths(&mut bytes, OVERWRITTEN, &overwritten);
    absorb_paths(&mut bytes, DELETED, &deleted);
    assert(bytes@ =~= preview_bytes(texts(created@), texts(overwritten@), texts(deleted@)));
    let digest = outside::sha256(&bytes);
    let summary = BackupRestorePathSummary {
        created: created.len() as u32,
        overwritten: overwritten.len() as u32,
        deleted: deleted.len() as u32,
        sha256: outside::hex_encode(&digest),
    };
    let (created_shown, rows2, room2) = keep_shown(
        &created,
        MAX_RESTORE_PREVIEW_ROWS,
        MAX_RESTORE_PREVIEW_BYTES,
    );
    let (overwritten_shown, rows3, room3) = keep_shown(&overwritten, rows2, room2);
    let (deleted_shown, _, _) = keep_shown(&deleted, rows3, room3);
    PreflightVykarRestoreResponse {
        destination_exists: false,
        created_paths: created_shown,
        overwritten_paths: overwritten_shown,
        deleted_paths: deleted_shown,
        containers_to_stop: Vec::new(),
        path_summary: Some(summary),
    }
}

// ---------------------------------------------------------------------------
// Comparing previews
// ---------------------------------------------------------------------------

fn same_in_any_order(a: &Vec<String>, b: &Vec<String>) -> (same: bool)
    ensures
        same == (in_order(texts(a@)) == in_order(texts(b@))),
{
    let x = text::sorted_unique(a);
    let y = text::sorted_unique(b);
    if x.len() != y.len() {
        return false;
    }
    for i in 0..x.len()
        invariant
            x@.len() == y@.len(),
            texts(x@) == in_order(texts(a@)),
            texts(y@) == in_order(texts(b@)),
            forall|j: int| 0 <= j < i ==> (#[trigger] x@[j])@ == y@[j]@,
    {
        if !text::same(x[i].as_str(), y[i].as_str()) {
            assert(texts(x@)[i as int] != texts(y@)[i as int]);
            return false;
        }
    }
    assert(texts(x@) =~= texts(y@));
    true
}

/// A summary over texts.
pub open spec fn summary_model(summary: Option<BackupRestorePathSummary>) -> Option<
    (u32, u32, u32, Seq<char>),
> {
    match summary {
        Some(s) => Some((s.created, s.overwritten, s.deleted, s.sha256@)),
        None => None,
    }
}

fn same_summary(
    a: &Option<BackupRestorePathSummary>,
    b: &Option<BackupRestorePathSummary>,
) -> (same: bool)
    ensures
        same == (summary_model(*a) == summary_model(*b)),
{
    match (a, b) {
        (Some(x), Some(y)) => x.created == y.created && x.overwritten == y.overwritten && x.deleted
            == y.deleted && text::same(x.sha256.as_str(), y.sha256.as_str()),
        (None, None) => true,
        _ => false,
    }
}

impl PreflightVykarRestoreResponse {
    /// The previews tell the same, in any order.
    pub open spec fn tells_the_same(self, other: PreflightVykarRestoreResponse) -> bool {
        &&& self.destination_exists == other.destination_exists
        &&& in_order(texts(self.created_paths@)) == in_order(texts(other.created_paths@))
        &&& in_order(texts(self.overwritten_paths@)) == in_order(texts(other.overwritten_paths@))
        &&& in_order(texts(self.deleted_paths@)) == in_order(texts(other.deleted_paths@))
        &&& in_order(texts(self.containers_to_stop@)) == in_order(texts(other.containers_to_stop@))
        &&& summary_model(self.path_summary) == summary_model(other.path_summary)
    }

    /// Whether the previews tell the same, in any order.
    pub fn matches(&self, other: &PreflightVykarRestoreResponse) -> (same: bool)
        ensures
            same == self.tells_the_same(*other),
    {
        self.destination_exists == other.destination_exists && same_in_any_order(
            &self.created_paths,
            &other.created_paths,
        ) && same_in_any_order(&self.overwritten_paths, &other.overwritten_paths)
            && same_in_any_order(&self.deleted_paths, &other.deleted_paths) && same_in_any_order(
            &self.containers_to_stop,
            &other.containers_to_stop,
        ) && same_summary(&self.path_summary, &other.path_summary)
    }
}

/// The paths that a restore creates, overwrites and deletes.
#[derive(Clone, Debug, PartialEq, Eq)]
pub struct PathChanges {
    pub created: Vec<String>,
    pub overwritten: Vec<String>,
    pub deleted: Vec<String>,
}

/// A preview of these changes and containers tells the same as the expected one,
/// or does not.
pub open spec fn tells_the_same_as(
    expected: PreflightVykarRestoreResponse,
    created: Seq<Seq<char>>,
    overwritten: Seq<Seq<char>>,
    deleted: Seq<Seq<char>>,
    running: Seq<Seq<char>>,
    same: bool,
) -> bool {
    exists|preview: PreflightVykarRestoreResponse|
        previews(preview, in_order(created), in_order(overwritten), in_order(deleted))
            && preview.destination_exists == expected.destination_exists && texts(
            preview.containers_to_stop@,
        ) == running && same == #[trigger] expected.tells_the_same(preview)
}

/// Whether the paths are still the ones that were confirmed, now that the
/// containers have stopped.
pub fn ensure_quiesced_preview_matches(
    expected: &PreflightVykarRestoreResponse,
    changes: &PathChanges,
    original_running: Vec<String>,
) -> (unchanged: bool)
    ensures
        tells_the_same_as(
            *expected,
            texts(changes.created@),
            texts(changes.overwritten@),
            texts(changes.deleted@),
            texts(original_running@),
            unchanged,
        ),
{
    let mut preview = bounded_restore_preview(
        &changes.created,
        &changes.overwritten,
        &changes.deleted,
    );
    preview.destination_exists = expected.destination_exists;
    preview.containers_to_stop = original_running;
    let same = expected.matches(&preview);
    assert(same == expected.tells_the_same(preview));
    same
}

// ---------------------------------------------------------------------------
// Where snapshot paths go
// ---------------------------------------------------------------------------

/// A path of a snapshot.
#[derive(Clone, Debug, PartialEq, Eq)]
pub struct SnapshotPath {
    pub path: String,
    pub directory: bool,
}

/// Why there is no preview.
#[derive(Clone, Copy, Debug, PartialEq, Eq, Structural)]
pub enum PreviewError {
    /// A snapshot path is absolute or goes up.
    UnsafeSnapshotPath,
    /// A destination lies outside the volume.
    OutsideVolume,
    /// A path inside the volume goes up.
    UnsafeRelativePath,
    /// The destination has too many directories inside one another.
    TooDeep,
    /// What was created for the volume is no directory.
    NoDirectory,
    /// A path lies outside the created volume.
    Escaped,
}

/// The snapshot path that a mapping stands for.
pub open spec fn mapped_root(mapping: RestorePublishPath) -> Seq<char> {
    text::before_slashes(text::past_slashes(mapping.snapshot_path@))
}

/// How many pieces a path has.
pub open spec fn piece_count(path: Seq<char>) -> int {
    let model = path::path_of(path);
    model.names.len() + (if model.absolute {
        1int
    } else {
        0int
    }) + (if model.dotted {
        1int
    } else {
        0int
    })
}

/// The mapping that a snapshot path goes by: the one with the deepest root that
/// it lies below, and of several such ones the last.
pub open spec fn best_mapping(path: Seq<char>, publish: Seq<RestorePublishPath>) -> Option<int>
    decreases publish.len(),
{
    if publish.len() == 0 {
        None
    } else {
        let last = publish.len() - 1;
        let before = best_mapping(path, publish.drop_last());
        if path::stripped(path, mapped_root(publish[last])) is None {
            before
        } else {
            match before {
                None => Some(last),
                Some(i) => if piece_count(mapped_root(publish[i])) <= piece_count(
                    mapped_root(publish[last]),
                ) {
                    Some(last)
                } else {
                    Some(i)
                },
            }
        }
    }
}

/// The path is absolute or goes up.
pub open spec fn is_unsafe(path: Seq<char>) -> bool {
    path::is_absolute_path(path) || path::goes_up(path)
}

/// Where a snapshot path goes: the mapping and the path inside it.
pub open spec fn mapping_of(path: Seq<char>, publish: Seq<RestorePublishPath>) -> Result<
    Option<(int, Seq<char>)>,
    PreviewError,
> {
    if is_unsafe(path) {
        Err(PreviewError::UnsafeSnapshotPath)
    } else {
        match best_mapping(path, publish) {
            None => Ok(None),
            Some(i) => Ok(Some((i, path::stripped(path, mapped_root(publish[i]))->Some_0))),
        }
    }
}

proof fn lemma_name_count(path: Seq<char>)
    ensures
        path::path_names(path).len() <= path::trim_front(path).len(),
        piece_count(path) <= path.len(),
    decreases path.len(),
{
    let rest = path::trim_front(path);
    path::lemma_trim_front(path);
    path::lemma_piece_len(rest);
    if rest.len() > 0 {
        lemma_name_count(rest.skip(path::piece_len(rest) as int));
        path::lemma_trim_front(rest.skip(path::piece_len(rest) as int));
    }
    if path::is_absolute_path(path) || path::begins_with_dot(path) {
        path::lemma_trim_front(path.drop_first());
    }
}

/// How many pieces a path has.
pub fn count_pieces(path: &str) -> (count: usize)
    ensures
        count == piece_count(path@),
{
    let parts = path::parse_path(path);
    let limit: usize = text::chars_of(path).len();
    proof {
        assert(path@.len() == limit);
        lemma_name_count(path@);
        assert(texts(parts.names@).len() == parts.names@.len());
    }
    let mut count: usize = parts.names.len();
    if parts.absolute {
        count = count + 1;
    }
    if parts.dotted {
        count = count + 1;
    }
    count
}

/// Where a snapshot path goes.
pub fn map_snapshot_path(snapshot_path: &str, publish: &Vec<RestorePublishPath>) -> (mapping: Result<
    Option<(usize, String)>,
    PreviewError,
>)
    ensures
        match mapping {
            Err(error) => mapping_of(snapshot_path@, publish@) == Err::<
                Option<(int, Seq<char>)>,
                PreviewError,
            >(error),
            Ok(None) => mapping_of(snapshot_path@, publish@) == Ok::<
                Option<(int, Seq<char>)>,
                PreviewError,
            >(None),
            Ok(Some((i, relative))) => i < publish@.len() && mapping_of(snapshot_path@, publish@)
                == Ok::<Option<(int, Seq<char>)>, PreviewError>(Some((i as int, relative@))),
        },
{
    if path::path_is_absolute(snapshot_path) || path::path_goes_up(snapshot_path) {
        return Err(PreviewError::UnsafeSnapshotPath);
    }
    let mut best: Option<(usize, String, usize)> = None;
    assert(publish@.take(0) =~= Seq::<RestorePublishPath>::empty());
    for i in 0..publish.len()
        invariant
            match best {
                None => best_mapping(snapshot_path@, publish@.take(i as int)) is None,
                Some((k, relative, depth)) => {
                    &&& k < i
                    &&& best_mapping(snapshot_path@, publish@.take(i as int)) == Some(k as int)
                    &&& path::stripped(snapshot_path@, mapped_root(publish@[k as int])) == Some(
                        relative@,
                    )
                    &&& depth == piece_count(mapped_root(publish@[k as int]))
                },
            },
    {
        assert(publish@.take(i + 1).drop_last() =~= publish@.take(i as int));
        let root = text::trim_slashes(publish[i].snapshot_path.as_str());
        match path::strip_prefix(snapshot_path, root.as_str()) {
            None => {},
            Some(relative) => {
                let depth = count_pieces(root.as_str());
                let replace = match &best {
                    None => true,
                    Some((_, _, deepest)) => *deepest <= depth,
                };
                if replace {
                    best = Some((i, relative, depth));
                }
            },
        }
    }
    assert(publish@.take(publish@.len() as int) =~= publish@);
    match best {
        None => Ok(None),
        Some((i, relative, _)) => Ok(Some((i, relative))),
    }
}

// ---------------------------------------------------------------------------
// A volume that does not exist yet
// ---------------------------------------------------------------------------

/// Where the data of a volume would stand.
pub open spec fn logical_root(volume_name: Seq<char>) -> Seq<char> {
    path::joined(path::joined("/var/lib/docker/volumes"@, volume_name), "_data"@)
}

/// A path inside a volume, as it is shown.
pub open spec fn volume_path(volume_name: Seq<char>, relative: Seq<char>) -> Seq<char> {
    "volume://"@ + volume_name + "/"@ + relative
}

/// What a restore into a missing volume shows for a snapshot path.
pub open spec fn missing_volume_path(
    snapshot_path: Seq<char>,
    publish: Seq<RestorePublishPath>,
    volume_name: Seq<char>,
) -> Result<Option<Seq<char>>, PreviewError> {
    match mapping_of(snapshot_path, publish) {
        Err(error) => Err(error),
        Ok(None) => Ok(None),
        Ok(Some((i, inner))) => {
            match path::stripped(
                path::joined(publish[i].destination@, inner),
                logical_root(volume_name),
            ) {
                None => Err(PreviewError::OutsideVolume),
                Some(relative) => if is_unsafe(relative) || path::begins_with_dot(relative) {
                    Err(PreviewError::UnsafeRelativePath)
                } else {
                    Ok(Some(volume_path(volume_name, relative)))
                },
            }
        },
    }
}

/// What a restore into a missing volume shows.
pub open spec fn missing_volume_paths(
    snapshot_paths: Seq<SnapshotPath>,
    publish: Seq<RestorePublishPath>,
    volume_name: Seq<char>,
) -> Result<Seq<Seq<char>>, PreviewError>
    decreases snapshot_paths.len(),
{
    if snapshot_paths.len() == 0 {
        Ok(Seq::empty())
    } else {
        match missing_volume_paths(snapshot_paths.drop_last(), publish, volume_name) {
            Err(error) => Err(error),
            Ok(before) => match missing_volume_path(
                snapshot_paths.last().path@,
                publish,
                volume_name,
            ) {
                Err(error) => Err(error),
                Ok(None) => Ok(before),
                Ok(Some(shown)) => Ok(before.push(shown)),
            },
        }
    }
}

proof fn lemma_missing_stops(
    snapshot_paths: Seq<SnapshotPath>,
    n: int,
    publish: Seq<RestorePublishPath>,
    volume_name: Seq<char>,
)
    requires
        0 <= n <= snapshot_paths.len(),
        missing_volume_paths(snapshot_paths.take(n), publish, volume_name) is Err,
    ensures
        missing_volume_paths(snapshot_paths, publish, volume_name) == missing_volume_paths(
            snapshot_paths.take(n),
            publish,
            volume_name,
        ),
    decreases snapshot_paths.len(),
{
    if n == snapshot_paths.len() {
        assert(snapshot_paths.take(n) =~= snapshot_paths);
    } else {
        assert(snapshot_paths.drop_last().take(n) =~= snapshot_paths.take(n));
        lemma_missing_stops(snapshot_paths.drop_last(), n, publish, volume_name);
    }
}

fn show_missing(snapshot_path: &str, publish: &Vec<RestorePublishPath>, volume_name: &str) -> (shown:
    Result<Option<String>, PreviewError>)
    ensures
        match shown {
            Err(error) => missing_volume_path(snapshot_path@, publish@, volume_name@) == Err::<
                Option<Seq<char>>,
                PreviewError,
            >(error),
            Ok(shown) => missing_volume_path(snapshot_path@, publish@, volume_name@) == Ok::<
                Option<Seq<char>>,
                PreviewError,
            >(text::held(shown)),
        },
{
    let (i, inner) = match map_snapshot_path(snapshot_path, publish) {
        Err(error) => {
            return Err(error);
        },
        Ok(None) => {
            return Ok(None);
        },
        Ok(Some(found)) => found,
    };
    let root = path::join(path::join("/var/lib/docker/volumes", volume_name).as_str(), "_data");
    let destination = path::join(publish[i].destination.as_str(), inner.as_str());
    match path::strip_prefix(destination.as_str(), root.as_str()) {
        None => Err(PreviewError::OutsideVolume),
        Some(relative) => {
            let parts = path::parse_path(relative.as_str());
            if path::path_is_absolute(relative.as_str()) || path::path_goes_up(relative.as_str())
                || parts.dotted {
                return Err(PreviewError::UnsafeRelativePath);
            }
            let mut shown = text::concat3("volume://", volume_name, "/");
            shown.append(relative.as_str());
            Ok(Some(shown))
        },
    }
}

/// What a restore into a volume that does not exist does: it creates every path,
/// and each is named inside the volume.
pub fn compare_missing_volume_paths(
    snapshot_paths: &Vec<SnapshotPath>,
    publish: &Vec<RestorePublishPath>,
    volume_name: &str,
) -> (changes: Result<PathChanges, PreviewError>)
    ensures
        match (changes, missing_volume_paths(snapshot_paths@, publish@, volume_name@)) {
            (Ok(paths), Ok(shown)) => texts(paths.created@) == in_order(shown)
                && paths.overwritten@.len() == 0 && paths.deleted@.len() == 0,
            (Err(a), Err(b)) => a == b,
            _ => false,
        },
{
    let mut created: Vec<String> = Vec::new();
    assert(snapshot_paths@.take(0) =~= Seq::<SnapshotPath>::empty());
    assert(texts(created@) =~= Seq::<Seq<char>>::empty());
    for i in 0..snapshot_paths.len()
        invariant
            missing_volume_paths(snapshot_paths@.take(i as int), publish@, volume_name@) == Ok::<
                Seq<Seq<char>>,
                PreviewError,
            >(texts(created@)),
    {
        let ghost before = texts(created@);
        proof {
            let more = snapshot_paths@.take(i + 1);
            assert(more.drop_last() =~= snapshot_paths@.take(i as int));
            if missing_volume_paths(more, publish@, volume_name@) is Err {
                lemma_missing_stops(snapshot_paths@, i + 1, publish@, volume_name@);
            }
        }
        match show_missing(snapshot_paths[i].path.as_str(), publish, volume_name) {
            Err(error) => {
                return Err(error);
            },
            Ok(None) => {},
            Ok(Some(shown)) => {
                created.push(shown);
                assert(texts(created@) =~= before.push(shown@));
            },
        }
    }
    assert(snapshot_paths@.take(snapshot_paths@.len() as int) =~= snapshot_paths@);
    Ok(
        PathChanges {
            created: text::sorted_unique(&created),
            overwritten: Vec::new(),
            deleted: Vec::new(),
        },
    )
}

// ---------------------------------------------------------------------------
// A destination that exists
// ---------------------------------------------------------------------------

/// What stands at a path, without following a link.
#[derive(Clone, Copy, Debug, PartialEq, Eq, Structural)]
pub enum Standing {
    Missing,
    Directory,
    Other,
}

/// Something stands at the end of the way: every step before it is a directory.
/// A link or a file on the way is replaced by the restore, so nothing behind it
/// stands there.
pub open spec fn stands(way: Seq<Standing>) -> bool {
    &&& way.len() > 0
    &&& way.last() != Standing::Missing
    &&& forall|i: int| 0 <= i < way.len() - 1 ==> #[trigger] way[i] == Standing::Directory
}

/// Whether something stands at the end of the way from the root of a mapping.
pub fn restore_preview_metadata(way: &Vec<Standing>) -> (standing: bool)
    ensures
        standing == stands(way@),
{
    if way.len() == 0 {
        return false;
    }
    let last: usize = way.len() - 1;
    for i in 0..last
        invariant
            way@.len() == last + 1,
            forall|j: int| 0 <= j < i ==> #[trigger] way@[j] == Standing::Directory,
    {
        if way[i] != Standing::Directory {
            return false;
        }
    }
    way[last] != Standing::Missing
}

/// A path that is restored: the root of its mapping and where it goes.
#[derive(Clone, Debug, PartialEq, Eq)]
pub struct RestoreTarget {
    pub root: String,
    pub destination: String,
}

/// A target over texts.
pub open spec fn target_model(target: RestoreTarget) -> (Seq<char>, Seq<char>) {
    (target.root@, target.destination@)
}

/// The targets over texts.
pub open spec fn target_models(targets: Seq<RestoreTarget>) -> Seq<(Seq<char>, Seq<char>)> {
    Seq::new(targets.len(), |i: int| target_model(targets[i]))
}

/// Where the snapshot paths go; a path that no mapping covers goes nowhere.
pub open spec fn targets_of(
    snapshot_paths: Seq<SnapshotPath>,
    publish: Seq<RestorePublishPath>,
) -> Result<Seq<(Seq<char>, Seq<char>)>, PreviewError>
    decreases snapshot_paths.len(),
{
    if snapshot_paths.len() == 0 {
        Ok(Seq::empty())
    } else {
        match targets_of(snapshot_paths.drop_last(), publish) {
            Err(error) => Err(error),
            Ok(before) => match mapping_of(snapshot_paths.last().path@, publish) {
                Err(error) => Err(error),
                Ok(None) => Ok(before),
                Ok(Some((i, relative))) => Ok(
                    before.push(
                        (
                            publish[i].destination@,
                            if relative.len() == 0 {
                                publish[i].destination@
                            } else {
                                path::joined(publish[i].destination@, relative)
                            },
                        ),
                    ),
                ),
            },
        }
    }
}

proof fn lemma_targets_stop(
    snapshot_paths: Seq<SnapshotPath>,
    n: int,
    publish: Seq<RestorePublishPath>,
)
    requires
        0 <= n <= snapshot_paths.len(),
        targets_of(snapshot_paths.take(n), publish) is Err,
    ensures
        targets_of(snapshot_paths, publish) == targets_of(snapshot_paths.take(n), publish),
    decreases snapshot_paths.len(),
{
    if n == snapshot_paths.len() {
        assert(snapshot_paths.take(n) =~= snapshot_paths);
    } else {
        assert(snapshot_paths.drop_last().take(n) =~= snapshot_paths.take(n));
        lemma_targets_stop(snapshot_paths.drop_last(), n, publish);
    }
}

/// Where the snapshot paths go.
pub fn restore_targets(snapshot_paths: &Vec<SnapshotPath>, publish: &Vec<RestorePublishPath>) -> (targets:
    Result<Vec<RestoreTarget>, PreviewError>)
    ensures
        match targets {
            Ok(list) => targets_of(snapshot_paths@, publish@) == Ok::<
                Seq<(Seq<char>, Seq<char>)>,
                PreviewError,
            >(target_models(list@)),
            Err(error) => targets_of(snapshot_paths@, publish@) == Err::<
                Seq<(Seq<char>, Seq<char>)>,
                PreviewError,
            >(error),
        },
{
    let mut targets: Vec<RestoreTarget> = Vec::new();
    assert(snapshot_paths@.take(0) =~= Seq::<SnapshotPath>::empty());
    assert(target_models(targets@) =~= Seq::<(Seq<char>, Seq<char>)>::empty());
    for i in 0..snapshot_paths.len()
        invariant
            targets_of(snapshot_paths@.take(i as int), publish@) == Ok::<
                Seq<(Seq<char>, Seq<char>)>,
                PreviewError,
            >(target_models(targets@)),
    {
        let ghost before = target_models(targets@);
        proof {
            let more = snapshot_paths@.take(i + 1);
            assert(more.drop_last() =~= snapshot_paths@.take(i as int));
            if targets_of(more, publish@) is Err {
                lemma_targets_stop(snapshot_paths@, i + 1, publish@);
            }
        }
        match map_snapshot_path(snapshot_paths[i].path.as_str(), publish) {
            Err(error) => {
                return Err(error);
            },
            Ok(None) => {},
            Ok(Some((k, relative))) => {
                let root = publish[k].destination.clone();
                let destination = if text::same(relative.as_str(), "") {
                    root.clone()
                } else {
                    path::join(root.as_str(), relative.as_str())
                };
                proof {
                    reveal_strlit("");
                    assert(relative@ == ""@ <==> relative@.len() == 0) by {
                        if relative@.len() == 0 {
                            assert(relative@ =~= ""@);
                        }
                    }
                }
                targets.push(RestoreTarget { root, destination });
                assert(target_models(targets@) =~= before.push((root@, destination@)));
            },
        }
    }
    assert(snapshot_paths@.take(snapshot_paths@.len() as int) =~= snapshot_paths@);
    Ok(targets)
}

/// The roots of a selection: where each selected path goes.
pub open spec fn selected_roots(selected: Seq<String>, publish: Seq<RestorePublishPath>) -> Result<
    Seq<Seq<char>>,
    PreviewError,
>
    decreases selected.len(),
{
    if selected.len() == 0 {
        Ok(Seq::empty())
    } else {
        match selected_roots(selected.drop_last(), publish) {
            Err(error) => Err(error),
            Ok(before) => match mapping_of(
                text::before_slashes(text::past_slashes(selected.last()@)),
                publish,
            ) {
                Err(error) => Err(error),
                Ok(None) => Ok(before),
                Ok(Some((i, relative))) => Ok(
                    before.push(path::joined(publish[i].destination@, relative)),
                ),
            },
        }
    }
}

/// The destinations of the mappings.
pub open spec fn destinations_of(publish: Seq<RestorePublishPath>) -> Seq<Seq<char>> {
    Seq::new(publish.len(), |i: int| publish[i].destination@)
}

/// The paths below which everything is replaced.
pub open spec fn roots_of(selected: Seq<String>, publish: Seq<RestorePublishPath>) -> Result<
    Seq<Seq<char>>,
    PreviewError,
> {
    if selected.len() == 0 {
        Ok(destinations_of(publish))
    } else {
        selected_roots(selected, publish)
    }
}

proof fn lemma_selected_stop(selected: Seq<String>, n: int, publish: Seq<RestorePublishPath>)
    requires
        0 <= n <= selected.len(),
        selected_roots(selected.take(n), publish) is Err,
    ensures
        selected_roots(selected, publish) == selected_roots(selected.take(n), publish),
    decreases selected.len(),
{
    if n == selected.len() {
        assert(selected.take(n) =~= selected);
    } else {
        assert(selected.drop_last().take(n) =~= selected.take(n));
        lemma_selected_stop(selected.drop_last(), n, publish);
    }
}

/// The paths below which everything is replaced: all destinations, or those of
/// the selected paths.
pub fn restore_roots(selected: &Vec<String>, publish: &Vec<RestorePublishPath>) -> (roots: Result<
    Vec<String>,
    PreviewError,
>)
    ensures
        match roots {
            Ok(list) => roots_of(selected@, publish@) == Ok::<Seq<Seq<char>>, PreviewError>(
                texts(list@),
            ),
            Err(error) => roots_of(selected@, publish@) == Err::<Seq<Seq<char>>, PreviewError>(
                error,
            ),
        },
{
    let mut roots: Vec<String> = Vec::new();
    if selected.len() == 0 {
        for i in 0..publish.len()
            invariant
                texts(roots@) == destinations_of(publish@).take(i as int),
        {
            let ghost before = texts(roots@);
            roots.push(publish[i].destination.clone());
            assert(texts(roots@) =~= before.push(publish@[i as int].destination@));
            assert(texts(roots@) =~= destinations_of(publish@).take(i + 1));
        }
        assert(texts(roots@) =~= destinations_of(publish@));
        return Ok(roots);
    }
    assert(selected@.take(0) =~= Seq::<String>::empty());
    assert(texts(roots@) =~= Seq::<Seq<char>>::empty());
    for i in 0..selected.len()
        invariant
            selected@.len() > 0,
            selected_roots(selected@.take(i as int), publish@) == Ok::<
                Seq<Seq<char>>,
                PreviewError,
            >(texts(roots@)),
    {
        let ghost before = texts(roots@);
        proof {
            let more = selected@.take(i + 1);
            assert(more.drop_last() =~= selected@.take(i as int));
            if selected_roots(more, publish@) is Err {
                lemma_selected_stop(selected@, i + 1, publish@);
            }
        }
        let trimmed = text::trim_slashes(selected[i].as_str());
        match map_snapshot_path(trimmed.as_str(), publish) {
            Err(error) => {
                return Err(error);
            },
            Ok(None) => {},
            Ok(Some((k, relative))) => {
                let root = path::join(publish[k].destination.as_str(), relative.as_str());
                roots.push(root);
                assert(texts(roots@) =~= before.push(root@));
            },
        }
    }
    assert(selected@.take(selected@.len() as int) =~= selected@);
    Ok(roots)
}

/// An entry of a directory that is restored into.
#[derive(Debug)]
pub struct SeenEntry {
    pub name: String,
    pub directory: bool,
    /// What the directory holds; a file or a link holds nothing.
    pub children: Vec<SeenEntry>,
}

/// The path is one of the expected ones.
pub open spec fn is_expected(path: Seq<char>, expected: Seq<Seq<char>>) -> bool {
    exists|i: int|
        0 <= i < expected.len() && path::path_of(#[trigger] expected[i]) == path::path_of(path)
}

fn expects(path: &str, expected: &Vec<String>) -> (found: bool)
    ensures
        found == is_expected(path@, texts(expected@)),
{
    for i in 0..expected.len()
        invariant
            forall|j: int|
                0 <= j < i ==> path::path_of(#[trigger] texts(expected@)[j]) != path::path_of(path@),
    {
        if path::same_path(expected[i].as_str(), path) {
            assert(path::path_of(texts(expected@)[i as int]) == path::path_of(path@));
            return true;
        }
        assert(path::path_of(texts(expected@)[i as int]) != path::path_of(path@));
    }
    false
}

/// The path itself, if it is not expected.
pub open spec fn itself_unexpected(path: Seq<char>, expected: Seq<Seq<char>>) -> Seq<Seq<char>> {
    if is_expected(path, expected) {
        Seq::empty()
    } else {
        seq![path]
    }
}

/// The paths at and below an entry that are not expected, where so many
/// directories lie around it.
pub open spec fn unexpected(
    entry: SeenEntry,
    path: Seq<char>,
    expected: Seq<Seq<char>>,
    depth: nat,
) -> Result<Seq<Seq<char>>, PreviewError>
    decreases entry, 0nat,
{
    if !entry.directory {
        Ok(itself_unexpected(path, expected))
    } else if depth >= MAX_RESTORE_PREVIEW_DEPTH {
        Err(PreviewError::TooDeep)
    } else {
        match unexpected_children(entry.children@, path, expected, depth + 1) {
            Err(error) => Err(error),
            Ok(below) => Ok(itself_unexpected(path, expected) + below),
        }
    }
}

/// The paths below the directory that are not expected.
pub open spec fn unexpected_children(
    children: Seq<SeenEntry>,
    directory: Seq<char>,
    expected: Seq<Seq<char>>,
    depth: nat,
) -> Result<Seq<Seq<char>>, PreviewError>
    decreases children, 1nat,
{
    if children.len() == 0 {
        Ok(Seq::empty())
    } else {
        match unexpected_children(children.drop_last(), directory, expected, depth) {
            Err(error) => Err(error),
            Ok(before) => match unexpected(
                children.last(),
                path::joined(directory, children.last().name@),
                expected,
                depth,
            ) {
                Err(error) => Err(error),
                Ok(more) => Ok(before + more),
            },
        }
    }
}

proof fn lemma_unexpected_stops(
    children: Seq<SeenEntry>,
    n: int,
    directory: Seq<char>,
    expected: Seq<Seq<char>>,
    depth: nat,
)
    requires
        0 <= n <= children.len(),
        unexpected_children(children.take(n), directory, expected, depth) is Err,
    ensures
        unexpected_children(children, directory, expected, depth) == unexpected_children(
            children.take(n),
            directory,
            expected,
            depth,
        ),
    decreases children.len(),
{
    if n == children.len() {
        assert(children.take(n) =~= children);
    } else {
        assert(children.drop_last().take(n) =~= children.take(n));
        lemma_unexpected_stops(children.drop_last(), n, directory, expected, depth);
    }
}

fn collect_unexpected(
    entry: &SeenEntry,
    path: &str,
    expected: &Vec<String>,
    depth: usize,
    deleted: &mut Vec<String>,
) -> (outcome: Result<(), PreviewError>)
    requires
        depth <= MAX_RESTORE_PREVIEW_DEPTH,
    ensures
        match (outcome, unexpected(*entry, path@, texts(expected@), depth as nat)) {
            (Ok(_), Ok(list)) => texts(final(deleted)@) == texts(old(deleted)@) + list,
            (Err(a), Err(b)) => a == b,
            _ => false,
        },
    decreases entry,
{
    if entry.directory && depth >= MAX_RESTORE_PREVIEW_DEPTH {
        return Err(PreviewError::TooDeep);
    }
    let ghost start = texts(deleted@);
    let ghost itself = itself_unexpected(path@, texts(expected@));
    if !expects(path, expected) {
        deleted.push(path.to_owned());
    }
    assert(texts(deleted@) =~= start + itself);
    if !entry.directory {
        return Ok(());
    }
    let children = &entry.children;
    assert(children@.take(0) =~= Seq::<SeenEntry>::empty());
    assert(start + itself + Seq::<Seq<char>>::empty() =~= texts(deleted@));
    for i in 0..children.len()
        invariant
            decreases_to!(entry => children),
            entry.directory,
            *children == entry.children,
            depth < MAX_RESTORE_PREVIEW_DEPTH,
            itself == itself_unexpected(path@, texts(expected@)),
            unexpected_children(
                children@.take(i as int),
                path@,
                texts(expected@),
                (depth + 1) as nat,
            ) is Ok,
            texts(deleted@) == start + itself + unexpected_children(
                children@.take(i as int),
                path@,
                texts(expected@),
                (depth + 1) as nat,
            )->Ok_0,
    {
        let ghost before = texts(deleted@);
        proof {
            let more = children@.take(i + 1);
            assert(more.drop_last() =~= children@.take(i as int));
            assert(more.last() == children@[i as int]);
            if unexpected_children(more, path@, texts(expected@), (depth + 1) as nat) is Err {
                lemma_unexpected_stops(
                    children@,
                    i + 1,
                    path@,
                    texts(expected@),
                    (depth + 1) as nat,
                );
            }
        }
        let below = path::join(path, children[i].name.as_str());
        match collect_unexpected(&children[i], below.as_str(), expected, depth + 1, deleted) {
            Err(error) => {
                return Err(error);
            },
            Ok(_) => {},
        }
        proof {
            let rest = unexpected_children(
                children@.take(i as int),
                path@,
                texts(expected@),
                (depth + 1) as nat,
            )->Ok_0;
            let list = unexpected(
                children@[i as int],
                below@,
                texts(expected@),
                (depth + 1) as nat,
            )->Ok_0;
            assert(start + itself + rest + list =~= start + itself + (rest + list));
        }
    }
    proof {
        assert(children@.take(children@.len() as int) =~= children@);
        let below = unexpected_children(
            children@,
            path@,
            texts(expected@),
            (depth + 1) as nat,
        )->Ok_0;
        assert(start + itself + below =~= start + (itself + below));
    }
    Ok(())
}

/// What a restore deletes below one root: everything that stands there and that
/// the snapshot does not hold.
pub open spec fn unexpected_at(
    root: Seq<char>,
    seen: Option<SeenEntry>,
    expected: Seq<Seq<char>>,
) -> Result<Seq<Seq<char>>, PreviewError> {
    match seen {
        None => Ok(Seq::empty()),
        Some(entry) => unexpected(entry, root, expected, 0),
    }
}

/// Adds what a restore deletes below one root.
pub fn collect_unexpected_paths(
    root: &str,
    seen: &Option<SeenEntry>,
    expected: &Vec<String>,
    deleted: &mut Vec<String>,
) -> (outcome: Result<(), PreviewError>)
    ensures
        match (outcome, unexpected_at(root@, *seen, texts(expected@))) {
            (Ok(_), Ok(list)) => texts(final(deleted)@) == texts(old(deleted)@) + list,
            (Err(a), Err(b)) => a == b,
            _ => false,
        },
{
    match seen {
        None => {
            assert(texts(deleted@) + Seq::<Seq<char>>::empty() =~= texts(deleted@));
            Ok(())
        },
        Some(entry) => collect_unexpected(entry, root, expected, 0, deleted),
    }
}

/// The destinations of the targets.
pub open spec fn expected_paths(targets: Seq<RestoreTarget>) -> Seq<Seq<char>> {
    Seq::new(targets.len(), |i: int| targets[i].destination@)
}

/// The destinations at which something stands, or nothing.
pub open spec fn destinations_where(
    targets: Seq<RestoreTarget>,
    ways: Seq<Vec<Standing>>,
    standing: bool,
) -> Seq<Seq<char>>
    decreases targets.len(),
{
    if targets.len() == 0 {
        Seq::empty()
    } else {
        let before = destinations_where(targets.drop_last(), ways, standing);
        if stands(ways[targets.len() - 1]@) == standing {
            before.push(targets.last().destination@)
        } else {
            before
        }
    }
}

/// What a restore deletes below all roots.
pub open spec fn unexpected_below(
    roots: Seq<String>,
    trees: Seq<Option<SeenEntry>>,
    expected: Seq<Seq<char>>,
) -> Result<Seq<Seq<char>>, PreviewError>
    decreases roots.len(),
{
    if roots.len() == 0 {
        Ok(Seq::empty())
    } else {
        match unexpected_below(roots.drop_last(), trees, expected) {
            Err(error) => Err(error),
            Ok(before) => match unexpected_at(roots.last()@, trees[roots.len() - 1], expected) {
                Err(error) => Err(error),
                Ok(more) => Ok(before + more),
            },
        }
    }
}

proof fn lemma_below_stops(
    roots: Seq<String>,
    n: int,
    trees: Seq<Option<SeenEntry>>,
    expected: Seq<Seq<char>>,
)
    requires
        0 <= n <= roots.len(),
        unexpected_below(roots.take(n), trees, expected) is Err,
    ensures
        unexpected_below(roots, trees, expected) == unexpected_below(
            roots.take(n),
            trees,
            expected,
        ),
    decreases roots.len(),
{
    if n == roots.len() {
        assert(roots.take(n) =~= roots);
    } else {
        assert(roots.drop_last().take(n) =~= roots.take(n));
        lemma_below_stops(roots.drop_last(), n, trees, expected);
    }
}

/// What a restore does to a destination that exists. Each target comes with what
/// stands on the way to it from the root of its mapping, and each root with what
/// stands there.
pub fn compare_restore_paths(
    targets: &Vec<RestoreTarget>,
    ways: &Vec<Vec<Standing>>,
    roots: &Vec<String>,
    trees: &Vec<Option<SeenEntry>>,
) -> (changes: Result<PathChanges, PreviewError>)
    requires
        ways@.len() == targets@.len(),
        trees@.len() == roots@.len(),
    ensures
        match (changes, unexpected_below(roots@, trees@, expected_paths(targets@))) {
            (Ok(paths), Ok(deleted)) => {
                &&& texts(paths.created@) == in_order(
                    destinations_where(targets@, ways@, false),
                )
                &&& texts(paths.overwritten@) == in_order(
                    destinations_where(targets@, ways@, true),
                )
                &&& texts(paths.deleted@) == in_order(deleted)
            },
            (Err(a), Err(b)) => a == b,
            _ => false,
        },
{
    let mut expected: Vec<String> = Vec::new();
    let mut created: Vec<String> = Vec::new();
    let mut overwritten: Vec<String> = Vec::new();
    assert(targets@.take(0) =~= Seq::<RestoreTarget>::empty());
    assert(texts(created@) =~= Seq::<Seq<char>>::empty());
    assert(texts(overwritten@) =~= Seq::<Seq<char>>::empty());
    assert(texts(expected@) =~= expected_paths(targets@.take(0)));
    for i in 0..targets.len()
        invariant
            ways@.len() == targets@.len(),
            texts(expected@) == expected_paths(targets@.take(i as int)),
            texts(created@) == destinations_where(targets@.take(i as int), ways@, false),
            texts(overwritten@) == destinations_where(targets@.take(i as int), ways@, true),
    {
        let ghost c = texts(created@);
        let ghost o = texts(overwritten@);
        let ghost e = texts(expected@);
        let destination = targets[i].destination.clone();
        assert(targets@.take(i + 1).drop_last() =~= targets@.take(i as int));
        assert(targets@.take(i + 1).last() == targets@[i as int]);
        expected.push(destination.clone());
        assert(texts(expected@) =~= e.push(destination@));
        assert(texts(expected@) =~= expected_paths(targets@.take(i + 1)));
        if restore_preview_metadata(&ways[i]) {
            overwritten.push(destination);
            assert(texts(overwritten@) =~= o.push(destination@));
        } else {
            created.push(destination);
            assert(texts(created@) =~= c.push(destination@));
        }
    }
    assert(targets@.take(targets@.len() as int) =~= targets@);
    let mut deleted: Vec<String> = Vec::new();
    assert(roots@.take(0) =~= Seq::<String>::empty());
    assert(texts(deleted@) =~= Seq::<Seq<char>>::empty());
    for i in 0..roots.len()
        invariant
            trees@.len() == roots@.len(),
            texts(expected@) == expected_paths(targets@),
            unexpected_below(roots@.take(i as int), trees@, texts(expected@)) == Ok::<
                Seq<Seq<char>>,
                PreviewError,
            >(texts(deleted@)),
    {
        proof {
            let more = roots@.take(i + 1);
            assert(more.drop_last() =~= roots@.take(i as int));
            assert(more.last() == roots@[i as int]);
            if unexpected_below(more, trees@, texts(expected@)) is Err {
                lemma_below_stops(roots@, i + 1, trees@, texts(expected@));
            }
        }
        match collect_unexpected_paths(roots[i].as_str(), &trees[i], &expected, &mut deleted) {
            Err(error) => {
                return Err(error);
            },
            Ok(_) => {},
        }
    }
    assert(roots@.take(roots@.len() as int) =~= roots@);
    Ok(
        PathChanges {
            created: text::sorted_unique(&created),
            overwritten: text::sorted_unique(&overwritten),
            deleted: text::sorted_unique(&deleted),
        },
    )
}

// ---------------------------------------------------------------------------
// A volume that was created for the restore
// ---------------------------------------------------------------------------

/// The paths without those that denote the given one.
pub open spec fn without_path(paths: Seq<Seq<char>>, path: Seq<char>) -> Seq<Seq<char>> {
    paths.filter(|other: Seq<char>| path::path_of(other) != path::path_of(path))
}

/// The paths that denote the given one.
pub open spec fn only_path(paths: Seq<Seq<char>>, path: Seq<char>) -> Seq<Seq<char>> {
    paths.filter(|other: Seq<char>| path::path_of(other) == path::path_of(path))
}

/// The paths as they are named inside the volume.
pub open spec fn inside_volume(
    paths: Seq<Seq<char>>,
    mountpoint: Seq<char>,
    volume_name: Seq<char>,
) -> Option<Seq<Seq<char>>>
    decreases paths.len(),
{
    if paths.len() == 0 {
        Some(Seq::empty())
    } else {
        match (
            inside_volume(paths.drop_last(), mountpoint, volume_name),
            path::stripped(paths.last(), mountpoint),
        ) {
            (Some(before), Some(relative)) => Some(
                before.push(volume_path(volume_name, relative)),
            ),
            _ => None,
        }
    }
}

proof fn lemma_inside_stops(
    paths: Seq<Seq<char>>,
    n: int,
    mountpoint: Seq<char>,
    volume_name: Seq<char>,
)
    requires
        0 <= n <= paths.len(),
        inside_volume(paths.take(n), mountpoint, volume_name) is None,
    ensures
        inside_volume(paths, mountpoint, volume_name) is None,
    decreases paths.len(),
{
    if n == paths.len() {
        assert(paths.take(n) =~= paths);
    } else {
        assert(paths.drop_last().take(n) =~= paths.take(n));
        lemma_inside_stops(paths.drop_last(), n, mountpoint, volume_name);
    }
}

fn name_inside(paths: &Vec<String>, mountpoint: &str, volume_name: &str) -> (named: Option<
    Vec<String>,
>)
    ensures
        match named {
            Some(list) => inside_volume(texts(paths@), mountpoint@, volume_name@) == Some(
                texts(list@),
            ),
            None => inside_volume(texts(paths@), mountpoint@, volume_name@) is None,
        },
{
    let ghost all = texts(paths@);
    let mut named: Vec<String> = Vec::new();
    assert(all.take(0) =~= Seq::<Seq<char>>::empty());
    assert(texts(named@) =~= Seq::<Seq<char>>::empty());
    for i in 0..paths.len()
        invariant
            all == texts(paths@),
            inside_volume(all.take(i as int), mountpoint@, volume_name@) == Some(texts(named@)),
    {
        let ghost before = texts(named@);
        proof {
            assert(all.take(i + 1).drop_last() =~= all.take(i as int));
            assert(all.take(i + 1).last() == paths@[i as int]@);
            if inside_volume(all.take(i + 1), mountpoint@, volume_name@) is None {
                lemma_inside_stops(all, i + 1, mountpoint@, volume_name@);
            }
        }
        match path::strip_prefix(paths[i].as_str(), mountpoint) {
            None => {
                return None;
            },
            Some(relative) => {
                let mut shown = text::concat3("volume://", volume_name, "/");
                shown.append(relative.as_str());
                named.push(shown);
                assert(texts(named@) =~= before.push(shown@));
            },
        }
    }
    assert(all.take(all.len() as int) =~= all);
    Some(named)
}

/// The changes of a restore into a volume that was created for it, named inside
/// the volume; nothing where they cannot be.
pub open spec fn named_inside(
    created: Seq<Seq<char>>,
    overwritten: Seq<Seq<char>>,
    deleted: Seq<Seq<char>>,
    mountpoint: Seq<char>,
    volume_name: Seq<char>,
    is_directory: bool,
) -> Option<(Seq<Seq<char>>, Seq<Seq<char>>, Seq<Seq<char>>)> {
    let root = only_path(overwritten, mountpoint);
    let rest = without_path(overwritten, mountpoint);
    match (
        inside_volume(created + root, mountpoint, volume_name),
        inside_volume(rest, mountpoint, volume_name),
        inside_volume(deleted, mountpoint, volume_name),
    ) {
        (Some(c), Some(o), Some(d)) => if is_directory {
            Some((c, o, d))
        } else {
            None
        },
        _ => None,
    }
}

/// The changes of a restore into a volume that was created for it, named inside
/// the volume. The root of the volume stands there because it was created; it
/// alone counts as created. Anything else that stands there is told.
pub fn normalize_created_volume_preview(
    changes: &PathChanges,
    mountpoint: &str,
    volume_name: &str,
    is_directory: bool,
) -> (normalized: Result<PathChanges, PreviewError>)
    ensures
        ({
            let root = only_path(texts(changes.overwritten@), mountpoint@);
            let rest = without_path(texts(changes.overwritten@), mountpoint@);
            let created = inside_volume(
                texts(changes.created@) + root,
                mountpoint@,
                volume_name@,
            );
            let overwritten = inside_volume(rest, mountpoint@, volume_name@);
            let deleted = inside_volume(texts(changes.deleted@), mountpoint@, volume_name@);
            match normalized {
                Ok(paths) => is_directory && created == Some(texts(paths.created@)) && overwritten
                    == Some(texts(paths.overwritten@)) && deleted == Some(texts(paths.deleted@)),
                Err(PreviewError::NoDirectory) => !is_directory,
                Err(error) => error == PreviewError::Escaped && is_directory && (created is None
                    || overwritten is None || deleted is None),
            }
        }),
{
    if !is_directory {
        return Err(PreviewError::NoDirectory);
    }
    let ghost all = texts(changes.overwritten@);
    let mut created = text::clone_texts(&changes.created);
    let mut overwritten: Vec<String> = Vec::new();
    let ghost start = texts(created@);
    proof {
        reveal(Seq::filter);
        assert(all.take(0) =~= Seq::<Seq<char>>::empty());
        assert(texts(overwritten@) =~= Seq::<Seq<char>>::empty());
        assert(start =~= texts(changes.created@));
        assert(start + only_path(all.take(0), mountpoint@) =~= start);
    }
    for i in 0..changes.overwritten.len()
        invariant
            all == texts(changes.overwritten@),
            texts(created@) == start + only_path(all.take(i as int), mountpoint@),
            texts(overwritten@) == without_path(all.take(i as int), mountpoint@),
    {
        let ghost c = texts(created@);
        let ghost o = texts(overwritten@);
        let one = changes.overwritten[i].clone();
        proof {
            reveal(Seq::filter);
            assert(all.take(i + 1).drop_last() =~= all.take(i as int));
            assert(all.take(i + 1).last() == one@);
        }
        if path::same_path(one.as_str(), mountpoint) {
            created.push(one);
            proof {
                assert(texts(created@) =~= c.push(one@));
                assert(texts(created@) =~= start + only_path(all.take(i + 1), mountpoint@));
            }
        } else {
            overwritten.push(one);
            assert(texts(overwritten@) =~= o.push(one@));
        }
    }
    assert(all.take(all.len() as int) =~= all);
    match (
        name_inside(&created, mountpoint, volume_name),
        name_inside(&overwritten, mountpoint, volume_name),
        name_inside(&changes.deleted, mountpoint, volume_name),
    ) {
        (Some(created), Some(overwritten), Some(deleted)) => Ok(
            PathChanges { created, overwritten, deleted },
        ),
        _ => Err(PreviewError::Escaped),
    }
}

// ---------------------------------------------------------------------------
// Laws
// ---------------------------------------------------------------------------

/// A preview does not depend on the order in which paths were found, nor on how
/// often.
pub proof fn previews_ignore_order(a: Seq<Seq<char>>, b: Seq<Seq<char>>)
    requires
        text::same_members(a, b),
    ensures
        in_order(a) == in_order(b),
{
    text::lemma_order_exists(a);
    assert(text::same_members(in_order(a), b)) by {
        assert forall|text: Seq<char>| in_order(a).contains(text) <==> b.contains(text) by {
            assert(a.contains(text) <==> b.contains(text));
        }
    }
    text::lemma_in_order(b, in_order(a));
}

/// However many paths there are, a preview shows no more than its rows and bytes
/// allow.
pub proof fn shown_paths_are_bounded(
    response: PreflightVykarRestoreResponse,
    created: Seq<Seq<char>>,
    overwritten: Seq<Seq<char>>,
    deleted: Seq<Seq<char>>,
)
    requires
        previews(response, created, overwritten, deleted),
    ensures
        response.created_paths@.len() + response.overwritten_paths@.len()
            + response.deleted_paths@.len() <= MAX_RESTORE_PREVIEW_ROWS,
        bytes_taken(texts(response.created_paths@)) + bytes_taken(
            texts(response.overwritten_paths@),
        ) + bytes_taken(texts(response.deleted_paths@)) <= MAX_RESTORE_PREVIEW_BYTES,
{
    let rows = MAX_RESTORE_PREVIEW_ROWS as nat;
    let room = MAX_RESTORE_PREVIEW_BYTES as nat;
    lemma_shown(created, rows, room);
    let c = shown(created, rows, room);
    let rows2 = (rows - c) as nat;
    let room2 = (room - bytes_taken(created.take(c as int))) as nat;
    lemma_shown(overwritten, rows2, room2);
    let o = shown(overwritten, rows2, room2);
    let rows3 = (rows2 - o) as nat;
    let room3 = (room2 - bytes_taken(overwritten.take(o as int))) as nat;
    lemma_shown(deleted, rows3, room3);
    assert(texts(response.created_paths@).len() == c);
    assert(texts(response.overwritten_paths@).len() == o);
    assert(texts(response.deleted_paths@).len() == shown(deleted, rows3, room3));
}

proof fn lemma_expected_kept(entry: SeenEntry, path: Seq<char>, expected: Seq<Seq<char>>, depth: nat)
    requires
        unexpected(entry, path, expected, depth) is Ok,
    ensures
        forall|i: int|
            0 <= i < unexpected(entry, path, expected, depth)->Ok_0.len() ==> !is_expected(
                #[trigger] unexpected(entry, path, expected, depth)->Ok_0[i],
                expected,
            ),
    decreases entry, 0nat,
{
    if entry.directory {
        lemma_expected_children_kept(entry.children@, path, expected, depth + 1);
    }
}

proof fn lemma_expected_children_kept(
    children: Seq<SeenEntry>,
    directory: Seq<char>,
    expected: Seq<Seq<char>>,
    depth: nat,
)
    requires
        unexpected_children(children, directory, expected, depth) is Ok,
    ensures
        forall|i: int|
            0 <= i < unexpected_children(children, directory, expected, depth)->Ok_0.len()
                ==> !is_expected(
                #[trigger] unexpected_children(children, directory, expected, depth)->Ok_0[i],
                expected,
            ),
    decreases children, 1nat,
{
    if children.len() > 0 {
        lemma_expected_children_kept(children.drop_last(), directory, expected, depth);
        lemma_expected_kept(
            children.last(),
            path::joined(directory, children.last().name@),
            expected,
            depth,
        );
    }
}

/// A restore deletes nothing that it restores: no path that is created or
/// overwritten is told to be deleted.
pub proof fn restored_paths_are_not_deleted(
    roots: Seq<String>,
    trees: Seq<Option<SeenEntry>>,
    expected: Seq<Seq<char>>,
    i: int,
)
    requires
        unexpected_below(roots, trees, expected) is Ok,
        0 <= i < unexpected_below(roots, trees, expected)->Ok_0.len(),
    ensures
        !is_expected(unexpected_below(roots, trees, expected)->Ok_0[i], expected),
    decreases roots.len(),
{
    let before = unexpected_below(roots.drop_last(), trees, expected)->Ok_0;
    if i < before.len() {
        restored_paths_are_not_deleted(roots.drop_last(), trees, expected, i);
    } else {
        match trees[roots.len() - 1] {
            Some(entry) => {
                lemma_expected_kept(entry, roots.last()@, expected, 0);
            },
            None => {},
        }
    }
}

proof fn lemma_paths_bytes_snoc(paths: Seq<Seq<char>>)
    requires
        paths.len() > 0,
    ensures
        paths_bytes(paths) == le_bytes(encode_utf8(paths[0]).len(), 8) + encode_utf8(paths[0])
            + paths_bytes(paths.drop_first()),
    decreases paths.len(),
{
    if paths.len() == 1 {
        assert(paths.drop_last() =~= Seq::<Seq<char>>::empty());
        assert(paths.drop_first() =~= Seq::<Seq<char>>::empty());
        assert(paths_bytes(paths) =~= le_bytes(encode_utf8(paths[0]).len(), 8) + encode_utf8(
            paths[0],
        ) + paths_bytes(paths.drop_first()));
    } else {
        lemma_paths_bytes_snoc(paths.drop_last());
        assert(paths.drop_last().drop_first() =~= paths.drop_first().drop_last());
        assert(paths_bytes(paths) =~= le_bytes(encode_utf8(paths[0]).len(), 8) + encode_utf8(
            paths[0],
        ) + paths_bytes(paths.drop_first()));
    }
}

/// Every path is short enough for its length to be told.
pub open spec fn paths_fit(paths: Seq<Seq<char>>) -> bool {
    &&& paths.len() <= u64::MAX
    &&& forall|i: int| 0 <= i < paths.len() ==> encode_utf8(#[trigger] paths[i]).len() <= u64::MAX
}

proof fn lemma_le8(value: nat)
    requires
        value <= u64::MAX,
    ensures
        value < revision::pow256(8),
        le_bytes(value, 8).len() == 8,
{
    reveal_with_fuel(revision::pow256, 9);
    revision::lemma_le_len(value, 8);
}

proof fn lemma_paths_prefix(a: Seq<Seq<char>>, b: Seq<Seq<char>>, x: Seq<u8>, y: Seq<u8>)
    requires
        a.len() == b.len(),
        paths_fit(a),
        paths_fit(b),
        paths_bytes(a) + x == paths_bytes(b) + y,
    ensures
        a == b,
        x == y,
    decreases a.len(),
{
    if a.len() == 0 {
        assert(a =~= b);
        assert(paths_bytes(a) + x =~= x);
        assert(paths_bytes(b) + y =~= y);
    } else {
        lemma_paths_bytes_snoc(a);
        lemma_paths_bytes_snoc(b);
        let s = encode_utf8(a[0]);
        let t = encode_utf8(b[0]);
        lemma_le8(s.len());
        lemma_le8(t.len());
        let whole = paths_bytes(a) + x;
        let other = paths_bytes(b) + y;
        assert(whole.take(8) =~= le_bytes(s.len(), 8));
        assert(other.take(8) =~= le_bytes(t.len(), 8));
        revision::lemma_le_bytes(s.len(), t.len(), 8);
        assert(whole.subrange(8, 8 + s.len() as int) =~= s);
        assert(other.subrange(8, 8 + t.len() as int) =~= t);
        vstd::utf8::encode_utf8_decode_utf8(a[0]);
        vstd::utf8::encode_utf8_decode_utf8(b[0]);
        let a1 = a.drop_first();
        let b1 = b.drop_first();
        assert(whole.skip(8 + s.len() as int) =~= paths_bytes(a1) + x);
        assert(other.skip(8 + t.len() as int) =~= paths_bytes(b1) + y);
        assert(paths_fit(a1)) by {
            assert forall|i: int| 0 <= i < a1.len() implies encode_utf8(#[trigger] a1[i]).len()
                <= u64::MAX by {
                assert(a1[i] == a[i + 1]);
            }
        }
        assert(paths_fit(b1)) by {
            assert forall|i: int| 0 <= i < b1.len() implies encode_utf8(#[trigger] b1[i]).len()
                <= u64::MAX by {
                assert(b1[i] == b[i + 1]);
            }
        }
        lemma_paths_prefix(a1, b1, x, y);
        assert(a =~= seq![a[0]] + a1);
        assert(b =~= seq![b[0]] + b1);
    }
}

proof fn lemma_category_prefix(
    category: u8,
    a: Seq<Seq<char>>,
    b: Seq<Seq<char>>,
    x: Seq<u8>,
    y: Seq<u8>,
)
    requires
        paths_fit(a),
        paths_fit(b),
        category_bytes(category, a) + x == category_bytes(category, b) + y,
    ensures
        a == b,
        x == y,
{
    lemma_le8(a.len());
    lemma_le8(b.len());
    let whole = category_bytes(category, a) + x;
    let other = category_bytes(category, b) + y;
    assert(whole.subrange(1, 9) =~= le_bytes(a.len(), 8));
    assert(other.subrange(1, 9) =~= le_bytes(b.len(), 8));
    revision::lemma_le_bytes(a.len(), b.len(), 8);
    assert(whole.skip(9) =~= paths_bytes(a) + x);
    assert(other.skip(9) =~= paths_bytes(b) + y);
    lemma_paths_prefix(a, b, x, y);
}

/// What the digest is made from tells any two previews apart: another path, or
/// the same path in another category, makes other bytes.
pub proof fn previews_tell_changes_apart(
    created: Seq<Seq<char>>,
    overwritten: Seq<Seq<char>>,
    deleted: Seq<Seq<char>>,
    other_created: Seq<Seq<char>>,
    other_overwritten: Seq<Seq<char>>,
    other_deleted: Seq<Seq<char>>,
)
    requires
        paths_fit(created),
        paths_fit(overwritten),
        paths_fit(deleted),
        paths_fit(other_created),
        paths_fit(other_overwritten),
        paths_fit(other_deleted),
        preview_bytes(created, overwritten, deleted) == preview_bytes(
            other_created,
            other_overwritten,
            other_deleted,
        ),
    ensures
        created == other_created,
        overwritten == other_overwritten,
        deleted == other_deleted,
{
    let head = encode_utf8("komodo-restore-paths-v1"@);
    let whole = preview_bytes(created, overwritten, deleted);
    let other = preview_bytes(other_created, other_overwritten, other_deleted);
    let none = Seq::<u8>::empty();
    let d = category_bytes(DELETED, deleted) + none;
    let e = category_bytes(DELETED, other_deleted) + none;
    let o = category_bytes(OVERWRITTEN, overwritten) + d;
    let p = category_bytes(OVERWRITTEN, other_overwritten) + e;
    assert(whole.skip(head.len() as int) =~= category_bytes(CREATED, created) + o);
    assert(other.skip(head.len() as int) =~= category_bytes(CREATED, other_created) + p);
    lemma_category_prefix(CREATED, created, other_created, o, p);
    lemma_category_prefix(OVERWRITTEN, overwritten, other_overwritten, d, e);
    lemma_category_prefix(DELETED, deleted, other_deleted, none, none);
}

/// There are not more texts than can be counted, and every text is short enough
/// for its length to be told.
pub open spec fn lengths_fit(paths: Seq<Seq<char>>) -> bool {
    &&& paths.len() <= u64::MAX
    &&& forall|i: int| 0 <= i < paths.len() ==> encode_utf8(#[trigger] paths[i]).len() <= u64::MAX
}

proof fn lemma_ordered_fit(paths: Seq<Seq<char>>)
    requires
        lengths_fit(paths),
    ensures
        paths_fit(in_order(paths)),
{
    let sorted = in_order(paths);
    text::lemma_order_exists(paths);
    assert(sorted.len() <= paths.len()) by {
        assert(sorted.no_duplicates()) by {
            assert forall|i: int, j: int|
                0 <= i < sorted.len() && 0 <= j < sorted.len() && i != j implies sorted[i]
                != sorted[j] by {
                text::lemma_text_order(sorted[i], sorted[j]);
                if i < j {
                    assert(text::text_less(sorted[i], sorted[j]));
                } else {
                    assert(text::text_less(sorted[j], sorted[i]));
                }
            }
        }
        sorted.unique_seq_to_set();
        paths.lemma_cardinality_of_set();
        assert(sorted.to_set() =~= paths.to_set()) by {
            assert forall|text: Seq<char>| sorted.to_set().contains(text)
                <==> paths.to_set().contains(text) by {
                assert(sorted.contains(text) <==> paths.contains(text));
            }
        }
    }
    assert forall|i: int| 0 <= i < sorted.len() implies encode_utf8(#[trigger] sorted[i]).len()
        <= u64::MAX by {
        assert(sorted.contains(sorted[i]));
        assert(paths.contains(sorted[i]));
        let k = choose|k: int| 0 <= k < paths.len() && paths[k] == sorted[i];
        assert(encode_utf8(paths[k]).len() <= u64::MAX);
    }
}

proof fn lemma_same_order(a: Seq<Seq<char>>, b: Seq<Seq<char>>)
    requires
        in_order(a) == in_order(b),
    ensures
        text::same_members(a, b),
{
    text::lemma_order_exists(a);
    text::lemma_order_exists(b);
    assert forall|text: Seq<char>| a.contains(text) <==> b.contains(text) by {
        assert(in_order(a).contains(text) <==> a.contains(text));
        assert(in_order(b).contains(text) <==> b.contains(text));
    }
}

proof fn lemma_hex_digits(a: Seq<u8>, b: Seq<u8>)
    requires
        outside::hex_of(a) == outside::hex_of(b),
    ensures
        a == b,
{
    let x = outside::hex_of(a);
    let y = outside::hex_of(b);
    assert(x.len() == 2 * a.len());
    assert(y.len() == 2 * b.len());
    assert forall|i: int| 0 <= i < a.len() implies a[i] == b[i] by {
        assert(x[2 * i] == outside::hex_digit(a[i] as int / 16));
        assert(y[2 * i] == outside::hex_digit(b[i] as int / 16));
        assert(x[2 * i + 1] == outside::hex_digit(a[i] as int % 16));
        assert(y[2 * i + 1] == outside::hex_digit(b[i] as int % 16));
    }
    assert(a =~= b);
}

/// Previews of the same paths tell the same and show the same, in whatever order
/// and however often the paths were found.
pub proof fn previews_of_the_same_paths_agree(
    preview: PreflightVykarRestoreResponse,
    created: Seq<Seq<char>>,
    overwritten: Seq<Seq<char>>,
    deleted: Seq<Seq<char>>,
    other: PreflightVykarRestoreResponse,
    other_created: Seq<Seq<char>>,
    other_overwritten: Seq<Seq<char>>,
    other_deleted: Seq<Seq<char>>,
)
    requires
        previews(preview, in_order(created), in_order(overwritten), in_order(deleted)),
        previews(
            other,
            in_order(other_created),
            in_order(other_overwritten),
            in_order(other_deleted),
        ),
        text::same_members(created, other_created),
        text::same_members(overwritten, other_overwritten),
        text::same_members(deleted, other_deleted),
    ensures
        summary_model(preview.path_summary) == summary_model(other.path_summary),
        texts(preview.created_paths@) == texts(other.created_paths@),
        texts(preview.overwritten_paths@) == texts(other.overwritten_paths@),
        texts(preview.deleted_paths@) == texts(other.deleted_paths@),
{
    previews_ignore_order(created, other_created);
    previews_ignore_order(overwritten, other_overwritten);
    previews_ignore_order(deleted, other_deleted);
}

/// Previews of other paths have other digests, also where the paths are not shown
/// or only moved to another category. This is said of paths whose bytes SHA-256
/// tells apart.
pub proof fn previews_of_other_paths_differ(
    preview: PreflightVykarRestoreResponse,
    created: Seq<Seq<char>>,
    overwritten: Seq<Seq<char>>,
    deleted: Seq<Seq<char>>,
    other: PreflightVykarRestoreResponse,
    other_created: Seq<Seq<char>>,
    other_overwritten: Seq<Seq<char>>,
    other_deleted: Seq<Seq<char>>,
)
    requires
        previews(preview, in_order(created), in_order(overwritten), in_order(deleted)),
        previews(
            other,
            in_order(other_created),
            in_order(other_overwritten),
            in_order(other_deleted),
        ),
        lengths_fit(created) && lengths_fit(overwritten) && lengths_fit(deleted),
        lengths_fit(other_created) && lengths_fit(other_overwritten) && lengths_fit(other_deleted),
        ({
            let bytes = preview_bytes(
                in_order(created),
                in_order(overwritten),
                in_order(deleted),
            );
            let other_bytes = preview_bytes(
                in_order(other_created),
                in_order(other_overwritten),
                in_order(other_deleted),
            );
            bytes != other_bytes ==> outside::sha256_of(bytes) != outside::sha256_of(other_bytes)
        }),
        !text::same_members(created, other_created) || !text::same_members(
            overwritten,
            other_overwritten,
        ) || !text::same_members(deleted, other_deleted),
    ensures
        preview.path_summary->0.sha256@ != other.path_summary->0.sha256@,
{
    let c = in_order(created);
    let o = in_order(overwritten);
    let d = in_order(deleted);
    let c2 = in_order(other_created);
    let o2 = in_order(other_overwritten);
    let d2 = in_order(other_deleted);
    lemma_ordered_fit(created);
    lemma_ordered_fit(overwritten);
    lemma_ordered_fit(deleted);
    lemma_ordered_fit(other_created);
    lemma_ordered_fit(other_overwritten);
    lemma_ordered_fit(other_deleted);
    let bytes = preview_bytes(c, o, d);
    let other_bytes = preview_bytes(c2, o2, d2);
    if bytes == other_bytes {
        previews_tell_changes_apart(c, o, d, c2, o2, d2);
        lemma_same_order(created, other_created);
        lemma_same_order(overwritten, other_overwritten);
        lemma_same_order(deleted, other_deleted);
    } else if preview.path_summary->0.sha256@ == other.path_summary->0.sha256@ {
        lemma_hex_digits(outside::sha256_of(bytes), outside::sha256_of(other_bytes));
    }
}

/// Previews of the same destination and containers match exactly when they are of
/// the same paths, category by category. This is said of paths whose bytes SHA-256
/// tells apart.
pub proof fn previews_match_exactly_when_their_paths_do(
    preview: PreflightVykarRestoreResponse,
    created: Seq<Seq<char>>,
    overwritten: Seq<Seq<char>>,
    deleted: Seq<Seq<char>>,
    other: PreflightVykarRestoreResponse,
    other_created: Seq<Seq<char>>,
    other_overwritten: Seq<Seq<char>>,
    other_deleted: Seq<Seq<char>>,
)
    requires
        previews(preview, in_order(created), in_order(overwritten), in_order(deleted)),
        previews(
            other,
            in_order(other_created),
            in_order(other_overwritten),
            in_order(other_deleted),
        ),
        preview.destination_exists == other.destination_exists,
        in_order(texts(preview.containers_to_stop@)) == in_order(
            texts(other.containers_to_stop@),
        ),
        lengths_fit(created) && lengths_fit(overwritten) && lengths_fit(deleted),
        lengths_fit(other_created) && lengths_fit(other_overwritten) && lengths_fit(other_deleted),
        ({
            let bytes = preview_bytes(
                in_order(created),
                in_order(overwritten),
                in_order(deleted),
            );
            let other_bytes = preview_bytes(
                in_order(other_created),
                in_order(other_overwritten),
                in_order(other_deleted),
            );
            bytes != other_bytes ==> outside::sha256_of(bytes) != outside::sha256_of(other_bytes)
        }),
    ensures
        preview.tells_the_same(other) <==> text::same_members(created, other_created)
            && text::same_members(overwritten, other_overwritten) && text::same_members(
            deleted,
            other_deleted,
        ),
{
    if text::same_members(created, other_created) && text::same_members(
        overwritten,
        other_overwritten,
    ) && text::same_members(deleted, other_deleted) {
        previews_of_the_same_paths_agree(
            preview,
            created,
            overwritten,
            deleted,
            other,
            other_created,
            other_overwritten,
            other_deleted,
        );
    } else {
        previews_of_other_paths_differ(
            preview,
            created,
            overwritten,
            deleted,
            other,
            other_created,
            other_overwritten,
            other_deleted,
        );
    }
}

/// The way leads to an entry of the tree. Each number on it is the position of an
/// entry among those of the directory before it.
pub open spec fn leads(entry: SeenEntry, way: Seq<int>) -> bool
    decreases way.len(),
{
    way.len() == 0 || (entry.directory && 0 <= way[0] < entry.children@.len() && leads(
        entry.children@[way[0]],
        way.drop_first(),
    ))
}

/// The path that the way leads to.
pub open spec fn path_along(entry: SeenEntry, path: Seq<char>, way: Seq<int>) -> Seq<char>
    decreases way.len(),
{
    if way.len() == 0 {
        path
    } else {
        let next = entry.children@[way[0]];
        path_along(next, path::joined(path, next.name@), way.drop_first())
    }
}

proof fn lemma_unexpected_child(
    children: Seq<SeenEntry>,
    directory: Seq<char>,
    expected: Seq<Seq<char>>,
    depth: nat,
    i: int,
    path: Seq<char>,
)
    requires
        0 <= i < children.len(),
        unexpected_children(children, directory, expected, depth) is Ok,
    ensures
        unexpected(
            children[i],
            path::joined(directory, children[i].name@),
            expected,
            depth,
        ) is Ok,
        unexpected(
            children[i],
            path::joined(directory, children[i].name@),
            expected,
            depth,
        )->Ok_0.contains(path) ==> unexpected_children(
            children,
            directory,
            expected,
            depth,
        )->Ok_0.contains(path),
    decreases children.len(),
{
    let rest = children.drop_last();
    let all = unexpected_children(children, directory, expected, depth)->Ok_0;
    let before = unexpected_children(rest, directory, expected, depth)->Ok_0;
    if i < rest.len() {
        lemma_unexpected_child(rest, directory, expected, depth, i, path);
        if before.contains(path) {
            let k = before.index_of(path);
            assert(all[k] == path);
        }
    } else {
        let last = unexpected(
            children[i],
            path::joined(directory, children[i].name@),
            expected,
            depth,
        )->Ok_0;
        if last.contains(path) {
            let k = last.index_of(path);
            assert(all[before.len() + k] == path);
        }
    }
}

proof fn lemma_unexpected_found(
    entry: SeenEntry,
    path: Seq<char>,
    expected: Seq<Seq<char>>,
    depth: nat,
    way: Seq<int>,
)
    requires
        unexpected(entry, path, expected, depth) is Ok,
        leads(entry, way),
        !is_expected(path_along(entry, path, way), expected),
    ensures
        unexpected(entry, path, expected, depth)->Ok_0.contains(path_along(entry, path, way)),
    decreases way.len(),
{
    let all = unexpected(entry, path, expected, depth)->Ok_0;
    let found = path_along(entry, path, way);
    if way.len() == 0 {
        assert(all[0] == found);
    } else {
        let next = entry.children@[way[0]];
        let inner = path::joined(path, next.name@);
        let below = unexpected_children(entry.children@, path, expected, depth + 1)->Ok_0;
        lemma_unexpected_child(entry.children@, path, expected, depth + 1, way[0], found);
        lemma_unexpected_found(next, inner, expected, depth + 1, way.drop_first());
        let k = below.index_of(found);
        assert(all[itself_unexpected(path, expected).len() + k] == found);
    }
}

/// A restore is told to delete everything that stands below a restored root and is
/// not restored, wherever it lies.
pub proof fn everything_else_is_deleted(
    roots: Seq<String>,
    trees: Seq<Option<SeenEntry>>,
    expected: Seq<Seq<char>>,
    i: int,
    way: Seq<int>,
)
    requires
        unexpected_below(roots, trees, expected) is Ok,
        0 <= i < roots.len(),
        trees[i] is Some,
        leads(trees[i]->Some_0, way),
        !is_expected(path_along(trees[i]->Some_0, roots[i]@, way), expected),
    ensures
        unexpected_below(roots, trees, expected)->Ok_0.contains(
            path_along(trees[i]->Some_0, roots[i]@, way),
        ),
    decreases roots.len(),
{
    let rest = roots.drop_last();
    let all = unexpected_below(roots, trees, expected)->Ok_0;
    let before = unexpected_below(rest, trees, expected)->Ok_0;
    let found = path_along(trees[i]->Some_0, roots[i]@, way);
    if i < rest.len() {
        everything_else_is_deleted(rest, trees, expected, i, way);
        let k = before.index_of(found);
        assert(all[k] == found);
    } else {
        lemma_unexpected_found(trees[i]->Some_0, roots[i]@, expected, 0, way);
        let last = unexpected_at(roots[i]@, trees[i], expected)->Ok_0;
        let k = last.index_of(found);
        assert(all[before.len() + k] == found);
    }
}

/// The paths that a restore writes are told as created where nothing stands, and as
/// overwritten where something does: every one of them, and no others.
pub proof fn restored_paths_are_created_or_overwritten(
    targets: Seq<RestoreTarget>,
    ways: Seq<Vec<Standing>>,
    standing: bool,
    path: Seq<char>,
)
    ensures
        destinations_where(targets, ways, standing).contains(path) <==> exists|i: int|
            0 <= i < targets.len() && (#[trigger] targets[i]).destination@ == path && stands(
                ways[i]@,
            ) == standing,
    decreases targets.len(),
{
    let all = destinations_where(targets, ways, standing);
    if targets.len() > 0 {
        let rest = targets.drop_last();
        let n = rest.len() as int;
        let before = destinations_where(rest, ways, standing);
        restored_paths_are_created_or_overwritten(rest, ways, standing, path);
        if before.contains(path) {
            let k = before.index_of(path);
            assert(all[k] == path);
            let i = choose|i: int|
                0 <= i < rest.len() && (#[trigger] rest[i]).destination@ == path && stands(ways[i]@)
                    == standing;
            assert(targets[i] == rest[i]);
        } else if all.contains(path) {
            let k = all.index_of(path);
            if k < before.len() {
                assert(before[k] == path);
            }
            assert(targets[n].destination@ == path);
        }
        if exists|i: int|
            0 <= i < targets.len() && (#[trigger] targets[i]).destination@ == path && stands(
                ways[i]@,
            ) == standing {
            let i = choose|i: int|
                0 <= i < targets.len() && (#[trigger] targets[i]).destination@ == path && stands(
                    ways[i]@,
                ) == standing;
            if i < n {
                assert(rest[i] == targets[i]);
            } else {
                assert(all[before.len() as int] == path);
            }
        }
    }
}

/// The path of a snapshot goes with this mapping: it lies below it, no other one
/// that it lies below is deeper, and none behind it is as deep.
pub open spec fn goes_with(path: Seq<char>, publish: Seq<RestorePublishPath>, j: int) -> bool {
    &&& 0 <= j < publish.len()
    &&& path::stripped(path, mapped_root(publish[j])) is Some
    &&& forall|k: int|
        0 <= k < publish.len() && path::stripped(path, mapped_root(#[trigger] publish[k])) is Some
            ==> piece_count(mapped_root(publish[k])) <= piece_count(mapped_root(publish[j])) && (k
            > j ==> piece_count(mapped_root(publish[k])) < piece_count(mapped_root(publish[j])))
}

proof fn lemma_best_mapping(path: Seq<char>, publish: Seq<RestorePublishPath>)
    ensures
        match best_mapping(path, publish) {
            Some(i) => goes_with(path, publish, i),
            None => forall|k: int|
                0 <= k < publish.len() ==> path::stripped(path, mapped_root(#[trigger] publish[k]))
                    is None,
        },
    decreases publish.len(),
{
    if publish.len() > 0 {
        let rest = publish.drop_last();
        let n = rest.len() as int;
        lemma_best_mapping(path, rest);
        assert forall|k: int| 0 <= k < n implies #[trigger] publish[k] == rest[k] by {}
        match best_mapping(path, rest) {
            Some(j) => {
                assert(publish[j] == rest[j]);
                assert forall|k: int|
                    0 <= k < n && path::stripped(path, mapped_root(#[trigger] publish[k]))
                        is Some implies piece_count(mapped_root(publish[k])) <= piece_count(
                    mapped_root(publish[j]),
                ) && (k > j ==> piece_count(mapped_root(publish[k])) < piece_count(
                    mapped_root(publish[j]),
                )) by {
                    assert(rest[k] == publish[k]);
                }
            },
            None => {
                assert forall|k: int| 0 <= k < n implies path::stripped(
                    path,
                    mapped_root(#[trigger] publish[k]),
                ) is None by {
                    assert(rest[k] == publish[k]);
                }
            },
        }
    }
}

/// A path of a snapshot goes with the deepest mapping that it lies below, to the
/// same place below its destination; it goes nowhere where it lies below none, and
/// one that is absolute or goes up is refused.
pub proof fn snapshot_paths_follow_their_deepest_mapping(
    path: Seq<char>,
    publish: Seq<RestorePublishPath>,
    j: int,
)
    ensures
        mapping_of(path, publish) is Err <==> path::is_absolute_path(path) || path::goes_up(path),
        mapping_of(path, publish) is Ok && goes_with(path, publish, j) ==> mapping_of(path, publish)
            == Ok::<Option<(int, Seq<char>)>, PreviewError>(
            Some((j, path::stripped(path, mapped_root(publish[j]))->Some_0)),
        ),
        mapping_of(path, publish) is Ok && (forall|k: int|
            0 <= k < publish.len() ==> path::stripped(path, mapped_root(#[trigger] publish[k]))
                is None) ==> mapping_of(path, publish) == Ok::<
            Option<(int, Seq<char>)>,
            PreviewError,
        >(None),
{
    lemma_best_mapping(path, publish);
    match best_mapping(path, publish) {
        Some(i) => {
            if goes_with(path, publish, j) {
                assert(path::stripped(path, mapped_root(publish[i])) is Some);
                assert(path::stripped(path, mapped_root(publish[j])) is Some);
                assert(i == j);
            }
        },
        None => {
            if goes_with(path, publish, j) {
                assert(path::stripped(path, mapped_root(publish[j])) is None);
            }
        },
    }
}

/// Where a path of a snapshot is restored to.
pub open spec fn restored_to(
    path: Seq<char>,
    publish: Seq<RestorePublishPath>,
    j: int,
) -> Seq<char> {
    let relative = path::stripped(path, mapped_root(publish[j]))->Some_0;
    if relative.len() == 0 {
        publish[j].destination@
    } else {
        path::joined(publish[j].destination@, relative)
    }
}

/// Every path of a snapshot that a mapping holds is a target of the restore.
pub proof fn mapped_paths_are_restored(
    snapshot_paths: Seq<SnapshotPath>,
    publish: Seq<RestorePublishPath>,
    i: int,
    j: int,
)
    requires
        targets_of(snapshot_paths, publish) is Ok,
        0 <= i < snapshot_paths.len(),
        goes_with(snapshot_paths[i].path@, publish, j),
    ensures
        targets_of(snapshot_paths, publish)->Ok_0.contains(
            (publish[j].destination@, restored_to(snapshot_paths[i].path@, publish, j)),
        ),
    decreases snapshot_paths.len(),
{
    let rest = snapshot_paths.drop_last();
    let all = targets_of(snapshot_paths, publish)->Ok_0;
    let before = targets_of(rest, publish)->Ok_0;
    let target = (publish[j].destination@, restored_to(snapshot_paths[i].path@, publish, j));
    if i < rest.len() {
        mapped_paths_are_restored(rest, publish, i, j);
        let k = before.index_of(target);
        assert(all[k] == target);
    } else {
        snapshot_paths_follow_their_deepest_mapping(snapshot_paths[i].path@, publish, j);
        assert(all[before.len() as int] == target);
    }
}

/// Nothing is a target of a restore but what a path of the snapshot is mapped to.
pub proof fn only_mapped_paths_are_restored(
    snapshot_paths: Seq<SnapshotPath>,
    publish: Seq<RestorePublishPath>,
    k: int,
)
    requires
        targets_of(snapshot_paths, publish) is Ok,
        0 <= k < targets_of(snapshot_paths, publish)->Ok_0.len(),
    ensures
        exists|i: int, j: int|
            0 <= i < snapshot_paths.len() && #[trigger] goes_with(
                snapshot_paths[i].path@,
                publish,
                j,
            ) && targets_of(snapshot_paths, publish)->Ok_0[k] == (
                publish[j].destination@,
                restored_to(snapshot_paths[i].path@, publish, j),
            ),
    decreases snapshot_paths.len(),
{
    if snapshot_paths.len() > 0 {
        let rest = snapshot_paths.drop_last();
        let n = rest.len() as int;
        let all = targets_of(snapshot_paths, publish)->Ok_0;
        let before = targets_of(rest, publish)->Ok_0;
        if k < before.len() {
            only_mapped_paths_are_restored(rest, publish, k);
            let (i, j) = choose|i: int, j: int|
                0 <= i < rest.len() && #[trigger] goes_with(rest[i].path@, publish, j) && before[k]
                    == (publish[j].destination@, restored_to(rest[i].path@, publish, j));
            assert(snapshot_paths[i] == rest[i]);
            assert(goes_with(snapshot_paths[i].path@, publish, j));
        } else {
            let path = snapshot_paths[n].path@;
            lemma_best_mapping(path, publish);
            let j = best_mapping(path, publish)->Some_0;
            assert(goes_with(snapshot_paths[n].path@, publish, j));
        }
    }
}

/// As many paths are shown as there is room for: all of them, or so many that one
/// more would be too many or too long.
pub proof fn previews_show_as_much_as_there_is_room_for(
    paths: Seq<Seq<char>>,
    rows: nat,
    bytes: nat,
)
    ensures
        ({
            let count = shown(paths, rows, bytes);
            &&& count <= paths.len()
            &&& count <= rows
            &&& bytes_taken(paths.take(count as int)) <= bytes
            &&& count < paths.len() ==> count + 1 > rows || bytes_taken(
                paths.take(count as int + 1),
            ) > bytes
        }),
    decreases paths.len(),
{
    let count = shown(paths, rows, bytes);
    if paths.len() > 0 {
        let rest = paths.drop_last();
        let before = shown(rest, rows, bytes);
        previews_show_as_much_as_there_is_room_for(rest, rows, bytes);
        assert(rest.take(before as int) =~= paths.take(before as int));
        if before < rest.len() {
            assert(rest.take(before as int + 1) =~= paths.take(before as int + 1));
        } else {
            assert(paths.take(before as int + 1) =~= paths);
            assert(rest.take(before as int) =~= rest);
        }
    } else {
        assert(paths.take(0) =~= paths);
    }
}

/// The sizes that previews are cut at add up over the paths.
pub proof fn shown_bytes_add_up(paths: Seq<Seq<char>>)
    ensures
        bytes_taken(paths) == paths.fold_left(
            0nat,
            |sum: nat, path: Seq<char>| sum + encode_utf8(path).len(),
        ),
    decreases paths.len(),
{
    if paths.len() > 0 {
        shown_bytes_add_up(paths.drop_last());
        assert(bytes_taken(paths.drop_last()) == path_lengths(paths.drop_last()));
        assert(bytes_taken(paths) == path_lengths(paths));
    }
}

spec fn path_lengths(paths: Seq<Seq<char>>) -> nat {
    paths.fold_left(0nat, |sum: nat, path: Seq<char>| sum + encode_utf8(path).len())
}

/// Every path of a snapshot that is restored into a volume that does not exist yet
/// is told, as a path inside the volume.
pub proof fn paths_of_a_missing_volume_are_told(
    snapshot_paths: Seq<SnapshotPath>,
    publish: Seq<RestorePublishPath>,
    volume_name: Seq<char>,
    i: int,
    j: int,
)
    requires
        missing_volume_paths(snapshot_paths, publish, volume_name) is Ok,
        0 <= i < snapshot_paths.len(),
        goes_with(snapshot_paths[i].path@, publish, j),
    ensures
        ({
            let inner = path::stripped(
                snapshot_paths[i].path@,
                mapped_root(publish[j]),
            )->Some_0;
            let relative = path::stripped(
                path::joined(publish[j].destination@, inner),
                logical_root(volume_name),
            );
            &&& relative is Some
            &&& missing_volume_paths(snapshot_paths, publish, volume_name)->Ok_0.contains(
                "volume://"@ + volume_name + "/"@ + relative->Some_0,
            )
        }),
    decreases snapshot_paths.len(),
{
    let rest = snapshot_paths.drop_last();
    let all = missing_volume_paths(snapshot_paths, publish, volume_name)->Ok_0;
    let before = missing_volume_paths(rest, publish, volume_name)->Ok_0;
    let inner = path::stripped(snapshot_paths[i].path@, mapped_root(publish[j]))->Some_0;
    let relative = path::stripped(
        path::joined(publish[j].destination@, inner),
        logical_root(volume_name),
    );
    if i < rest.len() {
        paths_of_a_missing_volume_are_told(rest, publish, volume_name, i, j);
        let told = "volume://"@ + volume_name + "/"@ + relative->Some_0;
        let k = before.index_of(told);
        assert(all[k] == told);
    } else {
        snapshot_paths_follow_their_deepest_mapping(snapshot_paths[i].path@, publish, j);
        let told = "volume://"@ + volume_name + "/"@ + relative->Some_0;
        assert(all[before.len() as int] == told);
    }
}

/// The roots of a whole restore are all its destinations.
pub proof fn whole_restores_have_all_destinations(publish: Seq<RestorePublishPath>, i: int)
    requires
        0 <= i < publish.len(),
    ensures
        roots_of(Seq::empty(), publish) is Ok,
        roots_of(Seq::empty(), publish)->Ok_0.len() == publish.len(),
        roots_of(Seq::empty(), publish)->Ok_0[i] == publish[i].destination@,
{
}

/// The roots of a restore of a selection are where the selected paths go, all of
/// them that are mapped.
pub proof fn selected_paths_are_roots(
    selected: Seq<String>,
    publish: Seq<RestorePublishPath>,
    i: int,
    j: int,
)
    requires
        selected_roots(selected, publish) is Ok,
        0 <= i < selected.len(),
        goes_with(text::before_slashes(text::past_slashes(selected[i]@)), publish, j),
    ensures
        selected_roots(selected, publish)->Ok_0.contains(
            path::joined(
                publish[j].destination@,
                path::stripped(
                    text::before_slashes(text::past_slashes(selected[i]@)),
                    mapped_root(publish[j]),
                )->Some_0,
            ),
        ),
    decreases selected.len(),
{
    let rest = selected.drop_last();
    let all = selected_roots(selected, publish)->Ok_0;
    let before = selected_roots(rest, publish)->Ok_0;
    let path = text::before_slashes(text::past_slashes(selected[i]@));
    let root = path::joined(
        publish[j].destination@,
        path::stripped(path, mapped_root(publish[j]))->Some_0,
    );
    if i < rest.len() {
        selected_paths_are_roots(rest, publish, i, j);
        let k = before.index_of(root);
        assert(all[k] == root);
    } else {
        snapshot_paths_follow_their_deepest_mapping(path, publish, j);
        assert(all[before.len() as int] == root);
    }
}

/// The paths of a created volume are told one by one under their names inside the
/// volume, in their order; there is nothing to tell where one of them lies outside.
pub proof fn volume_paths_are_named_one_by_one(
    paths: Seq<Seq<char>>,
    mountpoint: Seq<char>,
    volume_name: Seq<char>,
)
    ensures
        inside_volume(paths, mountpoint, volume_name) is Some <==> forall|i: int|
            0 <= i < paths.len() ==> path::stripped(#[trigger] paths[i], mountpoint) is Some,
        inside_volume(paths, mountpoint, volume_name) matches Some(named) ==> named.len()
            == paths.len() && forall|i: int|
            0 <= i < paths.len() ==> #[trigger] named[i] == "volume://"@ + volume_name + "/"@
                + path::stripped(paths[i], mountpoint)->Some_0,
    decreases paths.len(),
{
    if paths.len() > 0 {
        let rest = paths.drop_last();
        let n = rest.len() as int;
        volume_paths_are_named_one_by_one(rest, mountpoint, volume_name);
        assert forall|i: int| 0 <= i < n implies #[trigger] paths[i] == rest[i] by {}
        if forall|i: int|
            0 <= i < paths.len() ==> path::stripped(#[trigger] paths[i], mountpoint) is Some {
            assert(path::stripped(paths[n], mountpoint) is Some);
            assert forall|i: int| 0 <= i < rest.len() implies path::stripped(
                #[trigger] rest[i],
                mountpoint,
            ) is Some by {
                assert(rest[i] == paths[i]);
            }
        }
        if inside_volume(paths, mountpoint, volume_name) is Some {
            assert forall|i: int| 0 <= i < paths.len() implies path::stripped(
                #[trigger] paths[i],
                mountpoint,
            ) is Some by {
                if i < n {
                    assert(rest[i] == paths[i]);
                }
            }
            let named = inside_volume(paths, mountpoint, volume_name)->Some_0;
            let before = inside_volume(rest, mountpoint, volume_name)->Some_0;
            assert forall|i: int| 0 <= i < paths.len() implies #[trigger] named[i] == "volume://"@
                + volume_name + "/"@ + path::stripped(paths[i], mountpoint)->Some_0 by {
                if i < n {
                    assert(named[i] == before[i]);
                }
            }
        }
    }
}

} // verus!
