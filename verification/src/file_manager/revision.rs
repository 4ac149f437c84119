//! Revisions: short texts that change when an entry does.

use vstd::prelude::*;

use crate::file_manager::limits;
use crate::file_manager::limits::LimitError;
use crate::file_manager::operation::FileManagerEntryKind;
use crate::file_manager::operation::FileManagerRevision;
use crate::file_manager::tree;
use crate::file_manager::tree::Entry;
use crate::file_manager::tree::EntryMetadata;
use crate::order;
use crate::outside;
use crate::outside::StreamDigest;
use crate::path;
use crate::text;

verus! {

/// The value as so many bytes, the lowest first.
pub open spec fn le_bytes(value: nat, count: nat) -> Seq<u8>
    decreases count,
{
    if count == 0 {
        Seq::empty()
    } else {
        seq![(value % 256) as u8] + le_bytes(value / 256, (count - 1) as nat)
    }
}

/// Puts the value behind the bytes, its lowest byte first.
pub fn push_le(bytes: &mut Vec<u8>, value: u64, count: usize)
    requires
        count <= 8,
    ensures
        final(bytes)@ == old(bytes)@ + le_bytes(value as nat, count as nat),
{
    let ghost start = bytes@;
    let mut rest: u64 = value;
    let mut left: usize = count;
    assert(start + le_bytes(value as nat, count as nat) =~= bytes@ + le_bytes(
        rest as nat,
        left as nat,
    ));
    while left > 0
        invariant
            start + le_bytes(value as nat, count as nat) == bytes@ + le_bytes(
                rest as nat,
                left as nat,
            ),
        decreases left,
    {
        let ghost before = bytes@;
        bytes.push((rest % 256) as u8);
        assert(before + le_bytes(rest as nat, left as nat) =~= bytes@ + le_bytes(
            (rest / 256) as nat,
            (left - 1) as nat,
        ));
        rest = rest / 256;
        left = left - 1;
    }
    assert(bytes@ + le_bytes(rest as nat, 0) =~= bytes@);
}

/// The byte that stands for the kind of an entry.
pub open spec fn kind_byte(kind: FileManagerEntryKind) -> u8 {
    match kind {
        FileManagerEntryKind::File => 0,
        FileManagerEntryKind::Directory => 1,
        FileManagerEntryKind::Symlink => 2,
        FileManagerEntryKind::Special => 3,
    }
}

/// What a revision is made from: the identity, size, mode, owner and time of an
/// entry, and its kind.
pub open spec fn metadata_bytes(metadata: EntryMetadata, kind: FileManagerEntryKind) -> Seq<u8> {
    le_bytes(metadata.device as nat, 8) + le_bytes(metadata.inode as nat, 8) + le_bytes(
        metadata.len as nat,
        8,
    ) + le_bytes(metadata.mode as nat, 4) + le_bytes(metadata.uid as nat, 4) + le_bytes(
        metadata.gid as nat,
        4,
    ) + (match metadata.modified {
        Some(time) => seq![1u8] + le_bytes(time.seconds as nat, 8) + le_bytes(
            time.nanoseconds as nat,
            4,
        ),
        None => seq![0u8],
    }) + seq![kind_byte(kind)]
}

/// The revision of bytes: their SHA-256 digest in hexadecimal digits.
pub open spec fn digest_text(bytes: Seq<u8>) -> Seq<char> {
    outside::hex_of(outside::sha256_of(bytes))
}

/// The revision of an entry's metadata.
pub open spec fn revision_id(metadata: EntryMetadata, kind: FileManagerEntryKind) -> Seq<char> {
    digest_text(metadata_bytes(metadata, kind))
}

/// What the revision of an entry's metadata is made from.
pub fn revision_bytes(metadata: &EntryMetadata, kind: FileManagerEntryKind) -> (bytes: Vec<u8>)
    ensures
        bytes@ == metadata_bytes(*metadata, kind),
{
    let mut bytes: Vec<u8> = Vec::new();
    push_le(&mut bytes, metadata.device, 8);
    push_le(&mut bytes, metadata.inode, 8);
    push_le(&mut bytes, metadata.len, 8);
    push_le(&mut bytes, metadata.mode as u64, 4);
    push_le(&mut bytes, metadata.uid as u64, 4);
    push_le(&mut bytes, metadata.gid as u64, 4);
    match metadata.modified {
        Some(time) => {
            bytes.push(1);
            push_le(&mut bytes, time.seconds, 8);
            push_le(&mut bytes, time.nanoseconds as u64, 4);
        },
        None => {
            bytes.push(0);
        },
    }
    bytes.push(
        match kind {
            FileManagerEntryKind::File => 0,
            FileManagerEntryKind::Directory => 1,
            FileManagerEntryKind::Symlink => 2,
            FileManagerEntryKind::Special => 3,
        },
    );
    assert(bytes@ =~= metadata_bytes(*metadata, kind));
    bytes
}

fn digest_revision(bytes: &Vec<u8>) -> (revision: FileManagerRevision)
    ensures
        revision.id@ == digest_text(bytes@),
{
    let digest = outside::sha256(bytes);
    FileManagerRevision { id: outside::hex_encode(&digest) }
}

/// The revision of an entry's metadata.
pub fn revision(metadata: &EntryMetadata, kind: FileManagerEntryKind) -> (revision:
    FileManagerRevision)
    ensures
        revision.id@ == revision_id(*metadata, kind),
{
    let bytes = revision_bytes(metadata, kind);
    digest_revision(&bytes)
}

/// The revision of a file with its contents.
pub fn content_revision(
    metadata: &EntryMetadata,
    kind: FileManagerEntryKind,
    contents: &Vec<u8>,
) -> (result: FileManagerRevision)
    ensures
        result.id@ == digest_text(
            vstd::utf8::encode_utf8(revision_id(*metadata, kind)) + contents@,
        ),
{
    let own = revision(metadata, kind);
    let mut digest = TreeDigest::start();
    digest.add_text(own.id.as_str());
    digest.add_bytes(contents);
    digest.finish()
}

/// A revision that is computed from bytes as they come.
pub struct TreeDigest {
    digest: StreamDigest,
}

impl TreeDigest {
    /// The bytes that have come.
    pub closed spec fn bytes(self) -> Seq<u8> {
        outside::absorbed(self.digest)
    }

    /// No bytes have come.
    pub fn start() -> (digest: TreeDigest)
        ensures
            digest.bytes() == Seq::<u8>::empty(),
    {
        TreeDigest { digest: StreamDigest::start() }
    }

    /// Bytes come.
    pub fn add_bytes(&mut self, bytes: &Vec<u8>)
        ensures
            final(self).bytes() == old(self).bytes() + bytes@,
    {
        self.digest.update(bytes);
    }

    /// The bytes of a text come.
    pub fn add_text(&mut self, text: &str)
        ensures
            final(self).bytes() == old(self).bytes() + vstd::utf8::encode_utf8(text@),
    {
        let bytes = bytes_of_text(text);
        self.digest.update(&bytes);
    }

    /// The revision of all bytes that have come.
    pub fn finish(self) -> (revision: FileManagerRevision)
        ensures
            revision.id@ == digest_text(self.bytes()),
    {
        let digest = self.digest.finish();
        FileManagerRevision { id: outside::hex_encode(&digest) }
    }
}

/// The bytes of a text.
pub fn bytes_of_text(text: &str) -> (bytes: Vec<u8>)
    ensures
        bytes@ == vstd::utf8::encode_utf8(text@),
{
    let slice = text.as_bytes();
    let mut bytes: Vec<u8> = Vec::new();
    for i in 0..slice.len()
        invariant
            slice@ == vstd::utf8::encode_utf8(text@),
            bytes@ == slice@.take(i as int),
    {
        bytes.push(slice[i]);
        assert(slice@.take(i + 1) =~= slice@.take(i as int).push(slice@[i as int]));
    }
    assert(slice@.take(slice@.len() as int) =~= slice@);
    bytes
}

// ---------------------------------------------------------------------------
// Trees
// ---------------------------------------------------------------------------

/// The revision of a tree's metadata at the depth, and the number of entries
/// with it when `count` precede.
pub open spec fn tree_id(entry: Entry, count: u64, depth: nat, maximum: u64) -> Result<
    (Seq<char>, u64),
    LimitError,
>
    decreases entry, 0nat,
{
    let counted = limits::saturating_sum(count, 1);
    if counted > maximum {
        Err(LimitError::TooManyEntries { maximum })
    } else if depth > path::MAX_DEPTH {
        Err(LimitError::TooDeep)
    } else {
        match entry {
            Entry::Leaf { .. } => Ok(
                (revision_id(entry.entry_metadata(), entry.entry_kind()), counted),
            ),
            Entry::Directory { children, .. } => match children_bytes(
                children@,
                counted,
                depth + 1,
                maximum,
            ) {
                Err(error) => Err(error),
                Ok((bytes, total)) => Ok(
                    (
                        digest_text(
                            vstd::utf8::encode_utf8(
                                revision_id(entry.entry_metadata(), entry.entry_kind()),
                            ) + bytes,
                        ),
                        total,
                    ),
                ),
            },
        }
    }
}

/// What the entries of a directory add to its revision: their names and
/// revisions.
pub open spec fn children_bytes(children: Seq<Entry>, count: u64, depth: nat, maximum: u64) -> Result<
    (Seq<u8>, u64),
    LimitError,
>
    decreases children, 1nat,
{
    if children.len() == 0 {
        Ok((Seq::empty(), count))
    } else {
        match children_bytes(children.drop_last(), count, depth, maximum) {
            Err(error) => Err(error),
            Ok((before, counted)) => match tree_id(children.last(), counted, depth, maximum) {
                Err(error) => Err(error),
                Ok((id, total)) => Ok(
                    (
                        before + children.last().entry_name()
                            + vstd::utf8::encode_utf8(id),
                        total,
                    ),
                ),
            },
        }
    }
}

proof fn lemma_children_stop(children: Seq<Entry>, n: int, count: u64, depth: nat, maximum: u64)
    requires
        0 <= n <= children.len(),
        children_bytes(children.take(n), count, depth, maximum) is Err,
    ensures
        children_bytes(children, count, depth, maximum) == children_bytes(
            children.take(n),
            count,
            depth,
            maximum,
        ),
    decreases children.len(),
{
    if n == children.len() {
        assert(children.take(n) =~= children);
    } else {
        assert(children.drop_last().take(n) =~= children.take(n));
        lemma_children_stop(children.drop_last(), n, count, depth, maximum);
    }
}

/// The result is the one of the model.
pub open spec fn is_tree_id(
    result: Result<(FileManagerRevision, u64), LimitError>,
    model: Result<(Seq<char>, u64), LimitError>,
) -> bool {
    match (result, model) {
        (Ok((revision, total)), Ok((id, counted))) => revision.id@ == id && total == counted,
        (Err(a), Err(b)) => a == b,
        _ => false,
    }
}

/// The revision of a tree's metadata at the depth, and the number of entries
/// with it when `count` precede.
#[verifier::loop_isolation(false)]
pub fn metadata_tree_entry(entry: &Entry, count: u64, depth: usize, maximum: u64) -> (result: Result<
    (FileManagerRevision, u64),
    LimitError,
>)
    requires
        depth <= path::MAX_DEPTH + 1,
    ensures
        is_tree_id(result, tree_id(*entry, count, depth as nat, maximum)),
    decreases entry,
{
    let counted: u64 = count.saturating_add(1);
    if counted > maximum {
        return Err(LimitError::TooManyEntries { maximum });
    }
    if depth > path::MAX_DEPTH {
        return Err(LimitError::TooDeep);
    }
    match entry {
        Entry::Leaf { metadata, .. } => Ok((revision(metadata, entry.kind()), counted)),
        Entry::Directory { metadata, children, .. } => {
            let own = revision(metadata, entry.kind());
            let mut digest = TreeDigest::start();
            digest.add_text(own.id.as_str());
            let ghost start = vstd::utf8::encode_utf8(own.id@);
            let ghost mut below: Seq<u8> = Seq::empty();
            let mut total: u64 = counted;
            assert(children@.take(0) =~= Seq::<Entry>::empty());
            assert(digest.bytes() =~= start + below);
            for i in 0..children.len()
                invariant
                    decreases_to!(entry => children),
                    children_bytes(
                        children@.take(i as int),
                        counted,
                        (depth + 1) as nat,
                        maximum,
                    ) == Ok::<(Seq<u8>, u64), LimitError>((below, total)),
                    digest.bytes() == start + below,
            {
                proof {
                    assert(children@.take(i + 1).drop_last() =~= children@.take(i as int));
                    assert(children@.take(i + 1).last() == children@[i as int]);
                }
                digest.add_bytes(children[i].name());
                match metadata_tree_entry(&children[i], total, depth + 1, maximum) {
                    Err(error) => {
                        proof {
                            lemma_children_stop(
                                children@,
                                i + 1,
                                counted,
                                (depth + 1) as nat,
                                maximum,
                            );
                        }
                        return Err(error);
                    },
                    Ok((child, sum)) => {
                        digest.add_text(child.id.as_str());
                        proof {
                            below = below + children@[i as int].entry_name() + vstd::utf8::encode_utf8(child.id@);
                            assert(digest.bytes() =~= start + below);
                        }
                        total = sum;
                    },
                }
            }
            assert(children@.take(children@.len() as int) =~= children@);
            Ok((digest.finish(), total))
        },
    }
}

/// The revision of the metadata of what stands at a path; nothing where nothing
/// stands.
pub fn metadata_tree_revision(entry: &Option<Entry>, maximum: u64) -> (revision: Result<
    Option<FileManagerRevision>,
    LimitError,
>)
    ensures
        match *entry {
            None => revision == Ok::<Option<FileManagerRevision>, LimitError>(None),
            Some(tree) => match (revision, tree_id(tree, 0, 0, maximum)) {
                (Ok(Some(found)), Ok((id, _))) => found.id@ == id,
                (Err(a), Err(b)) => a == b,
                _ => false,
            },
        },
{
    match entry {
        None => Ok(None),
        Some(tree) => match metadata_tree_entry(tree, 0, 0, maximum) {
            Ok((found, _)) => Ok(Some(found)),
            Err(error) => Err(error),
        },
    }
}

/// A part of what the revision of a tree with its contents is made from.
#[derive(Clone, Debug, PartialEq, Eq)]
pub enum HashPart {
    Bytes(Vec<u8>),
    /// The contents of the file at the path.
    Contents { path: Vec<u8> },
}

/// A part, over sequences.
pub enum PartModel {
    Bytes(Seq<u8>),
    Contents { path: Seq<u8> },
}

/// What the parts are.
pub open spec fn parts_of(parts: Seq<HashPart>) -> Seq<PartModel> {
    parts.map_values(
        |part: HashPart|
            match part {
                HashPart::Bytes(bytes) => PartModel::Bytes(bytes@),
                HashPart::Contents { path } => PartModel::Contents { path: path@ },
            },
    )
}

/// The parts of a tree at the path, and the number of entries with it when
/// `count` precede.
pub open spec fn tree_parts(entry: Entry, path: Seq<u8>, count: u64, depth: nat, maximum: u64) -> Result<
    (Seq<PartModel>, u64),
    LimitError,
>
    decreases entry, 0nat,
{
    if count >= maximum {
        Err(LimitError::TooManyEntries { maximum })
    } else if depth > path::MAX_DEPTH {
        Err(LimitError::TooDeep)
    } else {
        let own = seq![
            PartModel::Bytes(entry.entry_name()),
            PartModel::Bytes(
                vstd::utf8::encode_utf8(revision_id(entry.entry_metadata(), entry.entry_kind())),
            ),
        ];
        match entry {
            Entry::Leaf { .. } => if entry.entry_kind() == FileManagerEntryKind::File {
                Ok((own.push(PartModel::Contents { path }), (count + 1) as u64))
            } else {
                Ok((own, (count + 1) as u64))
            },
            Entry::Directory { children, .. } => match children_parts(
                children@,
                path,
                (count + 1) as u64,
                depth + 1,
                maximum,
            ) {
                Err(error) => Err(error),
                Ok((below, total)) => Ok((own + below, total)),
            },
        }
    }
}

/// The parts of the entries of a directory.
pub open spec fn children_parts(
    children: Seq<Entry>,
    path: Seq<u8>,
    count: u64,
    depth: nat,
    maximum: u64,
) -> Result<(Seq<PartModel>, u64), LimitError>
    decreases children, 1nat,
{
    if children.len() == 0 {
        Ok((Seq::empty(), count))
    } else {
        match children_parts(children.drop_last(), path, count, depth, maximum) {
            Err(error) => Err(error),
            Ok((before, counted)) => match tree_parts(
                children.last(),
                order::below(path, children.last().entry_name()),
                counted,
                depth,
                maximum,
            ) {
                Err(error) => Err(error),
                Ok((parts, total)) => Ok((before + parts, total)),
            },
        }
    }
}

proof fn lemma_parts_stop(
    children: Seq<Entry>,
    n: int,
    path: Seq<u8>,
    count: u64,
    depth: nat,
    maximum: u64,
)
    requires
        0 <= n <= children.len(),
        children_parts(children.take(n), path, count, depth, maximum) is Err,
    ensures
        children_parts(children, path, count, depth, maximum) == children_parts(
            children.take(n),
            path,
            count,
            depth,
            maximum,
        ),
    decreases children.len(),
{
    if n == children.len() {
        assert(children.take(n) =~= children);
    } else {
        assert(children.drop_last().take(n) =~= children.take(n));
        lemma_parts_stop(children.drop_last(), n, path, count, depth, maximum);
    }
}

/// Adds the parts that the revision of a tree with its contents is made from,
/// in order, and tells the number of entries with it when `count` precede.
#[verifier::loop_isolation(false)]
pub fn hash_tree_entry(
    entry: &Entry,
    path: &Vec<u8>,
    parts: &mut Vec<HashPart>,
    count: u64,
    depth: usize,
    maximum: u64,
) -> (total: Result<u64, LimitError>)
    requires
        depth <= path::MAX_DEPTH + 1,
    ensures
        match (total, tree_parts(*entry, path@, count, depth as nat, maximum)) {
            (Ok(sum), Ok((added, counted))) => sum == counted && parts_of(final(parts)@)
                == parts_of(old(parts)@) + added,
            (Err(a), Err(b)) => a == b,
            _ => false,
        },
    decreases entry,
{
    let ghost before = parts_of(parts@);
    if count >= maximum {
        return Err(LimitError::TooManyEntries { maximum });
    }
    if depth > path::MAX_DEPTH {
        return Err(LimitError::TooDeep);
    }
    let kind = entry.kind();
    let metadata = entry.metadata();
    let own = revision(&metadata, kind);
    let ghost id = own.id@;
    parts.push(HashPart::Bytes(order::copy_bytes(entry.name())));
    parts.push(HashPart::Bytes(bytes_of_text(own.id.as_str())));
    let ghost named = seq![
        PartModel::Bytes(entry.entry_name()),
        PartModel::Bytes(vstd::utf8::encode_utf8(id)),
    ];
    assert(parts_of(parts@) =~= before + named);
    match entry {
        Entry::Leaf { .. } => {
            match kind {
                FileManagerEntryKind::File => {
                    parts.push(HashPart::Contents { path: order::copy_bytes(path) });
                    assert(parts_of(parts@) =~= before + named.push(
                        PartModel::Contents { path: path@ },
                    ));
                },
                _ => {},
            }
            Ok(count + 1)
        },
        Entry::Directory { children, .. } => {
            let mut total: u64 = count + 1;
            let ghost mut below: Seq<PartModel> = Seq::empty();
            assert(children@.take(0) =~= Seq::<Entry>::empty());
            assert(parts_of(parts@) =~= before + named + below);
            for i in 0..children.len()
                invariant
                    decreases_to!(entry => children),
                    children_parts(
                        children@.take(i as int),
                        path@,
                        (count + 1) as u64,
                        (depth + 1) as nat,
                        maximum,
                    ) == Ok::<(Seq<PartModel>, u64), LimitError>((below, total)),
                    parts_of(parts@) == before + named + below,
            {
                proof {
                    assert(children@.take(i + 1).drop_last() =~= children@.take(i as int));
                    assert(children@.take(i + 1).last() == children@[i as int]);
                }
                let child_path = order::path_below(path, children[i].name());
                match hash_tree_entry(
                    &children[i],
                    &child_path,
                    parts,
                    total,
                    depth + 1,
                    maximum,
                ) {
                    Err(error) => {
                        proof {
                            lemma_parts_stop(
                                children@,
                                i + 1,
                                path@,
                                (count + 1) as u64,
                                (depth + 1) as nat,
                                maximum,
                            );
                        }
                        return Err(error);
                    },
                    Ok(sum) => {
                        proof {
                            let added = tree_parts(
                                children@[i as int],
                                child_path@,
                                total,
                                (depth + 1) as nat,
                                maximum,
                            )->Ok_0.0;
                            assert(parts_of(parts@) =~= before + named + (below + added));
                            below = below + added;
                        }
                        total = sum;
                    },
                }
            }
            proof {
                assert(children@.take(children@.len() as int) =~= children@);
                assert(parts_of(parts@) =~= before + (named + below));
            }
            Ok(total)
        },
    }
}

/// Values that fit are told apart by their bytes.
pub proof fn lemma_le_bytes(a: nat, b: nat, count: nat)
    requires
        le_bytes(a, count) == le_bytes(b, count),
        a < pow256(count),
        b < pow256(count),
    ensures
        a == b,
    decreases count,
{
    if count > 0 {
        let x = le_bytes(a, count);
        let y = le_bytes(b, count);
        assert(x[0] == (a % 256) as u8 && y[0] == (b % 256) as u8);
        assert(x.skip(1) =~= le_bytes(a / 256, (count - 1) as nat));
        assert(y.skip(1) =~= le_bytes(b / 256, (count - 1) as nat));
        lemma_le_bytes(a / 256, b / 256, (count - 1) as nat);
    }
}

/// The number of values of so many bytes.
pub open spec fn pow256(count: nat) -> nat
    decreases count,
{
    if count == 0 {
        1
    } else {
        256 * pow256((count - 1) as nat)
    }
}

/// A value takes as many bytes as it is given.
pub proof fn lemma_le_len(value: nat, count: nat)
    ensures
        le_bytes(value, count).len() == count,
    decreases count,
{
    if count > 0 {
        lemma_le_len(value / 256, (count - 1) as nat);
    }
}

/// Revisions are made from bytes that tell any two entries apart which differ in
/// identity, size, mode, owner, time or kind.
pub proof fn revision_bytes_tell_entries_apart(
    a: EntryMetadata,
    b: EntryMetadata,
    kind_a: FileManagerEntryKind,
    kind_b: FileManagerEntryKind,
)
    requires
        metadata_bytes(a, kind_a) == metadata_bytes(b, kind_b),
    ensures
        a == b,
        kind_a == kind_b,
{
    reveal_with_fuel(pow256, 9);
    let x = metadata_bytes(a, kind_a);
    let y = metadata_bytes(b, kind_b);
    lemma_fixed_parts(a, kind_a);
    lemma_fixed_parts(b, kind_b);
    lemma_le_bytes(a.device as nat, b.device as nat, 8);
    lemma_le_bytes(a.inode as nat, b.inode as nat, 8);
    lemma_le_bytes(a.len as nat, b.len as nat, 8);
    lemma_le_bytes(a.mode as nat, b.mode as nat, 4);
    lemma_le_bytes(a.uid as nat, b.uid as nat, 4);
    lemma_le_bytes(a.gid as nat, b.gid as nat, 4);
    assert(x[36] == y[36]);
    match (a.modified, b.modified) {
        (Some(s), Some(t)) => {
            lemma_le_bytes(s.seconds as nat, t.seconds as nat, 8);
            lemma_le_bytes(s.nanoseconds as nat, t.nanoseconds as nat, 4);
            assert(x[49] == y[49]);
        },
        (None, None) => {
            assert(x[37] == y[37]);
        },
        _ => {},
    }
}

proof fn lemma_fixed_parts(a: EntryMetadata, kind: FileManagerEntryKind)
    ensures
        ({
            let x = metadata_bytes(a, kind);
            &&& x.subrange(0, 8) == le_bytes(a.device as nat, 8)
            &&& x.subrange(8, 16) == le_bytes(a.inode as nat, 8)
            &&& x.subrange(16, 24) == le_bytes(a.len as nat, 8)
            &&& x.subrange(24, 28) == le_bytes(a.mode as nat, 4)
            &&& x.subrange(28, 32) == le_bytes(a.uid as nat, 4)
            &&& x.subrange(32, 36) == le_bytes(a.gid as nat, 4)
            &&& x[36] == if a.modified is Some {
                1u8
            } else {
                0u8
            }
            &&& a.modified matches Some(time) ==> x.len() == 50 && x.subrange(37, 45) == le_bytes(
                time.seconds as nat,
                8,
            ) && x.subrange(45, 49) == le_bytes(time.nanoseconds as nat, 4) && x[49] == kind_byte(
                kind,
            )
            &&& a.modified is None ==> x.len() == 38 && x[37] == kind_byte(kind)
        }),
{
    let x = metadata_bytes(a, kind);
    lemma_le_len(a.device as nat, 8);
    lemma_le_len(a.inode as nat, 8);
    lemma_le_len(a.len as nat, 8);
    lemma_le_len(a.mode as nat, 4);
    lemma_le_len(a.uid as nat, 4);
    lemma_le_len(a.gid as nat, 4);
    assert(x.subrange(0, 8) =~= le_bytes(a.device as nat, 8));
    assert(x.subrange(8, 16) =~= le_bytes(a.inode as nat, 8));
    assert(x.subrange(16, 24) =~= le_bytes(a.len as nat, 8));
    assert(x.subrange(24, 28) =~= le_bytes(a.mode as nat, 4));
    assert(x.subrange(28, 32) =~= le_bytes(a.uid as nat, 4));
    assert(x.subrange(32, 36) =~= le_bytes(a.gid as nat, 4));
    match a.modified {
        Some(time) => {
            lemma_le_len(time.seconds as nat, 8);
            lemma_le_len(time.nanoseconds as nat, 4);
            assert(x.subrange(37, 45) =~= le_bytes(time.seconds as nat, 8));
            assert(x.subrange(45, 49) =~= le_bytes(time.nanoseconds as nat, 4));
        },
        None => {},
    }
}

/// The path that the way leads to, seen from the path of the top.
pub open spec fn bytes_along(entry: Entry, top: Seq<u8>, way: Seq<int>) -> Seq<u8>
    decreases way.len(),
{
    if way.len() == 0 {
        top
    } else {
        let next = entry.entries()[way[0]];
        bytes_along(next, order::below(top, next.entry_name()), way.drop_first())
    }
}

proof fn lemma_parts_counts(entry: Entry, path: Seq<u8>, count: u64, depth: nat, maximum: u64)
    ensures
        tree_parts(entry, path, count, depth, maximum) matches Ok((parts, total)) ==> total == count
            + tree::entry_count(entry) && total <= maximum,
    decreases entry, 0nat,
{
    if let Entry::Directory { children, .. } = entry {
        if count < maximum {
            assert(decreases_to!(entry => children));
            assert(decreases_to!(children => children@));
            lemma_children_parts_counts(
                children@,
                path,
                (count + 1) as u64,
                depth + 1,
                maximum,
            );
        }
    }
}

proof fn lemma_children_parts_counts(
    children: Seq<Entry>,
    path: Seq<u8>,
    count: u64,
    depth: nat,
    maximum: u64,
)
    requires
        count <= maximum,
    ensures
        children_parts(children, path, count, depth, maximum) matches Ok((parts, total)) ==> total
            == count + tree::all_count(children) && total <= maximum,
    decreases children, 1nat,
{
    if children.len() > 0 {
        lemma_children_parts_counts(children.drop_last(), path, count, depth, maximum);
        if let Ok((before, counted)) = children_parts(
            children.drop_last(),
            path,
            count,
            depth,
            maximum,
        ) {
            assert(decreases_to!(children => children[children.len() - 1]));
            lemma_parts_counts(
                children.last(),
                order::below(path, children.last().entry_name()),
                counted,
                depth,
                maximum,
            );
        }
    }
}

proof fn lemma_child_parts(
    children: Seq<Entry>,
    path: Seq<u8>,
    count: u64,
    depth: nat,
    maximum: u64,
    i: int,
) -> (place: (nat, u64))
    requires
        0 <= i < children.len(),
        children_parts(children, path, count, depth, maximum) is Ok,
    ensures
        ({
            let all = children_parts(children, path, count, depth, maximum)->Ok_0.0;
            let part = tree_parts(
                children[i],
                order::below(path, children[i].entry_name()),
                place.1,
                depth,
                maximum,
            );
            &&& part is Ok
            &&& place.0 + part->Ok_0.0.len() <= all.len()
            &&& all.subrange(place.0 as int, (place.0 + part->Ok_0.0.len()) as int) == part->Ok_0.0
        }),
    decreases children.len(),
{
    let rest = children.drop_last();
    let before = children_parts(rest, path, count, depth, maximum)->Ok_0;
    let all = children_parts(children, path, count, depth, maximum)->Ok_0.0;
    if i < rest.len() {
        let place = lemma_child_parts(rest, path, count, depth, maximum, i);
        let part = tree_parts(
            children[i],
            order::below(path, children[i].entry_name()),
            place.1,
            depth,
            maximum,
        )->Ok_0.0;
        let end = (place.0 + part.len()) as int;
        assert(all.subrange(place.0 as int, end) =~= before.0.subrange(place.0 as int, end));
        place
    } else {
        let part = tree_parts(
            children[i],
            order::below(path, children[i].entry_name()),
            before.1,
            depth,
            maximum,
        )->Ok_0.0;
        let at = before.0.len();
        assert(all.subrange(at as int, (at + part.len()) as int) =~= part);
        (at, before.1)
    }
}

/// The revision of a whole tree goes by every entry of it, however deep: by its name,
/// its own revision and, of a file, its contents, in a row. It counts every entry and
/// goes no deeper than is allowed.
pub proof fn tree_revisions_go_by_every_entry(
    entry: Entry,
    path: Seq<u8>,
    count: u64,
    depth: nat,
    maximum: u64,
    way: Seq<int>,
) -> (k: int)
    requires
        tree_parts(entry, path, count, depth, maximum) is Ok,
        tree::leads(entry, way),
    ensures
        ({
            let (parts, total) = tree_parts(entry, path, count, depth, maximum)->Ok_0;
            let found = tree::entry_along(entry, way);
            let id = revision_id(found.entry_metadata(), found.entry_kind());
            &&& total == count + tree::entry_count(entry)
            &&& depth + way.len() <= path::MAX_DEPTH
            &&& 0 <= k < parts.len() - 1
            &&& parts[k] == PartModel::Bytes(found.entry_name())
            &&& parts[k + 1] == PartModel::Bytes(vstd::utf8::encode_utf8(id))
            &&& found.entry_kind() == FileManagerEntryKind::File ==> k + 2 < parts.len()
                && parts[k + 2] == (PartModel::Contents { path: bytes_along(entry, path, way) })
        }),
    decreases way.len(),
{
    lemma_parts_counts(entry, path, count, depth, maximum);
    let parts = tree_parts(entry, path, count, depth, maximum)->Ok_0.0;
    if way.len() == 0 {
        assert(parts[0] == PartModel::Bytes(entry.entry_name()));
        0
    } else {
        let children = entry.entries();
        let next = children[way[0]];
        let below = children_parts(children, path, (count + 1) as u64, depth + 1, maximum)->Ok_0.0;
        let place = lemma_child_parts(
            children,
            path,
            (count + 1) as u64,
            depth + 1,
            maximum,
            way[0],
        );
        let inner = order::below(path, next.entry_name());
        let part = tree_parts(next, inner, place.1, depth + 1, maximum)->Ok_0.0;
        let k = tree_revisions_go_by_every_entry(
            next,
            inner,
            place.1,
            depth + 1,
            maximum,
            way.drop_first(),
        );
        let at = place.0 as int;
        assert forall|j: int| 0 <= j < part.len() implies parts[2 + at + j] == #[trigger] part[j] by {
            assert(below.subrange(at, at + part.len())[j] == below[at + j]);
        }
        assert(parts[2 + at + k] == part[k]);
        assert(parts[2 + at + (k + 1)] == part[k + 1]);
        if k + 2 < part.len() {
            assert(parts[2 + at + (k + 2)] == part[k + 2]);
        }
        2 + at + k
    }
}

/// The revision of a directory's tree goes by the name and the revision of every
/// entry in it: they stand in a row among the bytes that it is the digest of.
pub proof fn directory_revisions_go_by_their_entries(
    children: Seq<Entry>,
    count: u64,
    depth: nat,
    maximum: u64,
    i: int,
) -> (place: (nat, u64))
    requires
        0 <= i < children.len(),
        children_bytes(children, count, depth, maximum) is Ok,
    ensures
        ({
            let all = children_bytes(children, count, depth, maximum)->Ok_0.0;
            let own = tree_id(children[i], place.1, depth, maximum);
            let part = children[i].entry_name() + vstd::utf8::encode_utf8(own->Ok_0.0);
            &&& own is Ok
            &&& place.0 + part.len() <= all.len()
            &&& all.subrange(place.0 as int, (place.0 + part.len()) as int) == part
        }),
    decreases children.len(),
{
    let rest = children.drop_last();
    let before = children_bytes(rest, count, depth, maximum)->Ok_0;
    let all = children_bytes(children, count, depth, maximum)->Ok_0.0;
    if i < rest.len() {
        let place = directory_revisions_go_by_their_entries(rest, count, depth, maximum, i);
        let own = tree_id(children[i], place.1, depth, maximum)->Ok_0.0;
        let part = children[i].entry_name() + vstd::utf8::encode_utf8(own);
        let end = (place.0 + part.len()) as int;
        assert(all.subrange(place.0 as int, end) =~= before.0.subrange(place.0 as int, end));
        place
    } else {
        let own = tree_id(children[i], before.1, depth, maximum)->Ok_0.0;
        let part = children[i].entry_name() + vstd::utf8::encode_utf8(own);
        let at = before.0.len();
        assert(all.subrange(at as int, (at + part.len()) as int) =~= part);
        (at, before.1)
    }
}

/// The revision of an entry's tree is that of the entry itself, or, of a directory,
/// the digest of that and of what lies in it; every entry counts.
pub proof fn tree_revisions_begin_with_the_own(
    entry: Entry,
    count: u64,
    depth: nat,
    maximum: u64,
)
    requires
        tree_id(entry, count, depth, maximum) is Ok,
        maximum < u64::MAX,
        count <= maximum,
    ensures
        ({
            let (id, total) = tree_id(entry, count, depth, maximum)->Ok_0;
            let own = revision_id(entry.entry_metadata(), entry.entry_kind());
            &&& total == count + tree::entry_count(entry)
            &&& total <= maximum
            &&& depth <= path::MAX_DEPTH
            &&& entry is Leaf ==> id == own
            &&& entry is Directory ==> {
                let below = children_bytes(
                    entry.entries(),
                    (count + 1) as u64,
                    depth + 1,
                    maximum,
                );
                below is Ok && id == digest_text(vstd::utf8::encode_utf8(own) + below->Ok_0.0)
            }
        }),
{
    lemma_tree_id_counts(entry, count, depth, maximum);
}

proof fn lemma_tree_id_counts(entry: Entry, count: u64, depth: nat, maximum: u64)
    requires
        maximum < u64::MAX,
        count <= maximum,
    ensures
        tree_id(entry, count, depth, maximum) matches Ok((id, total)) ==> total == count
            + tree::entry_count(entry) && total <= maximum,
    decreases entry, 0nat,
{
    if let Entry::Directory { children, .. } = entry {
        if count < maximum {
            assert(decreases_to!(entry => children));
            assert(decreases_to!(children => children@));
            lemma_children_bytes_counts(children@, (count + 1) as u64, depth + 1, maximum);
        }
    }
}

proof fn lemma_children_bytes_counts(
    children: Seq<Entry>,
    count: u64,
    depth: nat,
    maximum: u64,
)
    requires
        maximum < u64::MAX,
        count <= maximum,
    ensures
        children_bytes(children, count, depth, maximum) matches Ok((bytes, total)) ==> total
            == count + tree::all_count(children) && total <= maximum,
    decreases children, 1nat,
{
    if children.len() > 0 {
        lemma_children_bytes_counts(children.drop_last(), count, depth, maximum);
        if let Ok((before, counted)) = children_bytes(
            children.drop_last(),
            count,
            depth,
            maximum,
        ) {
            assert(decreases_to!(children => children[children.len() - 1]));
            lemma_tree_id_counts(children.last(), counted, depth, maximum);
        }
    }
}

} // verus!
