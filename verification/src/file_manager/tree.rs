//! Entries of a directory tree, as they were found.

use vstd::prelude::*;

use crate::file_manager::limits;
use crate::file_manager::limits::LimitError;
use crate::file_manager::limits::WorkTotal;
use crate::file_manager::operation::FileManagerEntryKind;
use crate::order;
use crate::outside;
use crate::path;

verus! {

/// What is known of an entry besides its name and kind.
#[derive(Clone, Copy, Debug, PartialEq, Eq, Structural)]
pub struct EntryMetadata {
    pub device: u64,
    pub inode: u64,
    pub len: u64,
    pub mode: u32,
    pub uid: u32,
    pub gid: u32,
    /// When the entry was last changed, if that lies behind the epoch.
    pub modified: Option<SinceEpoch>,
}

/// A time behind the epoch.
#[derive(Clone, Copy, Debug, PartialEq, Eq, Structural)]
pub struct SinceEpoch {
    pub seconds: u64,
    pub nanoseconds: u32,
}

/// The kind of an entry that holds no entries.
#[derive(Clone, Copy, Debug, PartialEq, Eq, Structural)]
pub enum LeafKind {
    File,
    Symlink,
    Special,
}

/// An entry of a directory tree. Names are bytes, as the filesystem holds them.
#[derive(Debug)]
pub enum Entry {
    Leaf { name: Vec<u8>, kind: LeafKind, metadata: EntryMetadata },
    /// A directory and its entries, in ascending order of their names.
    Directory { name: Vec<u8>, metadata: EntryMetadata, children: Vec<Entry> },
}

impl Entry {
    /// The name of the entry.
    pub open spec fn entry_name(self) -> Seq<u8> {
        match self {
            Entry::Leaf { name, .. } => name@,
            Entry::Directory { name, .. } => name@,
        }
    }

    /// The name is a text.
    pub open spec fn is_text(self) -> bool {
        vstd::utf8::valid_utf8(self.entry_name())
    }

    /// The name as a text, if it is one.
    pub open spec fn entry_text(self) -> Seq<char> {
        vstd::utf8::decode_utf8(self.entry_name())
    }

    /// The kind of the entry.
    pub open spec fn entry_kind(self) -> FileManagerEntryKind {
        match self {
            Entry::Leaf { kind, .. } => match kind {
                LeafKind::File => FileManagerEntryKind::File,
                LeafKind::Symlink => FileManagerEntryKind::Symlink,
                LeafKind::Special => FileManagerEntryKind::Special,
            },
            Entry::Directory { .. } => FileManagerEntryKind::Directory,
        }
    }

    /// The metadata of the entry.
    pub open spec fn entry_metadata(self) -> EntryMetadata {
        match self {
            Entry::Leaf { metadata, .. } => metadata,
            Entry::Directory { metadata, .. } => metadata,
        }
    }

    /// The entries of a directory.
    pub open spec fn entries(self) -> Seq<Entry> {
        match self {
            Entry::Leaf { .. } => Seq::empty(),
            Entry::Directory { children, .. } => children@,
        }
    }

    /// The name of the entry.
    pub fn name(&self) -> (name: &Vec<u8>)
        ensures
            name@ == self.entry_name(),
    {
        match self {
            Entry::Leaf { name, .. } => name,
            Entry::Directory { name, .. } => name,
        }
    }

    /// The name as a text, if it is one.
    pub fn text(&self) -> (text: Option<String>)
        ensures
            match text {
                Some(held) => self.is_text() && held@ == self.entry_text(),
                None => !self.is_text(),
            },
    {
        let text = outside::text_from_utf8(order::copy_bytes(self.name()));
        proof {
            if let Some(held) = &text {
                vstd::utf8::encode_utf8_decode_utf8(held@);
            }
        }
        text
    }

    /// The name as a text.
    pub fn held_text(&self) -> (text: String)
        requires
            self.is_text(),
        ensures
            text@ == self.entry_text(),
    {
        match self.text() {
            Some(text) => text,
            None => String::new(),
        }
    }

    /// The kind of the entry.
    pub fn kind(&self) -> (kind: FileManagerEntryKind)
        ensures
            kind == self.entry_kind(),
    {
        match self {
            Entry::Leaf { kind, .. } => match kind {
                LeafKind::File => FileManagerEntryKind::File,
                LeafKind::Symlink => FileManagerEntryKind::Symlink,
                LeafKind::Special => FileManagerEntryKind::Special,
            },
            Entry::Directory { .. } => FileManagerEntryKind::Directory,
        }
    }

    /// The metadata of the entry.
    pub fn metadata(&self) -> (metadata: EntryMetadata)
        ensures
            metadata == self.entry_metadata(),
    {
        match self {
            Entry::Leaf { metadata, .. } => *metadata,
            Entry::Directory { metadata, .. } => *metadata,
        }
    }
}

/// The entries are in ascending order of their names.
pub open spec fn in_name_order(children: Seq<Entry>) -> bool {
    forall|i: int, j: int|
        0 <= i < j < children.len() ==> order::bytes_less(
            (#[trigger] children[i]).entry_name(),
            (#[trigger] children[j]).entry_name(),
        )
}

/// Puts an entry among others, in ascending order of their names. Of two
/// entries with one name the later one stays.
pub fn insert_child(children: &mut Vec<Entry>, child: Entry)
    requires
        in_name_order(old(children)@),
    ensures
        in_name_order(final(children)@),
        exists|at: int|
            0 <= at <= old(children)@.len() && (final(children)@ == old(children)@.insert(at, child)
                || (at < old(children)@.len() && final(children)@ == old(children)@.update(at, child)
                && old(children)@[at].entry_name() == child.entry_name())),
{
    let ghost before = children@;
    let mut i: usize = 0;
    while i < children.len() && order::bytes_precede(children[i].name(), child.name())
        invariant
            i <= children@.len(),
            children@ == before,
            forall|j: int|
                0 <= j < i ==> order::bytes_less(
                    (#[trigger] before[j]).entry_name(),
                    child.entry_name(),
                ),
        decreases children.len() - i,
    {
        i = i + 1;
    }
    let ghost named = child.entry_name();
    if i < children.len() && order::same_bytes(children[i].name(), child.name()) {
        children.set(i, child);
        assert(children@ == before.update(i as int, child));
        return;
    }
    children.insert(i, child);
    proof {
        let after = children@;
        assert(after =~= before.insert(i as int, child));
        if i < before.len() {
            order::lemma_bytes_order(before[i as int].entry_name(), named);
        }
        assert forall|j: int, k: int| 0 <= j < k < after.len() implies order::bytes_less(
            (#[trigger] after[j]).entry_name(),
            (#[trigger] after[k]).entry_name(),
        ) by {
            if k == i {
                assert(after[j] == before[j]);
            } else if j == i {
                if k - 1 > i {
                    order::lemma_bytes_less_transitive(
                        named,
                        before[i as int].entry_name(),
                        before[k - 1].entry_name(),
                    );
                }
            }
        }
    }
}

/// The entry with the given name.
pub open spec fn child_named(children: Seq<Entry>, name: Seq<u8>) -> Option<Entry>
    decreases children.len(),
{
    if children.len() == 0 {
        None
    } else if children[0].entry_name() == name {
        Some(children[0])
    } else {
        child_named(children.drop_first(), name)
    }
}

/// The entry with the given name.
pub fn find_child<'a>(children: &'a Vec<Entry>, name: &Vec<u8>) -> (found: Option<&'a Entry>)
    ensures
        match found {
            Some(child) => child_named(children@, name@) == Some(*child),
            None => child_named(children@, name@) is None,
        },
{
    assert(children@.skip(0) =~= children@);
    for i in 0..children.len()
        invariant
            child_named(children@, name@) == child_named(children@.skip(i as int), name@),
    {
        assert(children@.skip(i as int).drop_first() =~= children@.skip(i + 1));
        if order::same_bytes(children[i].name(), name) {
            return Some(&children[i]);
        }
    }
    None
}

// ---------------------------------------------------------------------------
// Names that are texts
// ---------------------------------------------------------------------------

/// Every name below the entry is a text.
pub open spec fn holds_texts(entry: Entry) -> bool
    decreases entry, 0nat,
{
    match entry {
        Entry::Leaf { .. } => true,
        Entry::Directory { children, .. } => are_texts(children@),
    }
}

/// The names of the entries, and every name below them, are texts.
pub open spec fn are_texts(children: Seq<Entry>) -> bool
    decreases children, 1nat,
{
    children.len() == 0 || (are_texts(children.drop_last()) && children.last().is_text()
        && holds_texts(children.last()))
}

/// So are those of each of the entries.
pub proof fn lemma_are_texts(children: Seq<Entry>, n: int)
    requires
        0 <= n <= children.len(),
        are_texts(children),
    ensures
        are_texts(children.take(n)),
        n < children.len() ==> children[n].is_text() && holds_texts(children[n]),
    decreases children.len(),
{
    if n == children.len() {
        assert(children.take(n) =~= children);
    } else if n < children.len() - 1 {
        lemma_are_texts(children.drop_last(), n);
        assert(children.drop_last().take(n) =~= children.take(n));
    } else {
        assert(children.take(n) =~= children.drop_last());
    }
}

/// Whether every name below the entry is a text.
pub fn has_texts(entry: &Entry) -> (texts: bool)
    ensures
        texts == holds_texts(*entry),
    decreases entry,
{
    match entry {
        Entry::Leaf { .. } => true,
        Entry::Directory { children, .. } => {
            assert(children@.take(0) =~= Seq::<Entry>::empty());
            for i in 0..children.len()
                invariant
                    decreases_to!(entry => children),
                    entry matches Entry::Directory { children: all, .. } && all == children,
                    are_texts(children@.take(i as int)),
            {
                assert(children@.take(i + 1).drop_last() =~= children@.take(i as int));
                assert(children@.take(i + 1).last() == children@[i as int]);
                if children[i].text().is_none() || !has_texts(&children[i]) {
                    proof {
                        if are_texts(children@) {
                            lemma_are_texts(children@, i as int);
                        }
                    }
                    return false;
                }
            }
            assert(children@.take(children@.len() as int) =~= children@);
            true
        },
    }
}

// ---------------------------------------------------------------------------
// Work
// ---------------------------------------------------------------------------

/// The work of the entry itself: one entry, and the bytes of a file.
pub open spec fn own_work(entry: Entry) -> WorkTotal {
    WorkTotal {
        entries: 1,
        bytes: if entry.entry_kind() == FileManagerEntryKind::File {
            entry.entry_metadata().len
        } else {
            0
        },
    }
}

/// The work of a tree, or the limit that it exceeds.
pub open spec fn tree_work(entry: Entry, depth: nat, maximum: u64) -> Result<WorkTotal, LimitError>
    decreases entry, 0nat,
{
    if depth > path::MAX_DEPTH {
        Err(LimitError::TooDeep)
    } else {
        match entry {
            Entry::Leaf { .. } => Ok(own_work(entry)),
            Entry::Directory { children, .. } => children_work(
                children@,
                depth + 1,
                maximum,
                own_work(entry),
            ),
        }
    }
}

/// The work of entries one after the other, on top of the work before them.
pub open spec fn children_work(
    children: Seq<Entry>,
    depth: nat,
    maximum: u64,
    before: WorkTotal,
) -> Result<WorkTotal, LimitError>
    decreases children, 1nat,
{
    if children.len() == 0 {
        Ok(before)
    } else {
        match children_work(children.drop_last(), depth, maximum, before) {
            Err(error) => Err(error),
            Ok(total) => match tree_work(children.last(), depth, maximum) {
                Err(error) => Err(error),
                Ok(work) => match limits::within_entries(
                    limits::work_sum(total, work).entries,
                    maximum,
                ) {
                    Err(error) => Err(error),
                    Ok(()) => Ok(limits::work_sum(total, work)),
                },
            },
        }
    }
}

/// The work of a tree, or the limit that it exceeds.
pub fn work_for_entry(entry: &Entry, depth: usize, maximum: u64) -> (work: Result<
    WorkTotal,
    LimitError,
>)
    requires
        depth <= path::MAX_DEPTH + 1,
    ensures
        work == tree_work(*entry, depth as nat, maximum),
    decreases entry,
{
    if depth > path::MAX_DEPTH {
        return Err(LimitError::TooDeep);
    }
    let bytes: u64 = match entry.kind() {
        FileManagerEntryKind::File => entry.metadata().len,
        _ => 0,
    };
    let mut total = WorkTotal { entries: 1, bytes };
    match entry {
        Entry::Leaf { .. } => Ok(total),
        Entry::Directory { children, .. } => {
            let ghost own = total;
            for i in 0..children.len()
                invariant
                    depth <= path::MAX_DEPTH,
                    own == own_work(*entry),
                    entry matches Entry::Directory { children: held, .. } && held == children,
                    tree_work(*entry, depth as nat, maximum) == children_work(
                        children@,
                        (depth + 1) as nat,
                        maximum,
                        own,
                    ),
                    children_work(children@.take(i as int), (depth + 1) as nat, maximum, own) == Ok::<
                        WorkTotal,
                        LimitError,
                    >(total),
            {
                proof {
                    assert(children@.take(i + 1).drop_last() =~= children@.take(i as int));
                    assert(children@.take(i + 1).last() == children@[i as int]);
                }
                match work_for_entry(&children[i], depth + 1, maximum) {
                    Err(error) => {
                        proof {
                            lemma_children_error(
                                children@,
                                (depth + 1) as nat,
                                maximum,
                                own,
                                i + 1,
                            );
                        }
                        return Err(error);
                    },
                    Ok(work) => {
                        total.add(work);
                    },
                }
                match limits::ensure_entry_limit_with_max(total.entries, maximum) {
                    Err(error) => {
                        proof {
                            lemma_children_error(
                                children@,
                                (depth + 1) as nat,
                                maximum,
                                own,
                                i + 1,
                            );
                        }
                        return Err(error);
                    },
                    Ok(()) => {},
                }
            }
            assert(children@.take(children@.len() as int) =~= children@);
            Ok(total)
        },
    }
}

proof fn lemma_children_error(
    children: Seq<Entry>,
    depth: nat,
    maximum: u64,
    before: WorkTotal,
    count: int,
)
    requires
        0 <= count <= children.len(),
        children_work(children.take(count), depth, maximum, before) is Err,
    ensures
        children_work(children, depth, maximum, before) == children_work(
            children.take(count),
            depth,
            maximum,
            before,
        ),
    decreases children.len() - count,
{
    if count < children.len() {
        assert(children.take(count + 1).drop_last() =~= children.take(count));
        lemma_children_error(children, depth, maximum, before, count + 1);
    } else {
        assert(children.take(count) =~= children);
    }
}

/// The work of those of the paths that are there.
pub open spec fn paths_work(entries: Seq<Option<Entry>>, maximum: u64) -> Result<
    WorkTotal,
    LimitError,
>
    decreases entries.len(),
{
    if entries.len() == 0 {
        Ok(WorkTotal { entries: 0, bytes: 0 })
    } else {
        match paths_work(entries.drop_last(), maximum) {
            Err(error) => Err(error),
            Ok(total) => match entries.last() {
                None => Ok(total),
                Some(entry) => match tree_work(entry, 0, maximum) {
                    Err(error) => Err(error),
                    Ok(work) => Ok(limits::work_sum(total, work)),
                },
            },
        }
    }
}

/// The work of those of the paths that are there.
pub fn work_for_paths(entries: &Vec<Option<Entry>>, maximum: u64) -> (work: Result<
    WorkTotal,
    LimitError,
>)
    ensures
        work == paths_work(entries@, maximum),
{
    let mut total = WorkTotal::zero();
    for i in 0..entries.len()
        invariant
            paths_work(entries@.take(i as int), maximum) == Ok::<WorkTotal, LimitError>(total),
    {
        proof {
            assert(entries@.take(i + 1).drop_last() =~= entries@.take(i as int));
            assert(entries@.take(i + 1).last() == entries@[i as int]);
        }
        match &entries[i] {
            None => {},
            Some(entry) => match work_for_entry(entry, 0, maximum) {
                Err(error) => {
                    proof {
                        lemma_paths_error(entries@, maximum, i + 1);
                    }
                    return Err(error);
                },
                Ok(work) => {
                    total.add(work);
                },
            },
        }
    }
    assert(entries@.take(entries@.len() as int) =~= entries@);
    Ok(total)
}

proof fn lemma_paths_error(entries: Seq<Option<Entry>>, maximum: u64, count: int)
    requires
        0 <= count <= entries.len(),
        paths_work(entries.take(count), maximum) is Err,
    ensures
        paths_work(entries, maximum) == paths_work(entries.take(count), maximum),
    decreases entries.len() - count,
{
    if count < entries.len() {
        assert(entries.take(count + 1).drop_last() =~= entries.take(count));
        lemma_paths_error(entries, maximum, count + 1);
    } else {
        assert(entries.take(count) =~= entries);
    }
}

/// Accepted work stays within the entry limit, and every tree holds at least
/// its own entry.
pub proof fn accepted_work_is_within_limits(entry: Entry, depth: nat, maximum: u64)
    requires
        maximum >= 1,
        tree_work(entry, depth, maximum) is Ok,
    ensures
        1 <= tree_work(entry, depth, maximum)->Ok_0.entries <= maximum,
        depth <= path::MAX_DEPTH,
{
    match entry {
        Entry::Leaf { .. } => {},
        Entry::Directory { children, .. } => {
            lemma_children_bound(children@, depth + 1, maximum, own_work(entry));
        },
    }
}

proof fn lemma_children_bound(children: Seq<Entry>, depth: nat, maximum: u64, before: WorkTotal)
    requires
        1 <= before.entries <= maximum,
        children_work(children, depth, maximum, before) is Ok,
    ensures
        1 <= children_work(children, depth, maximum, before)->Ok_0.entries <= maximum,
    decreases children.len(),
{
    if children.len() > 0 {
        lemma_children_bound(children.drop_last(), depth, maximum, before);
    }
}

// ---------------------------------------------------------------------------
// Ways through a tree
// ---------------------------------------------------------------------------

/// The way leads to an entry of the tree. Each number on it is the position of an
/// entry among those of the directory before it; the empty way stays at the top.
pub open spec fn leads(entry: Entry, way: Seq<int>) -> bool
    decreases way.len(),
{
    way.len() == 0 || (0 <= way[0] < entry.entries().len() && leads(
        entry.entries()[way[0]],
        way.drop_first(),
    ))
}

/// The entry that the way leads to.
pub open spec fn entry_along(entry: Entry, way: Seq<int>) -> Entry
    decreases way.len(),
{
    if way.len() == 0 {
        entry
    } else {
        entry_along(entry.entries()[way[0]], way.drop_first())
    }
}

/// The path that the way leads to, seen from the path of the top: each name
/// behind a slash.
pub open spec fn path_along(entry: Entry, top: Seq<char>, way: Seq<int>) -> Seq<char>
    decreases way.len(),
{
    if way.len() == 0 {
        top
    } else {
        let next = entry.entries()[way[0]];
        path_along(next, top + "/"@ + next.entry_text(), way.drop_first())
    }
}

/// How many entries the tree has, its top among them.
pub open spec fn entry_count(entry: Entry) -> nat
    decreases entry, 0nat,
{
    1 + match entry {
        Entry::Leaf { .. } => 0nat,
        Entry::Directory { children, .. } => all_count(children@),
    }
}

/// How many entries the trees have.
pub open spec fn all_count(children: Seq<Entry>) -> nat
    decreases children, 1nat,
{
    if children.len() == 0 {
        0
    } else {
        all_count(children.drop_last()) + entry_count(children.last())
    }
}

/// How many bytes the files of the tree hold.
pub open spec fn file_bytes(entry: Entry) -> nat
    decreases entry, 0nat,
{
    match entry {
        Entry::Leaf { kind, metadata, .. } => if kind == LeafKind::File {
            metadata.len as nat
        } else {
            0
        },
        Entry::Directory { children, .. } => all_file_bytes(children@),
    }
}

/// How many bytes the files of the trees hold.
pub open spec fn all_file_bytes(children: Seq<Entry>) -> nat
    decreases children, 1nat,
{
    if children.len() == 0 {
        0
    } else {
        all_file_bytes(children.drop_last()) + file_bytes(children.last())
    }
}

/// A number, as far as it can be held.
pub open spec fn as_far_as_held(number: nat) -> u64 {
    if number > u64::MAX {
        u64::MAX
    } else {
        number as u64
    }
}

/// A single step leads to an entry of the directory, and on from there.
pub proof fn lemma_step(entry: Entry, i: int, rest: Seq<int>)
    requires
        0 <= i < entry.entries().len(),
        leads(entry.entries()[i], rest),
    ensures
        leads(entry, seq![i] + rest),
        entry_along(entry, seq![i] + rest) == entry_along(entry.entries()[i], rest),
{
    let way = seq![i] + rest;
    assert(way.drop_first() =~= rest);
}

proof fn lemma_work_counts(entry: Entry, depth: nat, maximum: u64)
    requires
        tree_work(entry, depth, maximum) is Ok,
    ensures
        tree_work(entry, depth, maximum)->Ok_0.entries == as_far_as_held(entry_count(entry)),
        tree_work(entry, depth, maximum)->Ok_0.bytes == as_far_as_held(file_bytes(entry)),
    decreases entry, 0nat,
{
    match entry {
        Entry::Leaf { .. } => {},
        Entry::Directory { children, .. } => {
            lemma_children_count(children@, depth + 1, maximum, own_work(entry), 1, 0);
        },
    }
}

proof fn lemma_children_count(
    children: Seq<Entry>,
    depth: nat,
    maximum: u64,
    before: WorkTotal,
    entries: nat,
    bytes: nat,
)
    requires
        children_work(children, depth, maximum, before) is Ok,
        before.entries == as_far_as_held(entries),
        before.bytes == as_far_as_held(bytes),
    ensures
        children_work(children, depth, maximum, before)->Ok_0.entries == as_far_as_held(
            entries + all_count(children),
        ),
        children_work(children, depth, maximum, before)->Ok_0.bytes == as_far_as_held(
            bytes + all_file_bytes(children),
        ),
    decreases children, 1nat,
{
    if children.len() > 0 {
        lemma_children_count(children.drop_last(), depth, maximum, before, entries, bytes);
        lemma_work_counts(children.last(), depth, maximum);
    }
}

proof fn lemma_children_depths(
    children: Seq<Entry>,
    depth: nat,
    maximum: u64,
    before: WorkTotal,
    i: int,
)
    requires
        0 <= i < children.len(),
        children_work(children, depth, maximum, before) is Ok,
    ensures
        tree_work(children[i], depth, maximum) is Ok,
    decreases children.len(),
{
    if i < children.len() - 1 {
        lemma_children_depths(children.drop_last(), depth, maximum, before, i);
    }
}

/// The work of a tree counts every entry below it, and the bytes of every file
/// below it, as far as they can be held.
pub proof fn work_counts_all_there_is(entry: Entry, depth: nat, maximum: u64)
    requires
        tree_work(entry, depth, maximum) is Ok,
    ensures
        tree_work(entry, depth, maximum)->Ok_0.entries == as_far_as_held(entry_count(entry)),
        tree_work(entry, depth, maximum)->Ok_0.bytes == as_far_as_held(file_bytes(entry)),
{
    lemma_work_counts(entry, depth, maximum);
}

/// A tree is accepted only if nothing in it lies too deep.
pub proof fn accepted_trees_are_not_too_deep(
    entry: Entry,
    depth: nat,
    maximum: u64,
    way: Seq<int>,
)
    requires
        tree_work(entry, depth, maximum) is Ok,
        leads(entry, way),
    ensures
        depth + way.len() <= path::MAX_DEPTH,
    decreases way.len(),
{
    if way.len() > 0 {
        lemma_children_depths(entry.entries(), depth + 1, maximum, own_work(entry), way[0]);
        accepted_trees_are_not_too_deep(
            entry.entries()[way[0]],
            depth + 1,
            maximum,
            way.drop_first(),
        );
    }
}

/// No way in the tree is too long.
pub open spec fn is_shallow(entry: Entry, depth: nat) -> bool {
    forall|way: Seq<int>| #[trigger] leads(entry, way) ==> depth + way.len() <= path::MAX_DEPTH
}

proof fn lemma_shallow_child(entry: Entry, depth: nat, i: int)
    requires
        is_shallow(entry, depth),
        0 <= i < entry.entries().len(),
    ensures
        is_shallow(entry.entries()[i], depth + 1),
{
    assert forall|way: Seq<int>| #[trigger] leads(entry.entries()[i], way) implies depth + 1
        + way.len() <= path::MAX_DEPTH by {
        lemma_step(entry, i, way);
        assert(leads(entry, seq![i] + way));
    }
}

proof fn lemma_children_accepted(
    entry: Entry,
    count: int,
    depth: nat,
    maximum: u64,
)
    requires
        entry is Directory,
        0 <= count <= entry.entries().len(),
        is_shallow(entry, depth),
        1 + all_count(entry.entries().take(count)) <= maximum,
    ensures
        children_work(entry.entries().take(count), depth + 1, maximum, own_work(entry)) is Ok,
    decreases entry, 0nat, count,
{
    let children = entry.entries();
    let part = children.take(count);
    if count > 0 {
        assert(part.drop_last() =~= children.take(count - 1));
        assert(part.last() == children[count - 1]);
        lemma_children_accepted(entry, count - 1, depth, maximum);
        lemma_shallow_child(entry, depth, count - 1);
        assert(decreases_to!(entry => children[count - 1])) by {
            match entry {
                Entry::Leaf { .. } => {},
                Entry::Directory { children: held, .. } => {
                    assert(decreases_to!(entry => held));
                    assert(decreases_to!(held => held@));
                    assert(decreases_to!(held@ => held@[count - 1]));
                },
            }
        }
        small_trees_are_accepted(children[count - 1], depth + 1, maximum);
        lemma_children_count(
            children.take(count - 1),
            depth + 1,
            maximum,
            own_work(entry),
            1,
            0,
        );
        lemma_work_counts(children[count - 1], depth + 1, maximum);
    }
}

/// A tree that is neither too large nor too deep is accepted.
pub proof fn small_trees_are_accepted(entry: Entry, depth: nat, maximum: u64)
    requires
        is_shallow(entry, depth),
        entry_count(entry) <= maximum,
    ensures
        tree_work(entry, depth, maximum) is Ok,
    decreases entry, 1nat, 0int,
{
    let here: Seq<int> = Seq::empty();
    assert(leads(entry, here));
    match entry {
        Entry::Leaf { .. } => {},
        Entry::Directory { children, .. } => {
            assert(children@.take(children@.len() as int) =~= children@);
            lemma_children_accepted(entry, children@.len() as int, depth, maximum);
        },
    }
}

/// How many entries the trees that are there have.
pub open spec fn present_count(entries: Seq<Option<Entry>>) -> nat {
    entries.fold_left(
        0nat,
        |sum: nat, one: Option<Entry>|
            sum + match one {
                Some(entry) => entry_count(entry),
                None => 0nat,
            },
    )
}

/// How many bytes the files of the trees that are there hold.
pub open spec fn present_bytes(entries: Seq<Option<Entry>>) -> nat {
    entries.fold_left(
        0nat,
        |sum: nat, one: Option<Entry>|
            sum + match one {
                Some(entry) => file_bytes(entry),
                None => 0nat,
            },
    )
}

/// The work of several paths is that of all the trees that are there.
pub proof fn work_of_paths_adds_up(entries: Seq<Option<Entry>>, maximum: u64)
    requires
        paths_work(entries, maximum) is Ok,
    ensures
        paths_work(entries, maximum)->Ok_0.entries == as_far_as_held(present_count(entries)),
        paths_work(entries, maximum)->Ok_0.bytes == as_far_as_held(present_bytes(entries)),
        forall|i: int|
            0 <= i < entries.len() ==> (#[trigger] entries[i] matches Some(entry) ==> tree_work(
                entry,
                0,
                maximum,
            ) is Ok),
    decreases entries.len(),
{
    if entries.len() > 0 {
        let rest = entries.drop_last();
        work_of_paths_adds_up(rest, maximum);
        match entries.last() {
            Some(entry) => {
                lemma_work_counts(entry, 0, maximum);
            },
            None => {},
        }
        assert forall|i: int| 0 <= i < entries.len() implies (#[trigger] entries[i] matches Some(
            entry,
        ) ==> tree_work(entry, 0, maximum) is Ok) by {
            if i < rest.len() {
                assert(rest[i] == entries[i]);
            }
        }
    }
}

/// A directory is asked for an entry by name: the first one with the name is found,
/// and none where there is none.
pub proof fn entries_are_found_by_name(children: Seq<Entry>, name: Seq<u8>)
    ensures
        match child_named(children, name) {
            Some(found) => exists|i: int|
                {
                    &&& 0 <= i < children.len()
                    &&& #[trigger] children[i] == found
                    &&& found.entry_name() == name
                    &&& forall|j: int| 0 <= j < i ==> (#[trigger] children[j]).entry_name() != name
                },
            None => forall|j: int|
                0 <= j < children.len() ==> (#[trigger] children[j]).entry_name() != name,
        },
    decreases children.len(),
{
    if children.len() > 0 && children[0].entry_name() != name {
        let rest = children.drop_first();
        entries_are_found_by_name(rest, name);
        match child_named(rest, name) {
            Some(found) => {
                let i = choose|i: int|
                    {
                        &&& 0 <= i < rest.len()
                        &&& #[trigger] rest[i] == found
                        &&& found.entry_name() == name
                        &&& forall|j: int| 0 <= j < i ==> (#[trigger] rest[j]).entry_name() != name
                    };
                assert(children[i + 1] == found);
                assert forall|j: int| 0 <= j < i + 1 implies (#[trigger] children[j]).entry_name()
                    != name by {
                    if j > 0 {
                        assert(children[j] == rest[j - 1]);
                    }
                }
            },
            None => {
                assert forall|j: int| 0 <= j < children.len() implies (
                #[trigger] children[j]).entry_name() != name by {
                    if j > 0 {
                        assert(children[j] == rest[j - 1]);
                    }
                }
            },
        }
    }
}

} // verus!
