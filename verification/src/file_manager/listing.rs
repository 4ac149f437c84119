//! Listing directories and reading texts.

use vstd::prelude::*;

use crate::file_manager::limits;
use crate::file_manager::limits::LimitError;
use crate::file_manager::operation::FileManagerEntryKind;
use crate::file_manager::operation::FileManagerRevision;
use crate::file_manager::revision;
use crate::file_manager::tree::EntryMetadata;
use crate::outside;
use crate::path;
use crate::text;

verus! {

/// An entry that was found in a directory.
#[derive(Clone, Debug, PartialEq, Eq)]
pub struct FoundEntry {
    pub name: String,
    pub kind: FileManagerEntryKind,
    pub metadata: EntryMetadata,
    pub modified_at: i64,
}

/// An entry of a directory, as it is shown.
#[derive(Clone, Debug, PartialEq, Eq)]
pub struct FileManagerEntry {
    pub path: String,
    pub name: String,
    pub kind: FileManagerEntryKind,
    pub size: u64,
    pub modified_at: i64,
    pub revision: FileManagerRevision,
    /// The entry is the managed file.
    pub managed: bool,
}

/// The entry belongs to the file manager itself and is not shown.
pub open spec fn is_hidden(name: Seq<char>) -> bool {
    ".komodo-file-manager-staging-"@.is_prefix_of(name) || ".komodo-upload-"@.is_prefix_of(name)
        || name == path::PRIVATE_STATE_DIRECTORY@
}

/// Whether the entry belongs to the file manager itself and is not shown.
pub fn hides(name: &str) -> (hidden: bool)
    ensures
        hidden == is_hidden(name@),
{
    text::begins_with(name, ".komodo-file-manager-staging-") || text::begins_with(
        name,
        ".komodo-upload-",
    ) || text::same(name, path::PRIVATE_STATE_DIRECTORY)
}

/// The path of an entry of the directory.
pub open spec fn entry_path(directory: Seq<char>, name: Seq<char>) -> Seq<char> {
    if directory.len() == 0 {
        name
    } else {
        directory + "/"@ + name
    }
}

/// The entry is shown as the found one.
pub open spec fn shows(
    entry: FileManagerEntry,
    found: FoundEntry,
    directory: Seq<char>,
    managed_file: Option<Seq<char>>,
) -> bool {
    &&& entry.name@ == found.name@
    &&& entry.path@ == entry_path(directory, found.name@)
    &&& entry.kind == found.kind
    &&& entry.size == found.metadata.len
    &&& entry.modified_at == found.modified_at
    &&& entry.revision.id@ == revision::revision_id(found.metadata, found.kind)
    &&& entry.managed == (managed_file == Some(entry_path(directory, found.name@)))
}

/// The entry is shown before the other one: directories come first, then the
/// names decide, whatever their case.
pub open spec fn shown_before(a: FoundEntry, b: FoundEntry) -> bool {
    let file_a = a.kind != FileManagerEntryKind::Directory;
    let file_b = b.kind != FileManagerEntryKind::Directory;
    if file_a != file_b {
        file_b
    } else {
        text::text_less(outside::lowercase_of(a.name@), outside::lowercase_of(b.name@))
    }
}

/// Where an entry goes among those that are listed: behind all that it does not
/// come before.
pub open spec fn place_among(listed: Seq<FoundEntry>, entry: FoundEntry) -> int
    decreases listed.len(),
{
    if listed.len() == 0 || !shown_before(entry, listed.last()) {
        listed.len() as int
    } else {
        place_among(listed.drop_last(), entry)
    }
}

/// The entries that are shown, in order.
pub open spec fn listed(found: Seq<FoundEntry>) -> Seq<FoundEntry>
    decreases found.len(),
{
    if found.len() == 0 {
        Seq::empty()
    } else {
        let before = listed(found.drop_last());
        if is_hidden(found.last().name@) {
            before
        } else {
            before.insert(place_among(before, found.last()), found.last())
        }
    }
}

proof fn lemma_place(list: Seq<FoundEntry>, entry: FoundEntry)
    ensures
        0 <= place_among(list, entry) <= list.len(),
    decreases list.len(),
{
    if list.len() > 0 && shown_before(entry, list.last()) {
        lemma_place(list.drop_last(), entry);
    }
}

proof fn lemma_listed_len(found: Seq<FoundEntry>, n: int)
    requires
        0 <= n <= found.len(),
    ensures
        listed(found.take(n)).len() <= listed(found).len(),
    decreases found.len() - n,
{
    if n < found.len() {
        let more = found.take(n + 1);
        assert(more.drop_last() =~= found.take(n));
        lemma_place(listed(found.take(n)), more.last());
        lemma_listed_len(found, n + 1);
    } else {
        assert(found.take(n) =~= found);
    }
}

fn comes_before(entry: &FoundEntry, lower: &str, other: &FoundEntry) -> (before: bool)
    requires
        lower@ == outside::lowercase_of(entry.name@),
    ensures
        before == shown_before(*entry, *other),
{
    let file_a = match entry.kind {
        FileManagerEntryKind::Directory => false,
        _ => true,
    };
    let file_b = match other.kind {
        FileManagerEntryKind::Directory => false,
        _ => true,
    };
    if file_a != file_b {
        return file_b;
    }
    let other_lower = outside::lowercase(other.name.as_str());
    text::precedes(lower, other_lower.as_str())
}

fn show(found: &FoundEntry, directory: &str, managed_file: &Option<String>) -> (entry:
    FileManagerEntry)
    ensures
        shows(
            entry,
            *found,
            directory@,
            text::held(*managed_file),
        ),
{
    let entry_path = if text::same(directory, "") {
        proof {
            reveal_strlit("");
        }
        found.name.clone()
    } else {
        proof {
            reveal_strlit("");
            if directory@.len() == 0 {
                assert(directory@ =~= ""@);
            }
        }
        text::concat3(directory, "/", found.name.as_str())
    };
    let managed = text::is_some_text(managed_file, entry_path.as_str());
    FileManagerEntry {
        path: entry_path,
        name: found.name.clone(),
        kind: found.kind,
        size: found.metadata.len,
        modified_at: found.modified_at,
        revision: revision::revision(&found.metadata, found.kind),
        managed,
    }
}

/// The entries of a directory as they are shown: directories first, then by
/// name, whatever its case. There may be no more than `maximum`.
pub fn list_directory(
    directory: &str,
    found: &Vec<FoundEntry>,
    managed_file: &Option<String>,
    maximum: u64,
) -> (entries: Result<Vec<FileManagerEntry>, LimitError>)
    ensures
        match entries {
            Ok(shown) => {
                let order = listed(found@);
                &&& order.len() <= maximum
                &&& shown@.len() == order.len()
                &&& forall|i: int|
                    0 <= i < shown@.len() ==> shows(
                        #[trigger] shown@[i],
                        order[i],
                        directory@,
                        text::held(*managed_file),
                    )
            },
            Err(error) => error == (LimitError::TooManyEntries { maximum }) && listed(found@).len()
                > maximum,
        },
{
    let ghost managed = text::held(*managed_file);
    let mut order: Vec<usize> = Vec::new();
    let mut shown: Vec<FileManagerEntry> = Vec::new();
    for i in 0..found.len()
        invariant
            shown@.len() == order@.len(),
            order@.len() <= maximum,
            managed == text::held(*managed_file),
            order@.len() == listed(found@.take(i as int)).len(),
            forall|k: int|
                0 <= k < order@.len() ==> (#[trigger] order@[k]) < found@.len()
                    && found@[order@[k] as int] == listed(found@.take(i as int))[k],
            forall|k: int|
                0 <= k < shown@.len() ==> shows(
                    #[trigger] shown@[k],
                    listed(found@.take(i as int))[k],
                    directory@,
                    managed,
                ),
    {
        let ghost before = listed(found@.take(i as int));
        proof {
            assert(found@.take(i + 1).drop_last() =~= found@.take(i as int));
            assert(found@.take(i + 1).last() == found@[i as int]);
        }
        if !hides(found[i].name.as_str()) {
            proof {
                lemma_place(before, found@[i as int]);
            }
            if order.len() as u64 >= maximum {
                proof {
                    lemma_listed_len(found@, i + 1);
                }
                return Err(LimitError::TooManyEntries { maximum });
            }
            let lower = outside::lowercase(found[i].name.as_str());
            let mut at: usize = order.len();
            assert(before.take(at as int) =~= before);
            while at > 0 && comes_before(&found[i], lower.as_str(), &found[order[at - 1]])
                invariant
                    at <= order@.len(),
                    i < found@.len(),
                    order@.len() == before.len(),
                    lower@ == outside::lowercase_of(found@[i as int].name@),
                    forall|k: int|
                        0 <= k < order@.len() ==> (#[trigger] order@[k]) < found@.len()
                            && found@[order@[k] as int] == before[k],
                    place_among(before, found@[i as int]) == place_among(
                        before.take(at as int),
                        found@[i as int],
                    ),
                decreases at,
            {
                assert(before.take(at as int).drop_last() =~= before.take(at - 1));
                assert(before.take(at as int).last() == before[at - 1]);
                at = at - 1;
            }
            proof {
                if at > 0 {
                    assert(before.take(at as int).last() == before[at - 1]);
                }
                assert(place_among(before, found@[i as int]) == at);
            }
            let entry = show(&found[i], directory, managed_file);
            let ghost shown_before_insert = shown@;
            let ghost order_before_insert = order@;
            order.insert(at, i);
            shown.insert(at, entry);
            proof {
                let after = before.insert(at as int, found@[i as int]);
                assert(listed(found@.take(i + 1)) == after);
                assert forall|k: int| 0 <= k < order@.len() implies (#[trigger] order@[k])
                    < found@.len() && found@[order@[k] as int] == after[k] by {
                    if k < at {
                        assert(order@[k] == order_before_insert[k]);
                    } else if k > at {
                        assert(order@[k] == order_before_insert[k - 1]);
                    }
                }
                assert forall|k: int| 0 <= k < shown@.len() implies shows(
                    #[trigger] shown@[k],
                    after[k],
                    directory@,
                    managed,
                ) by {
                    if k < at {
                        assert(shown@[k] == shown_before_insert[k]);
                    } else if k > at {
                        assert(shown@[k] == shown_before_insert[k - 1]);
                    }
                }
            }
        }
    }
    assert(found@.take(found@.len() as int) =~= found@);
    Ok(shown)
}

proof fn lemma_listed_members(found: Seq<FoundEntry>, entry: FoundEntry)
    ensures
        listed(found).contains(entry) <==> found.contains(entry) && !is_hidden(entry.name@),
    decreases found.len(),
{
    if found.len() > 0 {
        let rest = found.drop_last();
        let last = found.last();
        lemma_listed_members(rest, entry);
        let before = listed(rest);
        let at = place_among(before, last);
        lemma_place(before, last);
        assert(found.contains(entry) <==> rest.contains(entry) || entry == last) by {
            if rest.contains(entry) {
                let k = rest.index_of(entry);
                assert(found[k] == entry);
            }
            if entry == last {
                assert(found[found.len() - 1] == entry);
            }
            if found.contains(entry) && entry != last {
                let k = found.index_of(entry);
                assert(rest[k] == entry);
            }
        }
        if !is_hidden(last.name@) {
            let after = before.insert(at, last);
            assert(after.contains(entry) <==> before.contains(entry) || entry == last) by {
                if before.contains(entry) {
                    let k = before.index_of(entry);
                    assert(after[if k < at { k } else { k + 1 }] == entry);
                }
                if entry == last {
                    assert(after[at] == entry);
                }
                if after.contains(entry) && entry != last {
                    let k = after.index_of(entry);
                    assert(before[if k < at { k } else { k - 1 }] == entry);
                }
            }
        }
    }
}

/// Exactly the entries that are not the file manager's own are shown.
pub proof fn own_entries_are_not_shown(found: Seq<FoundEntry>, entry: FoundEntry)
    ensures
        listed(found).contains(entry) <==> found.contains(entry) && !is_hidden(entry.name@),
{
    lemma_listed_members(found, entry);
}

/// No entry is shown behind one that comes after it: directories come first,
/// and the names ascend, whatever their case.
pub proof fn entries_are_shown_in_order(found: Seq<FoundEntry>, i: int, j: int)
    requires
        0 <= i < j < listed(found).len(),
    ensures
        !shown_before(listed(found)[j], listed(found)[i]),
    decreases found.len(),
{
    let rest = found.drop_last();
    let last = found.last();
    let before = listed(rest);
    if is_hidden(last.name@) {
        entries_are_shown_in_order(rest, i, j);
    } else {
        let at = place_among(before, last);
        lemma_place(before, last);
        let after = before.insert(at, last);
        if i != at && j != at {
            let x = if i < at { i } else { i - 1 };
            let y = if j < at { j } else { j - 1 };
            assert(after[i] == before[x] && after[j] == before[y]);
            entries_are_shown_in_order(rest, x, y);
        } else if j == at {
            lemma_not_before_placed(before, last);
            assert(after[i] == before[i]);
            if i < at - 1 {
                entries_are_shown_in_order(rest, i, at - 1);
                lemma_order_transitive(before[i], before[at - 1], last);
            }
        } else {
            lemma_before_rest(before, last, j - 1);
            assert(after[j] == before[j - 1]);
            lemma_order_asymmetric(last, before[j - 1]);
        }
    }
}

proof fn lemma_order_asymmetric(a: FoundEntry, b: FoundEntry)
    ensures
        shown_before(a, b) ==> !shown_before(b, a),
{
    text::lemma_text_order(outside::lowercase_of(a.name@), outside::lowercase_of(b.name@));
}

proof fn lemma_order_transitive(a: FoundEntry, b: FoundEntry, c: FoundEntry)
    requires
        !shown_before(b, a),
        !shown_before(c, b),
    ensures
        !shown_before(c, a),
{
    let x = outside::lowercase_of(a.name@);
    let y = outside::lowercase_of(b.name@);
    let z = outside::lowercase_of(c.name@);
    text::lemma_text_order(x, y);
    text::lemma_text_order(y, z);
    text::lemma_text_order(x, z);
    if text::text_less(z, x) {
        if text::text_less(x, y) {
            text::lemma_text_less_transitive(z, x, y);
        }
    }
}

proof fn lemma_not_before_placed(list: Seq<FoundEntry>, entry: FoundEntry)
    ensures
        place_among(list, entry) > 0 ==> !shown_before(
            entry,
            list[place_among(list, entry) - 1],
        ),
    decreases list.len(),
{
    if list.len() > 0 && shown_before(entry, list.last()) {
        lemma_not_before_placed(list.drop_last(), entry);
        lemma_place(list.drop_last(), entry);
    }
}

proof fn lemma_before_rest(list: Seq<FoundEntry>, entry: FoundEntry, k: int)
    requires
        place_among(list, entry) <= k < list.len(),
    ensures
        shown_before(entry, list[k]),
    decreases list.len(),
{
    lemma_place(list, entry);
    if k < list.len() - 1 {
        lemma_before_rest(list.drop_last(), entry, k);
    }
}

// ---------------------------------------------------------------------------
// Reading a text
// ---------------------------------------------------------------------------

/// Why a file is not opened in the editor.
#[derive(Clone, Copy, Debug, PartialEq, Eq, Structural)]
pub enum TextError {
    /// It is no regular file.
    NotRegular,
    /// It is too large.
    TooLarge,
    /// It holds a zero byte.
    Binary,
    /// It is no UTF-8.
    NotUtf8,
}

/// Whether a file may be read for the editor, by its metadata.
pub fn admit_read(regular: bool, len: u64) -> (outcome: Result<(), TextError>)
    ensures
        outcome == if !regular {
            Err(TextError::NotRegular)
        } else if len > limits::MAX_TEXT_BYTES {
            Err(TextError::TooLarge)
        } else {
            Ok(())
        },
{
    if !regular {
        return Err(TextError::NotRegular);
    }
    if len > limits::MAX_TEXT_BYTES {
        return Err(TextError::TooLarge);
    }
    Ok(())
}

/// A text with its revision, as it is edited.
#[derive(Clone, Debug, PartialEq, Eq)]
pub struct FileManagerTextFile {
    pub path: String,
    pub contents: String,
    pub revision: FileManagerRevision,
}

/// Why the bytes are not opened in the editor.
pub open spec fn text_refusal(bytes: Seq<u8>) -> Option<TextError> {
    if bytes.len() > limits::MAX_TEXT_BYTES {
        Some(TextError::TooLarge)
    } else if bytes.contains(0u8) {
        Some(TextError::Binary)
    } else if !vstd::utf8::valid_utf8(bytes) {
        Some(TextError::NotUtf8)
    } else {
        None
    }
}

fn has_zero(bytes: &Vec<u8>) -> (found: bool)
    ensures
        found == bytes@.contains(0u8),
{
    for i in 0..bytes.len()
        invariant
            forall|k: int| 0 <= k < i ==> bytes@[k] != 0,
    {
        if bytes[i] == 0 {
            assert(bytes@[i as int] == 0u8);
            return true;
        }
    }
    false
}

/// The text of a regular file, as it is edited. `bytes` is what was read of it,
/// up to one byte more than a text may have.
pub fn read_text(path: String, metadata: &EntryMetadata, bytes: Vec<u8>) -> (file: Result<
    FileManagerTextFile,
    TextError,
>)
    ensures
        match file {
            Ok(text) => {
                &&& text_refusal(bytes@) is None
                &&& text.path == path
                &&& vstd::utf8::encode_utf8(text.contents@) == bytes@
                &&& text.revision.id@ == revision::digest_text(
                    vstd::utf8::encode_utf8(
                        revision::revision_id(*metadata, FileManagerEntryKind::File),
                    ) + bytes@,
                )
            },
            Err(error) => text_refusal(bytes@) == Some(error),
        },
{
    if bytes.len() as u64 > limits::MAX_TEXT_BYTES {
        return Err(TextError::TooLarge);
    }
    if has_zero(&bytes) {
        return Err(TextError::Binary);
    }
    let revision = revision::content_revision(metadata, FileManagerEntryKind::File, &bytes);
    match outside::text_from_utf8(bytes) {
        Some(contents) => Ok(FileManagerTextFile { path, contents, revision }),
        None => Err(TextError::NotUtf8),
    }
}

/// Every entry that is not the library's own is shown as often as it was found.
pub proof fn listings_lose_nothing(found: Seq<FoundEntry>)
    ensures
        listed(found).to_multiset() == found.filter(
            |entry: FoundEntry| !is_hidden(entry.name@),
        ).to_multiset(),
    decreases found.len(),
{
    broadcast use vstd::seq_lib::group_to_multiset_ensures;

    reveal(Seq::filter);
    let shown = |entry: FoundEntry| !is_hidden(entry.name@);
    if found.len() > 0 {
        let rest = found.drop_last();
        listings_lose_nothing(rest);
        if !is_hidden(found.last().name@) {
            let before = listed(rest);
            lemma_place(before, found.last());
            vstd::seq_lib::to_multiset_insert(
                before,
                place_among(before, found.last()),
                found.last(),
            );
            assert(found.filter(shown) =~= rest.filter(shown).push(found.last()));
        } else {
            assert(found.filter(shown) =~= rest.filter(shown));
        }
    }
}

/// Directories are shown before everything else, and entries of either sort by their
/// names without regard to case.
pub proof fn directories_are_shown_first(found: Seq<FoundEntry>, i: int, j: int)
    requires
        0 <= i < j < listed(found).len(),
    ensures
        listed(found)[j].kind == FileManagerEntryKind::Directory ==> listed(found)[i].kind
            == FileManagerEntryKind::Directory,
        listed(found)[i].kind == listed(found)[j].kind ==> !text::text_less(
            outside::lowercase_of(listed(found)[j].name@),
            outside::lowercase_of(listed(found)[i].name@),
        ),
{
    entries_are_shown_in_order(found, i, j);
}

/// An entry is shown as it was found, at its place below the directory, and marked if
/// it is the managed file.
pub proof fn entries_are_shown_as_found(
    entry: FileManagerEntry,
    found: FoundEntry,
    directory: Seq<char>,
    managed_file: Option<Seq<char>>,
)
    requires
        shows(entry, found, directory, managed_file),
    ensures
        entry.name@ == found.name@ && entry.kind == found.kind && entry.size == found.metadata.len
            && entry.modified_at == found.modified_at,
        directory.len() == 0 ==> entry.path@ == found.name@,
        directory.len() > 0 ==> entry.path@ == directory + seq!['/'] + found.name@,
        entry.managed <==> managed_file == Some(entry.path@),
{
    reveal_strlit("/");
    assert("/"@ =~= seq!['/']);
}

/// A text is opened when, and only when, it is small enough and is text.
pub proof fn small_texts_are_opened(bytes: Seq<u8>)
    ensures
        text_refusal(bytes) is None <==> bytes.len() <= 4 * 1024 * 1024 && vstd::utf8::valid_utf8(
            bytes,
        ) && forall|i: int| 0 <= i < bytes.len() ==> #[trigger] bytes[i] != 0u8,
{
    if bytes.contains(0u8) {
        let i = bytes.index_of(0u8);
        assert(bytes[i] == 0u8);
    }
}

} // verus!
