//! What is done with journals at a start, and how they are retired.

use vstd::prelude::*;

use crate::file_manager::journal;
use crate::file_manager::journal::JournalHistory;
use crate::file_manager::journal::JournalRecord;
use crate::registry::Registry;
use crate::text;
use crate::text::texts;

verus! {

/// What is done with an entry of the journals' directory.
#[derive(Clone, Copy, Debug, PartialEq, Eq, Structural)]
pub enum JournalEntry {
    /// The entry is no journal.
    Ignore,
    /// The journal was retired; its rest is removed.
    RemoveRetired,
    /// The journal is read.
    Read,
}

/// What is done with an entry of the journals' directory.
pub fn judge_journal_entry(is_dir: bool, name: &str) -> (verdict: JournalEntry)
    ensures
        verdict == if !is_dir || name@ == "managed-transactions"@ {
            JournalEntry::Ignore
        } else if ".retired-"@.is_prefix_of(name@) {
            JournalEntry::RemoveRetired
        } else {
            JournalEntry::Read
        },
{
    if !is_dir || text::same(name, "managed-transactions") {
        JournalEntry::Ignore
    } else if text::begins_with(name, ".retired-") {
        JournalEntry::RemoveRetired
    } else {
        JournalEntry::Read
    }
}

/// What is done with a journal that was read.
#[derive(Clone, Copy, Debug, PartialEq, Eq, Structural)]
pub enum JournalVerdict {
    /// It is loaded.
    Load,
    /// It has expired. It is removed, once what it holds in the root has been
    /// removed, if `holds_entries`.
    Remove { holds_entries: bool },
    /// It cannot be read. It is kept for recovery by hand.
    Keep,
}

/// What is done with a journal that was read, or could not be.
pub fn judge_journal(record: &Option<JournalRecord>, now: i64) -> (verdict: JournalVerdict)
    ensures
        verdict == match *record {
            None => JournalVerdict::Keep,
            Some(read) => if journal::is_kept(read, now) {
                JournalVerdict::Load
            } else {
                JournalVerdict::Remove { holds_entries: read.actions@.len() > 0 }
            },
        },
{
    match record {
        None => JournalVerdict::Keep,
        Some(read) => if journal::journal_is_unexpired(read, now) {
            JournalVerdict::Load
        } else {
            JournalVerdict::Remove { holds_entries: read.actions.len() > 0 }
        },
    }
}

// ---------------------------------------------------------------------------
// Loading the histories
// ---------------------------------------------------------------------------

/// Where a journal goes among older ones: behind all that are not newer.
pub open spec fn place_by_age(sorted: Seq<JournalRecord>, record: JournalRecord) -> int
    decreases sorted.len(),
{
    if sorted.len() == 0 || sorted.last().created_at <= record.created_at {
        sorted.len() as int
    } else {
        place_by_age(sorted.drop_last(), record)
    }
}

/// The journals by age, the oldest first; those of the same age in the order in
/// which they were read.
pub open spec fn by_age(records: Seq<JournalRecord>) -> Seq<JournalRecord>
    decreases records.len(),
{
    if records.len() == 0 {
        Seq::empty()
    } else {
        let before = by_age(records.drop_last());
        before.insert(place_by_age(before, records.last()), records.last())
    }
}

proof fn lemma_place_by_age(sorted: Seq<JournalRecord>, record: JournalRecord)
    ensures
        0 <= place_by_age(sorted, record) <= sorted.len(),
    decreases sorted.len(),
{
    if sorted.len() > 0 && sorted.last().created_at > record.created_at {
        lemma_place_by_age(sorted.drop_last(), record);
    }
}

fn sort_by_age(records: Vec<JournalRecord>) -> (sorted: Vec<JournalRecord>)
    ensures
        sorted@ == by_age(records@),
{
    let ghost all = records@;
    let mut rest = records;
    assert(rest@ =~= all.skip(0));
    let mut sorted: Vec<JournalRecord> = Vec::new();
    let ghost mut seen: int = 0;
    while rest.len() > 0
        invariant
            0 <= seen <= all.len(),
            rest@ == all.skip(seen),
            sorted@ == by_age(all.take(seen)),
        decreases rest.len(),
    {
        let record = rest.remove(0);
        let ghost list = sorted@;
        proof {
            assert(record == all[seen]);
            assert(rest@ =~= all.skip(seen + 1));
            assert(all.take(seen + 1).drop_last() =~= all.take(seen));
            assert(all.take(seen + 1).last() == record);
            lemma_place_by_age(list, record);
        }
        let mut at: usize = sorted.len();
        assert(list.take(at as int) =~= list);
        while at > 0 && sorted[at - 1].created_at > record.created_at
            invariant
                at <= sorted@.len(),
                sorted@ == list,
                place_by_age(list, record) == place_by_age(list.take(at as int), record),
            decreases at,
        {
            assert(list.take(at as int).drop_last() =~= list.take(at - 1));
            assert(list.take(at as int).last() == list[at - 1]);
            at = at - 1;
        }
        proof {
            if at > 0 {
                assert(list.take(at as int).last() == list[at - 1]);
            }
            assert(place_by_age(list, record) == at);
        }
        sorted.insert(at, record);
        proof {
            assert(sorted@ =~= list.insert(at as int, record));
            seen = seen + 1;
        }
    }
    proof {
        assert(all.take(seen) =~= all);
    }
    sorted
}

/// The key of the history that a journal belongs to.
pub open spec fn key_of(record: JournalRecord) -> Seq<char> {
    record.root_key@ + ":"@ + record.actor@
}

/// The journal belongs into the history with the key.
pub open spec fn belongs(record: JournalRecord, key: Seq<char>) -> bool {
    !record.cleanup_only && key_of(record) == key
}

/// The undo side of the history with the key.
pub open spec fn undo_side(records: Seq<JournalRecord>, key: Seq<char>) -> Seq<JournalRecord>
    decreases records.len(),
{
    if records.len() == 0 {
        Seq::empty()
    } else {
        let before = undo_side(records.drop_last(), key);
        if belongs(records.last(), key) && journal::on_undo_side(records.last()) {
            before.push(records.last())
        } else {
            before
        }
    }
}

/// The redo side of the history with the key: the newest journal first.
pub open spec fn redo_side(records: Seq<JournalRecord>, key: Seq<char>) -> Seq<JournalRecord>
    decreases records.len(),
{
    if records.len() == 0 {
        Seq::empty()
    } else {
        let before = redo_side(records.drop_last(), key);
        if belongs(records.last(), key) && !journal::on_undo_side(records.last()) {
            seq![records.last()] + before
        } else {
            before
        }
    }
}

/// The journals that only wait for their removal.
pub open spec fn left_to_clean(records: Seq<JournalRecord>) -> Seq<JournalRecord>
    decreases records.len(),
{
    if records.len() == 0 {
        Seq::empty()
    } else {
        let before = left_to_clean(records.drop_last());
        if records.last().cleanup_only {
            before.push(records.last())
        } else {
            before
        }
    }
}

/// Some journal belongs into the history with the key.
pub open spec fn has_history(records: Seq<JournalRecord>, key: Seq<char>) -> bool {
    exists|i: int| 0 <= i < records.len() && belongs(#[trigger] records[i], key)
}

/// The histories hold the journals.
pub open spec fn holds_histories(
    histories: Map<Seq<char>, JournalHistory>,
    records: Seq<JournalRecord>,
) -> bool {
    &&& forall|key: Seq<char>| #[trigger]
        histories.dom().contains(key) <==> has_history(records, key)
    &&& forall|key: Seq<char>| #[trigger]
        histories.dom().contains(key) ==> histories[key].undo@ == undo_side(records, key)
            && histories[key].redo@ == redo_side(records, key)
}

proof fn lemma_no_history(records: Seq<JournalRecord>, key: Seq<char>)
    requires
        !has_history(records, key),
    ensures
        undo_side(records, key) == Seq::<JournalRecord>::empty(),
        redo_side(records, key) == Seq::<JournalRecord>::empty(),
    decreases records.len(),
{
    if records.len() > 0 {
        assert(!belongs(records[records.len() - 1], key));
        assert forall|i: int| 0 <= i < records.drop_last().len() implies !belongs(
            #[trigger] records.drop_last()[i],
            key,
        ) by {
            assert(records.drop_last()[i] == records[i]);
        }
        lemma_no_history(records.drop_last(), key);
    }
}

/// The histories that are loaded, and the journals that only wait for their
/// removal.
pub struct LoadedJournals {
    pub histories: Registry<JournalHistory>,
    pub cleanup: Vec<JournalRecord>,
}

/// Loads the histories from the journals that were read, the oldest first.
pub fn initialize(records: Vec<JournalRecord>) -> (loaded: LoadedJournals)
    ensures
        loaded.histories.well_formed(),
        holds_histories(loaded.histories@, by_age(records@)),
        loaded.cleanup@ == left_to_clean(by_age(records@)),
{
    let sorted = sort_by_age(records);
    let ghost all = sorted@;
    let mut rest = sorted;
    assert(rest@ =~= all.skip(0));
    let mut histories: Registry<JournalHistory> = Registry::new();
    let mut cleanup: Vec<JournalRecord> = Vec::new();
    let ghost mut seen: int = 0;
    while rest.len() > 0
        invariant
            0 <= seen <= all.len(),
            rest@ == all.skip(seen),
            histories.well_formed(),
            holds_histories(histories@, all.take(seen)),
            cleanup@ == left_to_clean(all.take(seen)),
        decreases rest.len(),
    {
        let ghost now = all.take(seen);
        let ghost next = all.take(seen + 1);
        let record = rest.remove(0);
        proof {
            assert(record == all[seen]);
            assert(rest@ =~= all.skip(seen + 1));
            assert(next.drop_last() =~= now);
            assert(next.last() == record);
        }
        let ghost held = histories@;
        let ghost taken = record;
        if record.cleanup_only {
            cleanup.push(record);
            proof {
                assert forall|key: Seq<char>| has_history(now, key) == #[trigger] has_history(
                    next,
                    key,
                ) by {
                    lemma_history_grows(now, taken, next, key);
                }
            }
        } else {
            let key = journal::history_key(record.root_key.as_str(), record.actor.as_str());
            let ghost own = key@;
            let mut history = match histories.remove(key.as_str()) {
                Some(history) => history,
                None => JournalHistory::new(),
            };
            proof {
                if !held.dom().contains(own) {
                    assert(!has_history(now, own));
                    lemma_no_history(now, own);
                    assert(history.undo@ =~= undo_side(now, own));
                    assert(history.redo@ =~= redo_side(now, own));
                }
            }
            history.insert_loaded(record);
            histories.insert(key, history);
            proof {
                assert forall|k: Seq<char>| #[trigger]
                    histories@.dom().contains(k) <==> has_history(next, k) by {
                    lemma_history_grows(now, taken, next, k);
                    assert(held.dom().contains(k) <==> has_history(now, k));
                }
                assert forall|k: Seq<char>| #[trigger]
                    histories@.dom().contains(k) implies histories@[k].undo@ == undo_side(
                    next,
                    k,
                ) && histories@[k].redo@ == redo_side(next, k) by {
                    if k != own {
                        assert(held.dom().contains(k));
                    }
                }
            }
        }
        proof {
            seen = seen + 1;
        }
    }
    proof {
        assert(all.take(seen) =~= all);
    }
    LoadedJournals { histories, cleanup }
}

proof fn lemma_history_grows(
    now: Seq<JournalRecord>,
    record: JournalRecord,
    next: Seq<JournalRecord>,
    key: Seq<char>,
)
    requires
        next.len() == now.len() + 1,
        next.drop_last() == now,
        next.last() == record,
    ensures
        has_history(next, key) <==> has_history(now, key) || belongs(record, key),
{
    if has_history(now, key) {
        let i = choose|i: int| 0 <= i < now.len() && belongs(#[trigger] now[i], key);
        assert(next[i] == now[i]);
    }
    if belongs(record, key) {
        assert(next[next.len() - 1] == record);
    }
    if has_history(next, key) && !belongs(record, key) {
        let i = choose|i: int| 0 <= i < next.len() && belongs(#[trigger] next[i], key);
        assert(now[i] == next[i]);
    }
}

// ---------------------------------------------------------------------------
// Invalidating what could be redone
// ---------------------------------------------------------------------------

/// What is done with a directory that holds journals which were set aside when a
/// new operation was registered.
#[derive(Clone, Copy, Debug, PartialEq, Eq, Structural)]
pub enum BatchVerdict {
    /// The entry is no such directory.
    Ignore,
    /// The operation was registered: the journals are removed.
    CleanUp,
    /// The operation was not registered: the journals are put back.
    Restore,
}

/// What is done at a start with an entry of the journals' directory that may
/// hold journals which were set aside.
pub fn judge_redo_batch(is_dir: bool, name: &str, committed: bool) -> (verdict: BatchVerdict)
    ensures
        verdict == if !is_dir || !".redo-invalidation-"@.is_prefix_of(name@) {
            BatchVerdict::Ignore
        } else if committed {
            BatchVerdict::CleanUp
        } else {
            BatchVerdict::Restore
        },
{
    if !is_dir || !text::begins_with(name, ".redo-invalidation-") {
        BatchVerdict::Ignore
    } else if committed {
        BatchVerdict::CleanUp
    } else {
        BatchVerdict::Restore
    }
}

/// An entry of a directory that holds journals which were set aside.
pub struct BatchEntry {
    pub name: String,
    pub is_dir: bool,
}

/// The journals that are put back, in ascending order of their names.
pub fn restore_redo_invalidation_batch(entries: &Vec<BatchEntry>) -> (names: Vec<String>)
    ensures
        text::strictly_sorted(texts(names@)),
        forall|name: Seq<char>|
            texts(names@).contains(name) <==> exists|i: int|
                0 <= i < entries@.len() && (#[trigger] entries@[i]).is_dir && entries@[i].name@
                    == name,
{
    let mut names: Vec<String> = Vec::new();
    for i in 0..entries.len()
        invariant
            text::strictly_sorted(texts(names@)),
            forall|name: Seq<char>|
                texts(names@).contains(name) <==> exists|k: int|
                    0 <= k < i && (#[trigger] entries@[k]).is_dir && entries@[k].name@ == name,
    {
        let ghost before = texts(names@);
        if entries[i].is_dir {
            text::insert_sorted(&mut names, entries[i].name.clone());
        }
        proof {
            assert forall|name: Seq<char>| texts(names@).contains(name) <==> exists|k: int|
                0 <= k < i + 1 && (#[trigger] entries@[k]).is_dir && entries@[k].name@ == name by {
                if before.contains(name) {
                    let k = choose|k: int|
                        0 <= k < i && (#[trigger] entries@[k]).is_dir && entries@[k].name@ == name;
                    assert(entries@[k].is_dir && entries@[k].name@ == name);
                }
                if entries@[i as int].is_dir && entries@[i as int].name@ == name {
                    assert(entries@[i as int].is_dir);
                }
            }
        }
    }
    names
}

/// The journals under their names, and those that were set aside.
#[verifier::ext_equal]
pub struct JournalDirectory {
    pub journals: Map<Seq<char>, int>,
    pub aside: Map<Seq<char>, int>,
}

/// The directory after journals have been set aside, one after the other.
pub open spec fn set_aside(directory: JournalDirectory, names: Seq<Seq<char>>) -> JournalDirectory
    decreases names.len(),
{
    if names.len() == 0 {
        directory
    } else {
        let before = set_aside(directory, names.drop_last());
        JournalDirectory {
            journals: before.journals.remove(names.last()),
            aside: before.aside.insert(names.last(), before.journals[names.last()]),
        }
    }
}

/// The journals after all those that were set aside have been put back.
pub open spec fn put_back(directory: JournalDirectory) -> Map<Seq<char>, int> {
    directory.journals.union_prefer_right(directory.aside)
}

proof fn lemma_set_aside(directory: JournalDirectory, names: Seq<Seq<char>>)
    requires
        directory.aside == Map::<Seq<char>, int>::empty(),
        names.no_duplicates(),
        forall|i: int|
            0 <= i < names.len() ==> directory.journals.contains_key(#[trigger] names[i]),
    ensures
        put_back(set_aside(directory, names)) == directory.journals,
        forall|name: Seq<char>| #[trigger]
            set_aside(directory, names).journals.contains_key(name)
                <==> directory.journals.contains_key(name) && !names.contains(name),
        forall|name: Seq<char>| #[trigger]
            set_aside(directory, names).journals.contains_key(name) ==> set_aside(
                directory,
                names,
            ).journals[name] == directory.journals[name],
        forall|name: Seq<char>| #[trigger]
            set_aside(directory, names).aside.contains_key(name) <==> names.contains(name),
    decreases names.len(),
{
    if names.len() == 0 {
        assert(put_back(directory) =~= directory.journals);
    } else {
        let rest = names.drop_last();
        let last = names.last();
        assert forall|i: int| 0 <= i < rest.len() implies directory.journals.contains_key(
            #[trigger] rest[i],
        ) by {
            assert(rest[i] == names[i]);
        }
        assert(rest.no_duplicates()) by {
            assert forall|i: int, j: int|
                0 <= i < rest.len() && 0 <= j < rest.len() && i != j implies rest[i]
                != rest[j] by {
                assert(names[i] != names[j]);
            }
        }
        lemma_set_aside(directory, rest);
        assert(!rest.contains(last)) by {
            if rest.contains(last) {
                let i = rest.index_of(last);
                assert(names[i] == names[names.len() - 1]);
            }
        }
        assert(directory.journals.contains_key(names[names.len() - 1]));
        assert forall|name: Seq<char>| #[trigger] names.contains(name) <==> rest.contains(name)
            || name == last by {
            if rest.contains(name) {
                let i = rest.index_of(name);
                assert(names[i] == name);
            }
            if name == last {
                assert(names[names.len() - 1] == name);
            }
            if names.contains(name) && name != last {
                let i = names.index_of(name);
                assert(rest[i] == name);
            }
        }
        let before = set_aside(directory, rest);
        let after = set_aside(directory, names);
        assert(before.journals.contains_key(last));
        assert(put_back(after) =~= put_back(before)) by {
            assert forall|name: Seq<char>| #[trigger]
                put_back(after).contains_key(name) <==> put_back(before).contains_key(name) by {}
            assert forall|name: Seq<char>| #[trigger] put_back(after).contains_key(name) implies put_back(
                after,
            )[name] == put_back(before)[name] by {
                if name == last {
                    assert(!before.aside.contains_key(last));
                }
            }
        }
    }
}

/// A start after an interrupted registration finds all journals again: however
/// many had been set aside, putting them back gives the directory as it was.
pub proof fn interrupted_registrations_lose_nothing(
    directory: JournalDirectory,
    names: Seq<Seq<char>>,
    done: int,
)
    requires
        directory.aside == Map::<Seq<char>, int>::empty(),
        names.no_duplicates(),
        forall|i: int|
            0 <= i < names.len() ==> directory.journals.contains_key(#[trigger] names[i]),
        0 <= done <= names.len(),
    ensures
        put_back(set_aside(directory, names.take(done))) == directory.journals,
{
    let some = names.take(done);
    assert forall|i: int| 0 <= i < some.len() implies directory.journals.contains_key(
        #[trigger] some[i],
    ) by {
        assert(some[i] == names[i]);
    }
    assert(some.no_duplicates()) by {
        assert forall|i: int, j: int|
            0 <= i < some.len() && 0 <= j < some.len() && i != j implies some[i] != some[j] by {
            assert(names[i] != names[j]);
        }
    }
    lemma_set_aside(directory, some);
}

// ---------------------------------------------------------------------------
// Retiring a journal
// ---------------------------------------------------------------------------

/// What is done next to retire a journal.
#[derive(Clone, Copy, Debug, PartialEq, Eq, Structural)]
pub enum RetireStage {
    /// Rename the journal's directory to a name that a start ignores.
    RenamingAway,
    /// Make the new name durable.
    SyncingName,
    /// Give the directory its name back.
    RenamingBack,
    /// Remove the renamed directory; it may also be left to the next start.
    RemovingRetired,
    /// Put a mark into the directory that a start heeds.
    Marking,
    /// Make the mark durable.
    SyncingMark,
    /// Remove the marked directory; it may also be left to the next start.
    RemovingMarked,
    /// Remove the directory, which could not be marked.
    RemovingUnmarked,
    /// The journal is retired.
    Retired,
    /// The journal is not retired.
    NotRetired,
}

/// How a step ended.
#[derive(Clone, Copy, Debug, PartialEq, Eq, Structural)]
pub enum RetireOutcome {
    Done,
    /// The directory is not there.
    Missing,
    Failed,
}

/// What is done next to retire a journal.
pub open spec fn retire_next(stage: RetireStage, outcome: RetireOutcome) -> RetireStage {
    match stage {
        RetireStage::RenamingAway => match outcome {
            RetireOutcome::Done => RetireStage::SyncingName,
            RetireOutcome::Missing => RetireStage::Retired,
            RetireOutcome::Failed => RetireStage::Marking,
        },
        RetireStage::SyncingName => if outcome == RetireOutcome::Done {
            RetireStage::RemovingRetired
        } else {
            RetireStage::RenamingBack
        },
        RetireStage::RenamingBack => if outcome == RetireOutcome::Done {
            RetireStage::NotRetired
        } else {
            RetireStage::RemovingRetired
        },
        RetireStage::RemovingRetired => RetireStage::Retired,
        RetireStage::Marking => if outcome == RetireOutcome::Done {
            RetireStage::SyncingMark
        } else {
            RetireStage::RemovingUnmarked
        },
        RetireStage::SyncingMark => if outcome == RetireOutcome::Done {
            RetireStage::RemovingMarked
        } else {
            RetireStage::NotRetired
        },
        RetireStage::RemovingMarked => RetireStage::Retired,
        RetireStage::RemovingUnmarked => if outcome == RetireOutcome::Failed {
            RetireStage::NotRetired
        } else {
            RetireStage::Retired
        },
        RetireStage::Retired => RetireStage::Retired,
        RetireStage::NotRetired => RetireStage::NotRetired,
    }
}

/// What is done next to retire a journal, once a step has ended.
pub fn retire_journal_directory(stage: RetireStage, outcome: RetireOutcome) -> (next: RetireStage)
    ensures
        next == retire_next(stage, outcome),
{
    let done = match outcome {
        RetireOutcome::Done => true,
        _ => false,
    };
    match stage {
        RetireStage::RenamingAway => match outcome {
            RetireOutcome::Done => RetireStage::SyncingName,
            RetireOutcome::Missing => RetireStage::Retired,
            RetireOutcome::Failed => RetireStage::Marking,
        },
        RetireStage::SyncingName => if done {
            RetireStage::RemovingRetired
        } else {
            RetireStage::RenamingBack
        },
        RetireStage::RenamingBack => if done {
            RetireStage::NotRetired
        } else {
            RetireStage::RemovingRetired
        },
        RetireStage::RemovingRetired | RetireStage::RemovingMarked => RetireStage::Retired,
        RetireStage::Marking => if done {
            RetireStage::SyncingMark
        } else {
            RetireStage::RemovingUnmarked
        },
        RetireStage::SyncingMark => if done {
            RetireStage::RemovingMarked
        } else {
            RetireStage::NotRetired
        },
        RetireStage::RemovingUnmarked => match outcome {
            RetireOutcome::Failed => RetireStage::NotRetired,
            _ => RetireStage::Retired,
        },
        RetireStage::Retired => RetireStage::Retired,
        RetireStage::NotRetired => RetireStage::NotRetired,
    }
}

/// The next start would load the journal.
pub open spec fn is_loaded_after(loaded: bool, stage: RetireStage, outcome: RetireOutcome) -> bool {
    match stage {
        RetireStage::RenamingAway => loaded && outcome == RetireOutcome::Failed,
        RetireStage::RenamingBack => outcome == RetireOutcome::Done,
        RetireStage::Marking => loaded && outcome != RetireOutcome::Done,
        RetireStage::RemovingUnmarked => loaded && outcome == RetireOutcome::Failed,
        _ => loaded,
    }
}

/// What the next start would do fits the stage.
pub open spec fn retirement_fits(loaded: bool, stage: RetireStage) -> bool {
    match stage {
        RetireStage::SyncingName => !loaded,
        RetireStage::RemovingRetired => !loaded,
        RetireStage::SyncingMark => !loaded,
        RetireStage::RemovingMarked => !loaded,
        RetireStage::Retired => !loaded,
        _ => true,
    }
}

/// A journal counts as retired only if no start loads it again.
pub proof fn retired_journals_stay_retired(loaded: bool, stage: RetireStage, outcome: RetireOutcome)
    requires
        retirement_fits(loaded, stage),
        stage is RenamingBack ==> !loaded,
    ensures
        retirement_fits(
            is_loaded_after(loaded, stage, outcome),
            retire_next(stage, outcome),
        ),
        retire_next(stage, outcome) is RenamingBack ==> !is_loaded_after(loaded, stage, outcome),
{
}

proof fn lemma_place_among_ages(sorted: Seq<JournalRecord>, record: JournalRecord)
    requires
        forall|i: int, j: int|
            0 <= i <= j < sorted.len() ==> (#[trigger] sorted[i]).created_at <= (
            #[trigger] sorted[j]).created_at,
    ensures
        0 <= place_by_age(sorted, record) <= sorted.len(),
        forall|i: int|
            0 <= i < place_by_age(sorted, record) ==> (#[trigger] sorted[i]).created_at
                <= record.created_at,
        forall|i: int|
            place_by_age(sorted, record) <= i < sorted.len() ==> (#[trigger] sorted[i]).created_at
                > record.created_at,
    decreases sorted.len(),
{
    if sorted.len() > 0 && sorted.last().created_at > record.created_at {
        let rest = sorted.drop_last();
        lemma_place_among_ages(rest, record);
        assert forall|i: int| 0 <= i < place_by_age(sorted, record) implies (
        #[trigger] sorted[i]).created_at <= record.created_at by {
            assert(rest[i] == sorted[i]);
        }
        assert forall|i: int| place_by_age(sorted, record) <= i < sorted.len() implies (
        #[trigger] sorted[i]).created_at > record.created_at by {
            if i < rest.len() {
                assert(rest[i] == sorted[i]);
            }
        }
    } else if sorted.len() > 0 {
        assert forall|i: int| 0 <= i < sorted.len() implies (#[trigger] sorted[i]).created_at
            <= record.created_at by {
            assert(sorted[sorted.len() - 1].created_at <= record.created_at);
        }
    }
}

/// Loading journals keeps every one of them and puts the older before the newer.
pub proof fn journals_are_ordered_by_age(records: Seq<JournalRecord>)
    ensures
        by_age(records).to_multiset() == records.to_multiset(),
        by_age(records).len() == records.len(),
        forall|i: int, j: int|
            0 <= i <= j < records.len() ==> (#[trigger] by_age(records)[i]).created_at <= (
            #[trigger] by_age(records)[j]).created_at,
    decreases records.len(),
{
    broadcast use vstd::seq_lib::group_to_multiset_ensures;

    if records.len() > 0 {
        let rest = records.drop_last();
        let before = by_age(rest);
        let last = records.last();
        journals_are_ordered_by_age(rest);
        lemma_place_among_ages(before, last);
        let place = place_by_age(before, last);
        let all = before.insert(place, last);
        assert(records =~= rest.push(last));
        vstd::seq_lib::to_multiset_insert(before, place, last);
        assert forall|i: int, j: int| 0 <= i <= j < records.len() implies (
        #[trigger] all[i]).created_at <= (#[trigger] all[j]).created_at by {
            let a = if i < place {
                i
            } else {
                i - 1
            };
            let b = if j < place {
                j
            } else {
                j - 1
            };
            if i != place {
                assert(all[i] == before[a]);
            }
            if j != place {
                assert(all[j] == before[b]);
            }
        }
    }
}

/// The history of an actor on a root holds just their journals that are not merely
/// left to clean: those that can be undone in order of age, and those that can be
/// redone the other way round. Each is on one side.
pub proof fn histories_hold_the_own_journals(records: Seq<JournalRecord>, key: Seq<char>)
    ensures
        undo_side(records, key) == records.filter(
            |record: JournalRecord| belongs(record, key) && journal::on_undo_side(record),
        ),
        redo_side(records, key).reverse() == records.filter(
            |record: JournalRecord| belongs(record, key) && !journal::on_undo_side(record),
        ),
        left_to_clean(records) == records.filter(|record: JournalRecord| record.cleanup_only),
    decreases records.len(),
{
    reveal(Seq::filter);
    if records.len() > 0 {
        let rest = records.drop_last();
        histories_hold_the_own_journals(rest, key);
        let redo = redo_side(rest, key);
        assert((seq![records.last()] + redo).reverse() =~= redo.reverse().push(records.last()));
    } else {
        assert(Seq::<JournalRecord>::empty().reverse() =~= Seq::<JournalRecord>::empty());
    }
}

/// Retiring a journal that nothing goes wrong with retires it, even where its
/// remains cannot be removed: renamed away, or else marked.
pub proof fn undisturbed_journals_are_retired(last: RetireOutcome)
    ensures
        ({
            let away = retire_next(RetireStage::RenamingAway, RetireOutcome::Done);
            let named = retire_next(away, RetireOutcome::Done);
            &&& retire_next(named, last) is Retired
            &&& named is RemovingRetired
        }),
        ({
            let marking = retire_next(RetireStage::RenamingAway, RetireOutcome::Failed);
            let marked = retire_next(marking, RetireOutcome::Done);
            let synced = retire_next(marked, RetireOutcome::Done);
            &&& synced is RemovingMarked
            &&& retire_next(synced, last) is Retired
        }),
        retire_next(RetireStage::RenamingAway, RetireOutcome::Missing) is Retired,
{
}

/// A journal counts as not retired only where its new name was taken back, its mark
/// could not be made durable, or it could be neither marked nor removed.
pub proof fn journals_are_not_retired_only_on_failure(stage: RetireStage, outcome: RetireOutcome)
    requires
        !(stage is NotRetired),
        retire_next(stage, outcome) is NotRetired,
    ensures
        stage is RenamingBack && outcome == RetireOutcome::Done || stage is SyncingMark && outcome
            != RetireOutcome::Done || stage is RemovingUnmarked && outcome
            == RetireOutcome::Failed,
{
}

} // verus!
