//! The journal of a restore's publication.

use vstd::prelude::*;

use crate::text;

verus! {

/// One destination that a restore publishes.
#[derive(Clone, Debug, PartialEq, Eq)]
pub struct RestoreJournalEntry {
    /// The restored tree, staged on the destination's own filesystem.
    pub source: String,
    pub destination: String,
    /// Where the original destination is kept until the decision.
    pub rollback: String,
    /// Nothing in journals of older agents, where it is not known.
    pub original_existed: Option<bool>,
    /// Set before the source is moved to the destination.
    pub published: bool,
}

/// A volume that was created for a restore.
#[derive(Clone, Debug, PartialEq, Eq)]
pub struct RestoreOwnedVolume {
    pub volume_name: String,
    pub restore_plan_id: String,
}

impl RestoreOwnedVolume {
    /// The same ownership once more.
    pub fn duplicate(&self) -> (copy: RestoreOwnedVolume)
        ensures
            copy == *self,
    {
        RestoreOwnedVolume {
            volume_name: self.volume_name.clone(),
            restore_plan_id: self.restore_plan_id.clone(),
        }
    }
}

/// The durable record of a publication.
#[derive(Clone, Debug, PartialEq, Eq)]
pub struct RestoreJournal {
    /// The staging directory; empty when there is none.
    pub staging: String,
    pub entries: Vec<RestoreJournalEntry>,
    /// The publication is to stay.
    pub committed: bool,
    /// The files have been committed or rolled back.
    pub finalized: bool,
    /// The decision is taken elsewhere.
    pub deferred: bool,
    /// The containers run again as well.
    pub completed: bool,
    pub owned_volume: Option<RestoreOwnedVolume>,
}

impl RestoreJournal {
    /// Work is left to do for this journal.
    pub open spec fn is_pending(self) -> bool {
        !self.finalized || !self.completed
    }

    /// Whether work is left to do for this journal.
    pub fn pending(&self) -> (pending: bool)
        ensures
            pending == self.is_pending(),
    {
        !self.finalized || !self.completed
    }
}

/// The identity may name a journal: it is not empty and holds only letters,
/// digits, `-` and `_` of ASCII.
pub open spec fn is_journal_id(id: Seq<char>) -> bool {
    &&& id.len() > 0
    &&& forall|i: int| 0 <= i < id.len() ==> is_journal_id_char(#[trigger] id[i])
}

/// A letter or digit of ASCII, `-` or `_`.
pub open spec fn is_journal_id_char(c: char) -> bool {
    ||| ('a' <= c && c <= 'z')
    ||| ('A' <= c && c <= 'Z')
    ||| ('0' <= c && c <= '9')
    ||| c == '-'
    ||| c == '_'
}

/// Whether the identity may name a journal.
pub fn validate_restore_journal_id(journal_id: &str) -> (valid: bool)
    ensures
        valid == is_journal_id(journal_id@),
{
    let chars = text::chars_of(journal_id);
    if chars.len() == 0 {
        return false;
    }
    for i in 0..chars.len()
        invariant
            chars@ == journal_id@,
            forall|j: int| 0 <= j < i ==> is_journal_id_char(#[trigger] chars@[j]),
    {
        let c = chars[i];
        if !(('a' <= c && c <= 'z') || ('A' <= c && c <= 'Z') || ('0' <= c && c <= '9') || c == '-'
            || c == '_') {
            assert(!is_journal_id_char(chars@[i as int]));
            return false;
        }
    }
    true
}

/// The file name of a journal.
pub fn journal_file_name(journal_id: &str) -> (name: String)
    ensures
        name@ == journal_id@ + ".json"@,
{
    text::concat2(journal_id, ".json")
}

/// A journal's file name is a single name: it holds no slash, so it stays in
/// the directory it is joined to.
pub proof fn journal_names_stay_in_their_directory(id: Seq<char>)
    requires
        is_journal_id(id),
    ensures
        !(id + ".json"@).contains('/'),
{
    reveal_strlit(".json");
    let name = id + ".json"@;
    if name.contains('/') {
        let i = choose|i: int| 0 <= i < name.len() && name[i] == '/';
        if i < id.len() {
            assert(is_journal_id_char(id[i]));
        } else {
            assert(name[i] == ".json"@[i - id.len()]);
        }
    }
}

/// The restore has left work behind: its journal is pending, or one of its
/// child journals is still there.
pub fn restore_has_pending_journals(
    journal: Option<&RestoreJournal>,
    staging_journal_exists: bool,
    container_journal_exists: bool,
) -> (pending: bool)
    ensures
        pending == ((journal matches Some(held) && held.is_pending()) || staging_journal_exists
            || container_journal_exists),
{
    match journal {
        Some(held) => held.pending() || staging_journal_exists || container_journal_exists,
        None => staging_journal_exists || container_journal_exists,
    }
}

} // verus!
