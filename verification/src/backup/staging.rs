//! Clearing away what a restore prepared.
//!
//! A note lists the paths that a restore owns. It is the only evidence of that
//! ownership, so it goes last, and stays while a path may still be there.

use vstd::prelude::*;

verus! {

/// What is found at a path of the note.
#[derive(Clone, Copy, Debug, PartialEq, Eq, Structural)]
pub enum StagedFound {
    /// A directory.
    Directory,
    /// Something else.
    Other,
    /// Nothing, in a directory that is there.
    Gone,
    /// Nothing, and the directory that would hold it is gone too: its storage may
    /// only be out of reach.
    GoneWithParent,
    /// It cannot be told.
    Unknown,
}

/// Something is there.
pub open spec fn is_there(found: StagedFound) -> bool {
    found == StagedFound::Directory || found == StagedFound::Other
}

/// It is known whether something is there.
pub open spec fn is_settled(found: StagedFound) -> bool {
    is_there(found) || found == StagedFound::Gone
}

/// How the paths of a note are cleared away.
#[derive(Clone, Debug, PartialEq, Eq)]
pub struct StagingCleanup {
    /// The paths that are removed, by their positions in the note, in order.
    pub removals: Vec<usize>,
    /// The note goes once they have been removed.
    pub note_goes: bool,
}

/// The positions of the paths that are removed: from the last one, up to the
/// first that is not settled.
pub open spec fn removals_of(found: Seq<StagedFound>) -> Seq<usize>
    decreases found.len(),
{
    if found.len() == 0 || !is_settled(found.last()) {
        Seq::empty()
    } else if is_there(found.last()) {
        seq![(found.len() - 1) as usize] + removals_of(found.drop_last())
    } else {
        removals_of(found.drop_last())
    }
}

/// Every path is settled.
pub open spec fn all_settled(found: Seq<StagedFound>) -> bool {
    forall|i: int| 0 <= i < found.len() ==> is_settled(#[trigger] found[i])
}

/// How the paths of a note are cleared away, given what is found at each.
pub fn plan_staging_cleanup(found: &Vec<StagedFound>) -> (cleanup: StagingCleanup)
    ensures
        cleanup.removals@ == removals_of(found@),
        cleanup.note_goes == all_settled(found@),
{
    let mut removals: Vec<usize> = Vec::new();
    let mut left: usize = found.len();
    assert(found@.take(left as int) =~= found@);
    assert(removals@ + removals_of(found@) =~= removals_of(found@));
    while left > 0
        invariant
            left <= found@.len(),
            removals@ + removals_of(found@.take(left as int)) == removals_of(found@),
            forall|i: int| left <= i < found@.len() ==> is_settled(#[trigger] found@[i]),
        decreases left,
    {
        let ghost rest = found@.take(left as int);
        assert(rest.last() == found@[left - 1]);
        assert(rest.drop_last() =~= found@.take(left - 1));
        match found[left - 1] {
            StagedFound::Directory | StagedFound::Other => {
                let ghost before = removals@;
                removals.push(left - 1);
                assert(removals@ + removals_of(rest.drop_last()) =~= before + (seq![
                    (left - 1) as usize,
                ] + removals_of(rest.drop_last())));
            },
            StagedFound::Gone => {},
            StagedFound::GoneWithParent | StagedFound::Unknown => {
                assert(!is_settled(found@[left - 1]));
                assert(removals@ + removals_of(rest) =~= removals@);
                return StagingCleanup { removals, note_goes: false };
            },
        }
        left = left - 1;
    }
    assert(removals@ + removals_of(found@.take(0)) =~= removals@);
    StagingCleanup { removals, note_goes: true }
}

/// Paths are removed once each, in the reverse of their order in the note, and
/// only where something is there.
pub proof fn staged_paths_go_in_reverse(found: Seq<StagedFound>)
    requires
        found.len() <= usize::MAX,
    ensures
        forall|i: int|
            0 <= i < removals_of(found).len() ==> #[trigger] removals_of(found)[i] < found.len()
                && is_there(found[removals_of(found)[i] as int]),
        forall|i: int, j: int|
            0 <= i < j < removals_of(found).len() ==> #[trigger] removals_of(found)[i]
                > #[trigger] removals_of(found)[j],
    decreases found.len(),
{
    if found.len() > 0 && is_settled(found.last()) {
        let rest = found.drop_last();
        staged_paths_go_in_reverse(rest);
        let all = removals_of(found);
        let fewer = removals_of(rest);
        if is_there(found.last()) {
            assert forall|i: int| 0 <= i < all.len() implies #[trigger] all[i] < found.len()
                && is_there(found[all[i] as int]) by {
                if i > 0 {
                    assert(all[i] == fewer[i - 1]);
                }
            }
            assert forall|i: int, j: int| 0 <= i < j < all.len() implies #[trigger] all[i]
                > #[trigger] all[j] by {
                assert(all[j] == fewer[j - 1]);
                if i > 0 {
                    assert(all[i] == fewer[i - 1]);
                }
            }
        } else {
            assert forall|i: int| 0 <= i < all.len() implies #[trigger] all[i] < found.len()
                && is_there(found[all[i] as int]) by {
                assert(all[i] == fewer[i]);
            }
        }
    }
}

/// Where the note goes, everything that is there has been removed.
pub proof fn notes_outlive_their_paths(found: Seq<StagedFound>, path: int)
    requires
        found.len() <= usize::MAX,
        all_settled(found),
        0 <= path < found.len(),
        is_there(found[path]),
    ensures
        removals_of(found).contains(path as usize),
    decreases found.len(),
{
    let rest = found.drop_last();
    assert(is_settled(found[found.len() - 1]));
    if path == found.len() - 1 {
        assert(removals_of(found)[0] == path as usize);
    } else {
        assert(all_settled(rest)) by {
            assert forall|i: int| 0 <= i < rest.len() implies is_settled(#[trigger] rest[i]) by {
                assert(is_settled(found[i]));
            }
        }
        assert(is_there(rest[path]));
        notes_outlive_their_paths(rest, path);
        let fewer = removals_of(rest);
        let k = choose|k: int| 0 <= k < fewer.len() && fewer[k] == path as usize;
        if is_there(found.last()) {
            assert(removals_of(found)[k + 1] == path as usize);
        }
    }
}

/// A note stays while one of its paths is gone together with its parent, and what
/// stands before that path in the note stays too.
pub proof fn lost_storage_keeps_its_note(found: Seq<StagedFound>, path: int)
    requires
        found.len() <= usize::MAX,
        0 <= path < found.len(),
        found[path] == StagedFound::GoneWithParent,
    ensures
        !all_settled(found),
        forall|i: int|
            0 <= i < removals_of(found).len() ==> #[trigger] removals_of(found)[i] > path,
    decreases found.len(),
{
    assert(!is_settled(found[path]));
    if path < found.len() - 1 {
        let rest = found.drop_last();
        assert(rest[path] == found[path]);
        lost_storage_keeps_its_note(rest, path);
        let all = removals_of(found);
        let fewer = removals_of(rest);
        assert forall|i: int| 0 <= i < all.len() implies #[trigger] all[i] > path by {
            if is_there(found.last()) {
                if i > 0 {
                    assert(all[i] == fewer[i - 1]);
                }
            } else {
                assert(all[i] == fewer[i]);
            }
        }
    }
}

} // verus!
