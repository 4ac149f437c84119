//! Publishing what was extracted from an archive: conflicts are asked about,
//! and a publication that is interrupted is rolled back.

use vstd::prelude::*;

use crate::file_manager::actions;
use crate::file_manager::actions::Deed;
use crate::file_manager::actions::KindModel;
use crate::file_manager::actions::Space;
use crate::file_manager::conflict;
use crate::file_manager::conflict::ConflictModel;
use crate::file_manager::conflict::FileManagerConflict;
use crate::file_manager::conflict::FileManagerConflictAction;
use crate::file_manager::conflict::FileManagerConflictDecision;
use crate::file_manager::limits;
use crate::file_manager::progress::ConflictResolution;
use crate::file_manager::tree;
use crate::file_manager::tree::Entry;
use crate::path;
use crate::text;

verus! {

// ---------------------------------------------------------------------------
// Decisions about conflicts
// ---------------------------------------------------------------------------

/// The decisions about the conflicts of an extraction.
pub struct Resolver {
    pub decisions: Vec<FileManagerConflictDecision>,
    /// What is done about all further conflicts.
    pub for_all: Option<FileManagerConflictAction>,
}

/// Every conflict up to `count` has been decided.
pub open spec fn decided_up_to(
    conflicts: Seq<FileManagerConflict>,
    count: int,
    decisions: Seq<FileManagerConflictDecision>,
) -> bool {
    forall|i: int|
        0 <= i < count ==> conflict::decision_at((#[trigger] conflicts[i]).path@, decisions)
            is Some
}

/// The decisions hold the earlier ones, unchanged and in front.
pub open spec fn extends(
    after: Seq<FileManagerConflictDecision>,
    before: Seq<FileManagerConflictDecision>,
) -> bool {
    before.len() <= after.len() && after.take(before.len() as int) == before
}

proof fn lemma_decision_stays(
    path: Seq<char>,
    before: Seq<FileManagerConflictDecision>,
    decision: FileManagerConflictDecision,
)
    ensures
        conflict::decision_at(path, before) is Some ==> conflict::decision_at(
            path,
            before.push(decision),
        ) == conflict::decision_at(path, before),
        conflict::decision_at(path, before) is None && decision.path@ == path
            ==> conflict::decision_at(path, before.push(decision)) == Some(decision.action),
        conflict::decision_at(path, before) is None && decision.path@ != path
            ==> conflict::decision_at(path, before.push(decision)) is None,
    decreases before.len(),
{
    let after = before.push(decision);
    if before.len() == 0 {
        assert(after[0] == decision);
        assert(after.drop_first() =~= before);
        assert(conflict::decision_at(path, before) is None);
    } else {
        assert(after[0] == before[0]);
        assert(after.drop_first() =~= before.drop_first().push(decision));
        lemma_decision_stays(path, before.drop_first(), decision);
    }
}

impl Resolver {
    /// The decisions that were made beforehand.
    pub fn new(decisions: Vec<FileManagerConflictDecision>) -> (resolver: Resolver)
        ensures
            resolver.decisions == decisions,
            resolver.for_all is None,
    {
        Resolver { decisions, for_all: None }
    }

    /// Goes on from the conflict at `from` to the first one that has to be asked
    /// about, and tells its position. Conflicts that a decision for all covers
    /// are decided on the way.
    pub fn next_question(&mut self, conflicts: &Vec<FileManagerConflict>, from: usize) -> (question:
        Option<usize>)
        requires
            from <= conflicts@.len(),
            decided_up_to(conflicts@, from as int, old(self).decisions@),
        ensures
            final(self).for_all == old(self).for_all,
            extends(final(self).decisions@, old(self).decisions@),
            forall|k: int|
                old(self).decisions@.len() <= k < final(self).decisions@.len() ==> Some(
                    (#[trigger] final(self).decisions@[k]).action,
                ) == old(self).for_all,
            match question {
                Some(i) => {
                    &&& from <= i < conflicts@.len()
                    &&& old(self).for_all is None
                    &&& conflict::decision_at(conflicts@[i as int].path@, final(self).decisions@)
                        is None
                    &&& decided_up_to(conflicts@, i as int, final(self).decisions@)
                },
                None => decided_up_to(
                    conflicts@,
                    conflicts@.len() as int,
                    final(self).decisions@,
                ),
            },
    {
        let ghost start = self.decisions@;
        let mut i: usize = from;
        assert(self.decisions@.take(start.len() as int) =~= start);
        while i < conflicts.len()
            invariant
                from <= i <= conflicts@.len(),
                start == old(self).decisions@,
                self.for_all == old(self).for_all,
                extends(self.decisions@, start),
                forall|k: int|
                    start.len() <= k < self.decisions@.len() ==> Some(
                        (#[trigger] self.decisions@[k]).action,
                    ) == self.for_all,
                decided_up_to(conflicts@, i as int, self.decisions@),
            decreases conflicts.len() - i,
        {
            if conflict::decision_for(conflicts[i].path.as_str(), &self.decisions).is_none() {
                match self.for_all {
                    None => {
                        return Some(i);
                    },
                    Some(action) => {
                        let ghost before = self.decisions@;
                        let decision = FileManagerConflictDecision {
                            path: conflicts[i].path.clone(),
                            action,
                        };
                        let ghost added = decision;
                        self.decisions.push(decision);
                        proof {
                            assert(self.decisions@.take(start.len() as int) =~= before.take(
                                start.len() as int,
                            ));
                            assert forall|k: int| 0 <= k < i + 1 implies conflict::decision_at(
                                (#[trigger] conflicts@[k]).path@,
                                self.decisions@,
                            ) is Some by {
                                lemma_decision_stays(conflicts@[k].path@, before, added);
                            }
                        }
                    },
                }
            }
            i = i + 1;
        }
        None
    }

    /// Takes in the answer about a conflict.
    pub fn answer(&mut self, path: &str, resolution: ConflictResolution)
        ensures
            final(self).decisions@.len() == old(self).decisions@.len() + 1,
            extends(final(self).decisions@, old(self).decisions@),
            final(self).decisions@.last().path@ == path@,
            final(self).decisions@.last().action == resolution.action,
            final(self).for_all == if resolution.apply_to_all {
                Some(resolution.action)
            } else {
                old(self).for_all
            },
    {
        let ghost before = self.decisions@;
        self.decisions.push(
            FileManagerConflictDecision { path: path.to_owned(), action: resolution.action },
        );
        assert(self.decisions@.take(before.len() as int) =~= before);
        if resolution.apply_to_all {
            self.for_all = Some(resolution.action);
        }
    }

    /// What settles a conflict that is found late without asking: a decision that
    /// was made for all.
    pub fn late_resolution(&self) -> (resolution: Option<ConflictResolution>)
        ensures
            resolution == match self.for_all {
                Some(action) => Some(ConflictResolution { action, apply_to_all: true }),
                None => None,
            },
    {
        match self.for_all {
            Some(action) => Some(ConflictResolution { action, apply_to_all: true }),
            None => None,
        }
    }

    /// Takes in the answer about a conflict that came up while publishing. It
    /// takes the place of an earlier decision about the same path.
    pub fn answer_late(&mut self, path: &str, resolution: ConflictResolution)
        ensures
            ({
                let kept = old(self).decisions@.filter(
                    |decision: FileManagerConflictDecision| decision.path@ != path@,
                );
                &&& final(self).decisions@.len() == kept.len() + 1
                &&& final(self).decisions@.take(kept.len() as int) == kept
                &&& final(self).decisions@.last().path@ == path@
                &&& final(self).decisions@.last().action == resolution.action
            }),
            final(self).for_all == if resolution.apply_to_all {
                Some(resolution.action)
            } else {
                old(self).for_all
            },
    {
        let ghost all = self.decisions@;
        let ghost other = |decision: FileManagerConflictDecision| decision.path@ != path@;
        let mut i: usize = 0;
        let ghost mut seen: int = 0;
        proof {
            reveal(Seq::filter);
            assert(all.take(0).filter(other) =~= Seq::<FileManagerConflictDecision>::empty());
            assert(self.decisions@ =~= all.take(0).filter(other) + all.skip(0));
        }
        while i < self.decisions.len()
            invariant
                0 <= seen <= all.len(),
                other == (|decision: FileManagerConflictDecision| decision.path@ != path@),
                self.for_all == old(self).for_all,
                i == all.take(seen).filter(other).len(),
                self.decisions@ == all.take(seen).filter(other) + all.skip(seen),
            decreases self.decisions.len() - i,
        {
            let ghost prefix = all.take(seen).filter(other);
            proof {
                assert(self.decisions@[i as int] == all[seen]);
                assert(all.take(seen + 1) =~= all.take(seen).push(all[seen]));
                all.take(seen).lemma_filter_push(all[seen], other);
            }
            if text::same(self.decisions[i].path.as_str(), path) {
                let _ = self.decisions.remove(i);
                assert(self.decisions@ =~= prefix + all.skip(seen + 1));
            } else {
                assert(self.decisions@ =~= prefix.push(all[seen]) + all.skip(seen + 1));
                i = i + 1;
            }
            proof {
                seen = seen + 1;
            }
        }
        proof {
            assert(all.take(seen) =~= all);
            assert(self.decisions@ =~= all.filter(other));
        }
        let ghost kept = self.decisions@;
        self.decisions.push(
            FileManagerConflictDecision { path: path.to_owned(), action: resolution.action },
        );
        assert(self.decisions@.take(kept.len() as int) =~= kept);
        if resolution.apply_to_all {
            self.for_all = Some(resolution.action);
        }
    }
}

/// An answer settles the conflict that was asked about, and no earlier decision
/// changes: with every answer, one conflict more has been decided.
pub proof fn answers_settle_conflicts(
    conflicts: Seq<FileManagerConflict>,
    i: int,
    before: Seq<FileManagerConflictDecision>,
    decision: FileManagerConflictDecision,
)
    requires
        0 <= i < conflicts.len(),
        decided_up_to(conflicts, i, before),
        decision.path@ == conflicts[i].path@,
    ensures
        decided_up_to(conflicts, i + 1, before.push(decision)),
{
    assert forall|k: int| 0 <= k < i + 1 implies conflict::decision_at(
        (#[trigger] conflicts[k]).path@,
        before.push(decision),
    ) is Some by {
        lemma_decision_stays(conflicts[k].path@, before, decision);
    }
}

// ---------------------------------------------------------------------------
// Publishing
// ---------------------------------------------------------------------------

/// A step of publishing what was extracted.
#[derive(Clone, Debug, PartialEq, Eq)]
pub enum PublishMove {
    /// What stands at the path is set aside under a number.
    SetAside { path: String, backup: u64 },
    /// An extracted entry is moved to its place.
    Place { from: String, to: String },
}

/// A step over texts: setting aside is moving into a quarantine.
pub open spec fn move_kind(step: PublishMove) -> KindModel {
    match step {
        PublishMove::SetAside { path, backup } => KindModel::Quarantine {
            path: path@,
            name: text::decimal_digits(backup as nat),
        },
        PublishMove::Place { from, to } => KindModel::Relocate { from: from@, to: to@ },
    }
}

/// The steps over texts.
pub open spec fn move_kinds(steps: Seq<PublishMove>) -> Seq<KindModel> {
    steps.map_values(|step: PublishMove| move_kind(step))
}

/// How far a publication comes.
#[derive(Clone, Debug, PartialEq, Eq)]
pub struct Publication {
    pub moves: Vec<PublishMove>,
    pub next_backup: u64,
    /// The conflict at which it stops.
    pub conflict: Option<FileManagerConflict>,
    /// It stops at a name that is no text.
    pub not_text: bool,
}

/// How far a publication comes, over texts.
pub struct PublicationModel {
    pub moves: Seq<KindModel>,
    pub next_backup: u64,
    pub conflict: Option<ConflictModel>,
    pub not_text: bool,
}

impl PublicationModel {
    /// It does not come to its end.
    pub open spec fn stops(self) -> bool {
        self.conflict is Some || self.not_text
    }
}

/// The conflict over texts.
pub open spec fn conflict_model(conflict: Option<FileManagerConflict>) -> Option<ConflictModel> {
    match conflict {
        Some(held) => Some(
            ConflictModel {
                path: held.path@,
                existing_kind: held.existing_kind,
                incoming_kind: held.incoming_kind,
            },
        ),
        None => None,
    }
}

/// The publication over texts.
pub open spec fn publication_model(publication: Publication) -> PublicationModel {
    PublicationModel {
        moves: move_kinds(publication.moves@),
        next_backup: publication.next_backup,
        conflict: conflict_model(publication.conflict),
        not_text: publication.not_text,
    }
}

/// The publication of a tree at a place. Directories are merged; what else
/// stands in the way is set aside, left alone, or stops the publication, as was
/// decided.
pub open spec fn published(
    source: Entry,
    target: Option<Entry>,
    from: Seq<char>,
    to: Seq<char>,
    backup: u64,
    decisions: Seq<FileManagerConflictDecision>,
) -> PublicationModel
    decreases source, 0nat,
{
    match target {
        None => PublicationModel {
            moves: seq![KindModel::Relocate { from, to }],
            next_backup: backup,
            conflict: None,
            not_text: false,
        },
        Some(existing) => match (source, existing) {
            (
                Entry::Directory { children, .. },
                Entry::Directory { children: held, .. },
            ) => published_children(children@, held@, from, to, backup, decisions),
            _ => match conflict::decision_at(to, decisions) {
                Some(FileManagerConflictAction::Skip) => PublicationModel {
                    moves: Seq::empty(),
                    next_backup: backup,
                    conflict: None,
                    not_text: false,
                },
                Some(FileManagerConflictAction::Overwrite) => PublicationModel {
                    moves: seq![
                        KindModel::Quarantine {
                            path: to,
                            name: text::decimal_digits(backup as nat),
                        },
                        KindModel::Relocate { from, to },
                    ],
                    next_backup: limits::saturating_sum(backup, 1),
                    conflict: None,
                    not_text: false,
                },
                None => PublicationModel {
                    moves: Seq::empty(),
                    next_backup: backup,
                    conflict: Some(
                        ConflictModel {
                            path: to,
                            existing_kind: existing.entry_kind(),
                            incoming_kind: source.entry_kind(),
                        },
                    ),
                    not_text: false,
                },
            },
        },
    }
}

/// The publication of the entries of a directory, one after the other, up to the
/// first that stops.
pub open spec fn published_children(
    children: Seq<Entry>,
    held: Seq<Entry>,
    from: Seq<char>,
    to: Seq<char>,
    backup: u64,
    decisions: Seq<FileManagerConflictDecision>,
) -> PublicationModel
    decreases children, 1nat,
{
    if children.len() == 0 {
        PublicationModel { moves: Seq::empty(), next_backup: backup, conflict: None, not_text: false }
    } else {
        let before = published_children(children.drop_last(), held, from, to, backup, decisions);
        if before.stops() {
            before
        } else if !children.last().is_text() {
            PublicationModel { not_text: true, ..before }
        } else {
            let name = children.last().entry_text();
            let inner = published(
                children.last(),
                tree::child_named(held, children.last().entry_name()),
                path::joined(from, name),
                to + "/"@ + name,
                before.next_backup,
                decisions,
            );
            PublicationModel {
                moves: before.moves + inner.moves,
                next_backup: inner.next_backup,
                conflict: inner.conflict,
                not_text: inner.not_text,
            }
        }
    }
}

proof fn lemma_publication_stops(
    children: Seq<Entry>,
    held: Seq<Entry>,
    from: Seq<char>,
    to: Seq<char>,
    backup: u64,
    decisions: Seq<FileManagerConflictDecision>,
    n: int,
)
    requires
        0 <= n <= children.len(),
        published_children(children.take(n), held, from, to, backup, decisions).stops(),
    ensures
        published_children(children, held, from, to, backup, decisions) == published_children(
            children.take(n),
            held,
            from,
            to,
            backup,
            decisions,
        ),
    decreases children.len(),
{
    if n == children.len() {
        assert(children.take(n) =~= children);
    } else {
        assert(children.drop_last().take(n) =~= children.take(n));
        lemma_publication_stops(children.drop_last(), held, from, to, backup, decisions, n);
    }
}

/// The steps that publish an extracted tree at a place, up to a conflict that
/// has not been decided or a name that is no text. What is set aside is numbered from `backup` on.
#[verifier::loop_isolation(false)]
pub fn publish_staged_entry(
    source: &Entry,
    target: Option<&Entry>,
    from: &str,
    to: &str,
    backup: u64,
    decisions: &Vec<FileManagerConflictDecision>,
) -> (publication: Publication)
    ensures
        publication_model(publication) == published(
            *source,
            conflict::opt_entry(target),
            from@,
            to@,
            backup,
            decisions@,
        ),
    decreases source,
{
    let mut moves: Vec<PublishMove> = Vec::new();
    assert(move_kinds(moves@) =~= Seq::<KindModel>::empty());
    let existing = match target {
        None => {
            moves.push(PublishMove::Place { from: from.to_owned(), to: to.to_owned() });
            assert(move_kinds(moves@) =~= seq![KindModel::Relocate { from: from@, to: to@ }]);
            return Publication { moves, next_backup: backup, conflict: None, not_text: false };
        },
        Some(existing) => existing,
    };
    match (source, existing) {
        (Entry::Directory { children, .. }, Entry::Directory { children: held, .. }) => {
            let mut next: u64 = backup;
            assert(children@.take(0) =~= Seq::<Entry>::empty());
            for i in 0..children.len()
                invariant
                    decreases_to!(source => children),
                    published_children(
                        children@.take(i as int),
                        held@,
                        from@,
                        to@,
                        backup,
                        decisions@,
                    ) == (PublicationModel {
                        moves: move_kinds(moves@),
                        next_backup: next,
                        conflict: None,
                        not_text: false,
                    }),
            {
                proof {
                    assert(children@.take(i + 1).drop_last() =~= children@.take(i as int));
                    assert(children@.take(i + 1).last() == children@[i as int]);
                }
                let child = &children[i];
                let name = match child.text() {
                    None => {
                        proof {
                            lemma_publication_stops(
                                children@,
                                held@,
                                from@,
                                to@,
                                backup,
                                decisions@,
                                i + 1,
                            );
                        }
                        return Publication {
                            moves,
                            next_backup: next,
                            conflict: None,
                            not_text: true,
                        };
                    },
                    Some(name) => name,
                };
                let child_from = path::join(from, name.as_str());
                let child_to = text::concat3(to, "/", name.as_str());
                let child_target = tree::find_child(held, child.name());
                let inner = publish_staged_entry(
                    child,
                    child_target,
                    child_from.as_str(),
                    child_to.as_str(),
                    next,
                    decisions,
                );
                let ghost before = move_kinds(moves@);
                let ghost added = move_kinds(inner.moves@);
                let mut more = inner.moves;
                moves.append(&mut more);
                assert(move_kinds(moves@) =~= before + added);
                next = inner.next_backup;
                if inner.conflict.is_some() || inner.not_text {
                    proof {
                        lemma_publication_stops(
                            children@,
                            held@,
                            from@,
                            to@,
                            backup,
                            decisions@,
                            i + 1,
                        );
                    }
                    return Publication {
                        moves,
                        next_backup: next,
                        conflict: inner.conflict,
                        not_text: inner.not_text,
                    };
                }
            }
            assert(children@.take(children@.len() as int) =~= children@);
            Publication { moves, next_backup: next, conflict: None, not_text: false }
        },
        _ => match conflict::decision_for(to, decisions) {
            Some(FileManagerConflictAction::Skip) => Publication {
                moves,
                next_backup: backup,
                conflict: None,
                not_text: false,
            },
            Some(FileManagerConflictAction::Overwrite) => {
                moves.push(PublishMove::SetAside { path: to.to_owned(), backup });
                moves.push(PublishMove::Place { from: from.to_owned(), to: to.to_owned() });
                assert(move_kinds(moves@) =~= seq![
                    KindModel::Quarantine {
                        path: to@,
                        name: text::decimal_digits(backup as nat),
                    },
                    KindModel::Relocate { from: from@, to: to@ },
                ]);
                Publication { moves, next_backup: backup.saturating_add(1), conflict: None, not_text: false }
            },
            None => Publication {
                moves,
                next_backup: backup,
                conflict: Some(
                    FileManagerConflict {
                        path: to.to_owned(),
                        existing_kind: existing.kind(),
                        incoming_kind: source.kind(),
                    },
                ),
                not_text: false,
            },
        },
    }
}

/// A step of rolling a publication back.
#[derive(Clone, Debug, PartialEq, Eq)]
pub enum BackMove {
    /// What was set aside is put back.
    PutBack { backup: u64, path: String },
    /// A published entry is moved back to where it was extracted.
    Withdraw { from: String, to: String },
}

/// The step undoes the other one.
pub open spec fn undoes(back: BackMove, step: PublishMove) -> bool {
    match step {
        PublishMove::SetAside { path, backup } => back matches BackMove::PutBack {
            backup: number,
            path: place,
        } && number == backup && place@ == path@,
        PublishMove::Place { from, to } => back matches BackMove::Withdraw {
            from: place,
            to: origin,
        } && place@ == to@ && origin@ == from@,
    }
}

/// The steps that roll back a publication of which `done` steps were taken, the
/// last one first.
pub fn rollback_publish(moves: &Vec<PublishMove>, done: usize) -> (back: Vec<BackMove>)
    requires
        done <= moves@.len(),
    ensures
        back@.len() == done,
        forall|i: int| 0 <= i < done ==> undoes(#[trigger] back@[i], moves@[done - 1 - i]),
{
    let mut back: Vec<BackMove> = Vec::new();
    for i in 0..done
        invariant
            done <= moves@.len(),
            back@.len() == i,
            forall|k: int| 0 <= k < i ==> undoes(#[trigger] back@[k], moves@[done - 1 - k]),
    {
        let step = match &moves[done - 1 - i] {
            PublishMove::SetAside { path, backup } => BackMove::PutBack {
                backup: *backup,
                path: path.clone(),
            },
            PublishMove::Place { from, to } => BackMove::Withdraw {
                from: to.clone(),
                to: from.clone(),
            },
        };
        back.push(step);
    }
    back
}

/// The numbers under which the moves set entries aside lie between the bounds,
/// and no number is used twice.
pub open spec fn numbered(moves: Seq<KindModel>, from: nat, to: nat) -> bool {
    &&& forall|i: int|
        0 <= i < moves.len() ==> ((#[trigger] moves[i]) matches KindModel::Quarantine { name, .. }
            ==> exists|n: nat| from <= n < to && name == #[trigger] text::decimal_digits(n))
    &&& forall|i: int, j: int|
        0 <= i < j < moves.len() && actions::held_name(#[trigger] moves[i]) is Some
            ==> actions::held_name(moves[i]) != actions::held_name(#[trigger] moves[j])
    &&& forall|i: int| 0 <= i < moves.len() ==> !((#[trigger] moves[i]) is Created)
}

proof fn lemma_numbered_append(a: Seq<KindModel>, b: Seq<KindModel>, from: nat, mid: nat, to: nat)
    requires
        from <= mid <= to,
        numbered(a, from, mid),
        numbered(b, mid, to),
    ensures
        numbered(a + b, from, to),
{
    let both = a + b;
    assert forall|i: int| 0 <= i < both.len() implies ((
    #[trigger] both[i]) matches KindModel::Quarantine { name, .. } ==> exists|n: nat|
        from <= n < to && name == #[trigger] text::decimal_digits(n)) by {
        if i < a.len() {
            assert(both[i] == a[i]);
            if let KindModel::Quarantine { name, .. } = a[i] {
                let n = choose|n: nat| from <= n < mid && name == #[trigger] text::decimal_digits(n);
                assert(from <= n < to && name == text::decimal_digits(n));
            }
        } else {
            assert(both[i] == b[i - a.len()]);
            if let KindModel::Quarantine { name, .. } = b[i - a.len()] {
                let n = choose|n: nat| mid <= n < to && name == #[trigger] text::decimal_digits(n);
                assert(from <= n < to && name == text::decimal_digits(n));
            }
        }
    }
    assert forall|i: int| 0 <= i < both.len() implies !((#[trigger] both[i]) is Created) by {
        if i < a.len() {
            assert(both[i] == a[i]);
        } else {
            assert(both[i] == b[i - a.len()]);
        }
    }
    assert forall|i: int, j: int|
        0 <= i < j < both.len() && actions::held_name(
            #[trigger] both[i],
        ) is Some implies actions::held_name(both[i]) != actions::held_name(#[trigger] both[j]) by {
        if j < a.len() {
            assert(both[i] == a[i] && both[j] == a[j]);
        } else if i >= a.len() {
            assert(both[i] == b[i - a.len()] && both[j] == b[j - a.len()]);
        } else {
            assert(both[i] == a[i] && both[j] == b[j - a.len()]);
            if let KindModel::Quarantine { name, .. } = a[i] {
                if let KindModel::Quarantine { name: other, .. } = b[j - a.len()] {
                    let m = choose|n: nat|
                        from <= n < mid && name == #[trigger] text::decimal_digits(n);
                    let n = choose|n: nat|
                        mid <= n < to && other == #[trigger] text::decimal_digits(n);
                    text::lemma_decimal_value(m);
                    text::lemma_decimal_value(n);
                }
            }
        }
    }
}

proof fn lemma_published_numbers(
    source: Entry,
    target: Option<Entry>,
    from: Seq<char>,
    to: Seq<char>,
    backup: u64,
    decisions: Seq<FileManagerConflictDecision>,
)
    ensures
        published(source, target, from, to, backup, decisions).next_backup >= backup,
        published(source, target, from, to, backup, decisions).next_backup < u64::MAX ==> numbered(
            published(source, target, from, to, backup, decisions).moves,
            backup as nat,
            published(source, target, from, to, backup, decisions).next_backup as nat,
        ),
    decreases source, 0nat,
{
    match target {
        None => {},
        Some(existing) => match (source, existing) {
            (Entry::Directory { children, .. }, Entry::Directory { children: held, .. }) => {
                lemma_children_numbers(children@, held@, from, to, backup, decisions);
            },
            _ => {
                assert(text::decimal_digits(backup as nat) == text::decimal_digits(backup as nat));
            },
        },
    }
}

proof fn lemma_children_numbers(
    children: Seq<Entry>,
    held: Seq<Entry>,
    from: Seq<char>,
    to: Seq<char>,
    backup: u64,
    decisions: Seq<FileManagerConflictDecision>,
)
    ensures
        published_children(children, held, from, to, backup, decisions).next_backup >= backup,
        published_children(children, held, from, to, backup, decisions).next_backup < u64::MAX
            ==> numbered(
            published_children(children, held, from, to, backup, decisions).moves,
            backup as nat,
            published_children(children, held, from, to, backup, decisions).next_backup as nat,
        ),
    decreases children, 1nat,
{
    if children.len() > 0 {
        lemma_children_numbers(children.drop_last(), held, from, to, backup, decisions);
        let before = published_children(children.drop_last(), held, from, to, backup, decisions);
        if !before.stops() && children.last().is_text() {
            let name = children.last().entry_text();
            let target = tree::child_named(held, children.last().entry_name());
            let inner = published(
                children.last(),
                target,
                path::joined(from, name),
                to + "/"@ + name,
                before.next_backup,
                decisions,
            );
            lemma_published_numbers(
                children.last(),
                target,
                path::joined(from, name),
                to + "/"@ + name,
                before.next_backup,
                decisions,
            );
            if inner.next_backup < u64::MAX {
                lemma_numbered_append(
                    before.moves,
                    inner.moves,
                    backup as nat,
                    before.next_backup as nat,
                    inner.next_backup as nat,
                );
            }
        }
    }
}

/// The deeds of a publication: it creates nothing.
pub open spec fn deeds_of(moves: Seq<KindModel>) -> Seq<Deed> {
    moves.map_values(|kind: KindModel| Deed { kind, creates: Map::empty() })
}

/// Rolling back a publication gives the root back as it was, however many of its
/// steps were taken.
pub proof fn rolled_back_publications_leave_no_trace(
    source: Entry,
    target: Option<Entry>,
    from: Seq<char>,
    to: Seq<char>,
    decisions: Seq<FileManagerConflictDecision>,
    start: Space,
    done: int,
)
    requires
        ({
            let model = published(source, target, from, to, 0, decisions);
            &&& model.next_backup < u64::MAX
            &&& 0 <= done <= model.moves.len()
            &&& actions::can_all_be_done(start, deeds_of(model.moves.take(done)))
        }),
    ensures
        ({
            let deeds = deeds_of(published(source, target, from, to, 0, decisions).moves.take(done));
            actions::after_undo(actions::after_deeds(start, deeds), deeds).visible == start.visible
        }),
{
    let moves = published(source, target, from, to, 0, decisions).moves;
    lemma_published_numbers(source, target, from, to, 0, decisions);
    let deeds = deeds_of(moves.take(done));
    assert forall|i: int, j: int|
        0 <= i < j < deeds.len() && actions::held_name(
            (#[trigger] deeds[i]).kind,
        ) is Some implies actions::held_name(deeds[i].kind) != actions::held_name(
        (#[trigger] deeds[j]).kind,
    ) by {
        assert(deeds[i].kind == moves[i] && deeds[j].kind == moves[j]);
    }
    actions::undo_restores_the_root(start, deeds);
}

/// A publication sets aside only what was decided to be replaced.
pub proof fn publications_replace_only_what_was_decided(
    source: Entry,
    target: Option<Entry>,
    from: Seq<char>,
    to: Seq<char>,
    backup: u64,
    decisions: Seq<FileManagerConflictDecision>,
    k: int,
)
    requires
        0 <= k < published(source, target, from, to, backup, decisions).moves.len(),
    ensures
        published(source, target, from, to, backup, decisions).moves[k] matches KindModel::Quarantine {
            path,
            ..
        } ==> conflict::decision_at(path, decisions) == Some(FileManagerConflictAction::Overwrite),
    decreases source, 0nat,
{
    match target {
        None => {},
        Some(existing) => match (source, existing) {
            (Entry::Directory { children, .. }, Entry::Directory { children: held, .. }) => {
                lemma_children_replace_decided(children@, held@, from, to, backup, decisions, k);
            },
            _ => {},
        },
    }
}

proof fn lemma_children_replace_decided(
    children: Seq<Entry>,
    held: Seq<Entry>,
    from: Seq<char>,
    to: Seq<char>,
    backup: u64,
    decisions: Seq<FileManagerConflictDecision>,
    k: int,
)
    requires
        0 <= k < published_children(children, held, from, to, backup, decisions).moves.len(),
    ensures
        published_children(children, held, from, to, backup, decisions).moves[k] matches
            KindModel::Quarantine { path, .. } ==> conflict::decision_at(path, decisions) == Some(
            FileManagerConflictAction::Overwrite,
        ),
    decreases children, 1nat,
{
    let before = published_children(children.drop_last(), held, from, to, backup, decisions);
    if k < before.moves.len() {
        lemma_children_replace_decided(
            children.drop_last(),
            held,
            from,
            to,
            backup,
            decisions,
            k,
        );
    } else {
        let name = children.last().entry_text();
        publications_replace_only_what_was_decided(
            children.last(),
            tree::child_named(held, children.last().entry_name()),
            path::joined(from, name),
            to + "/"@ + name,
            before.next_backup,
            decisions,
            k - before.moves.len(),
        );
    }
}

// ---------------------------------------------------------------------------
// The course of an extraction
// ---------------------------------------------------------------------------

/// What is done next for an extraction.
#[derive(Clone, Copy, Debug, PartialEq, Eq, Structural)]
pub enum ExtractStage {
    /// Open the archive and make the directories for staging and rollback.
    Staging,
    /// Unpack the archive into the staging directory.
    Unpacking,
    /// See that only files and directories came out, and not too many.
    Validating,
    /// Make the unpacked entries durable.
    Syncing,
    /// Compare them with the destination.
    Comparing,
    /// Ask about a conflict.
    Asking,
    /// Move the unpacked entries to the destination.
    Publishing,
    /// Put back what was moved, after a conflict or a failure.
    RollingBack { conflict: bool },
    /// Ask about the conflict that was found late.
    AskingLate,
    /// The archive has been extracted.
    Extracted,
    /// The extraction failed. What it moved could be put back, or not.
    Failed { put_back: bool },
}

/// What came of a step of an extraction.
#[derive(Clone, Copy, Debug, PartialEq, Eq, Structural)]
pub enum ExtractHappened {
    Succeeded,
    Failed,
    /// There is a conflict that nothing was decided about.
    Conflict,
}

/// What is done after a step of an extraction.
pub open spec fn next_extract_stage(stage: ExtractStage, happened: ExtractHappened) -> ExtractStage {
    let ok = happened == ExtractHappened::Succeeded;
    match stage {
        ExtractStage::Extracted => stage,
        ExtractStage::Failed { put_back } => stage,
        ExtractStage::Comparing => match happened {
            ExtractHappened::Succeeded => ExtractStage::Publishing,
            ExtractHappened::Conflict => ExtractStage::Asking,
            ExtractHappened::Failed => ExtractStage::Failed { put_back: true },
        },
        ExtractStage::Publishing => match happened {
            ExtractHappened::Succeeded => ExtractStage::Extracted,
            ExtractHappened::Conflict => ExtractStage::RollingBack { conflict: true },
            ExtractHappened::Failed => ExtractStage::RollingBack { conflict: false },
        },
        ExtractStage::RollingBack { conflict } => if !ok {
            ExtractStage::Failed { put_back: false }
        } else if conflict {
            ExtractStage::AskingLate
        } else {
            ExtractStage::Failed { put_back: true }
        },
        _ => if !ok {
            ExtractStage::Failed { put_back: true }
        } else {
            match stage {
                ExtractStage::Staging => ExtractStage::Unpacking,
                ExtractStage::Unpacking => ExtractStage::Validating,
                ExtractStage::Validating => ExtractStage::Syncing,
                ExtractStage::Syncing => ExtractStage::Comparing,
                ExtractStage::Asking => ExtractStage::Comparing,
                _ => ExtractStage::Publishing,
            }
        },
    }
}

/// What is done after a step of an extraction.
pub fn extract(stage: ExtractStage, happened: ExtractHappened) -> (next: ExtractStage)
    ensures
        next == next_extract_stage(stage, happened),
{
    let ok = happened == ExtractHappened::Succeeded;
    match stage {
        ExtractStage::Extracted => stage,
        ExtractStage::Failed { put_back: _ } => stage,
        ExtractStage::Comparing => match happened {
            ExtractHappened::Succeeded => ExtractStage::Publishing,
            ExtractHappened::Conflict => ExtractStage::Asking,
            ExtractHappened::Failed => ExtractStage::Failed { put_back: true },
        },
        ExtractStage::Publishing => match happened {
            ExtractHappened::Succeeded => ExtractStage::Extracted,
            ExtractHappened::Conflict => ExtractStage::RollingBack { conflict: true },
            ExtractHappened::Failed => ExtractStage::RollingBack { conflict: false },
        },
        ExtractStage::RollingBack { conflict } => if !ok {
            ExtractStage::Failed { put_back: false }
        } else if conflict {
            ExtractStage::AskingLate
        } else {
            ExtractStage::Failed { put_back: true }
        },
        _ => if !ok {
            ExtractStage::Failed { put_back: true }
        } else {
            match stage {
                ExtractStage::Staging => ExtractStage::Unpacking,
                ExtractStage::Unpacking => ExtractStage::Validating,
                ExtractStage::Validating => ExtractStage::Syncing,
                ExtractStage::Syncing => ExtractStage::Comparing,
                ExtractStage::Asking => ExtractStage::Comparing,
                _ => ExtractStage::Publishing,
            }
        },
    }
}

/// Nothing is moved to the destination before the archive was unpacked, looked
/// through and compared, and a publication that does not succeed is rolled back
/// before anything else is done.
pub proof fn extractions_publish_last(stage: ExtractStage, happened: ExtractHappened)
    ensures
        next_extract_stage(stage, happened) is Publishing ==> (stage is Comparing
            || stage is AskingLate) && happened == ExtractHappened::Succeeded,
        stage is Publishing && happened != ExtractHappened::Succeeded ==> next_extract_stage(
            stage,
            happened,
        ) is RollingBack,
        next_extract_stage(stage, happened) == (ExtractStage::Failed { put_back: false }) ==> stage
            is RollingBack || stage is Failed,
{
}

proof fn lemma_child_publication(
    children: Seq<Entry>,
    held: Seq<Entry>,
    from: Seq<char>,
    to: Seq<char>,
    backup: u64,
    decisions: Seq<FileManagerConflictDecision>,
    i: int,
) -> (place: (nat, u64))
    requires
        0 <= i < children.len(),
        !published_children(children, held, from, to, backup, decisions).stops(),
    ensures
        ({
            let all = published_children(children, held, from, to, backup, decisions);
            let part = published(
                children[i],
                tree::child_named(held, children[i].entry_name()),
                path::joined(from, children[i].entry_text()),
                to + "/"@ + children[i].entry_text(),
                place.1,
                decisions,
            );
            &&& !part.stops()
            &&& children[i].is_text()
            &&& place.0 + part.moves.len() <= all.moves.len()
            &&& all.moves.subrange(place.0 as int, (place.0 + part.moves.len()) as int)
                == part.moves
        }),
    decreases children.len(),
{
    let rest = children.drop_last();
    let before = published_children(rest, held, from, to, backup, decisions);
    let all = published_children(children, held, from, to, backup, decisions);
    if i < rest.len() {
        let place = lemma_child_publication(rest, held, from, to, backup, decisions, i);
        let part = published(
            children[i],
            tree::child_named(held, children[i].entry_name()),
            path::joined(from, children[i].entry_text()),
            to + "/"@ + children[i].entry_text(),
            place.1,
            decisions,
        );
        let end = (place.0 + part.moves.len()) as int;
        assert(all.moves.subrange(place.0 as int, end) =~= before.moves.subrange(
            place.0 as int,
            end,
        ));
        place
    } else {
        let part = published(
            children[i],
            tree::child_named(held, children[i].entry_name()),
            path::joined(from, children[i].entry_text()),
            to + "/"@ + children[i].entry_text(),
            before.next_backup,
            decisions,
        );
        let at = before.moves.len();
        assert(all.moves.subrange(at as int, (at + part.moves.len()) as int) =~= part.moves);
        (at, before.next_backup)
    }
}

/// A publication that comes to its end brings every extracted entry to its place,
/// however deep it lies: where nothing stands it is moved there as a whole, and where
/// something stands that it cannot be merged with, that is set aside right before if
/// so decided. Nothing is left undecided.
pub proof fn publications_bring_everything(
    source: Entry,
    target: Option<Entry>,
    from: Seq<char>,
    to: Seq<char>,
    backup: u64,
    decisions: Seq<FileManagerConflictDecision>,
    way: Seq<int>,
)
    requires
        !published(source, target, from, to, backup, decisions).stops(),
        conflict::is_met(source, target, way),
    ensures
        ({
            let moves = published(source, target, from, to, backup, decisions).moves;
            let place = tree::path_along(source, to, way);
            let brought = KindModel::Relocate {
                from: conflict::joined_along(source, from, way),
                to: place,
            };
            match conflict::met_along(source, target, way) {
                None => moves.contains(brought),
                Some(_) => match conflict::decision_at(place, decisions) {
                    Some(FileManagerConflictAction::Overwrite) => exists|k: int|
                        {
                            &&& 0 <= k < moves.len() - 1
                            &&& (#[trigger] moves[k]) matches KindModel::Quarantine { path, .. }
                                && path == place
                            &&& moves[k + 1] == brought
                        },
                    Some(FileManagerConflictAction::Skip) => true,
                    None => false,
                },
            }
        }),
    decreases way.len(),
{
    let moves = published(source, target, from, to, backup, decisions).moves;
    if way.len() == 0 {
        if target is None {
            assert(moves[0] == KindModel::Relocate { from, to });
        } else if conflict::decision_at(to, decisions) == Some(
            FileManagerConflictAction::Overwrite,
        ) {
            assert(moves[0] is Quarantine);
            assert(moves[1] == KindModel::Relocate { from, to });
        }
    } else {
        let children = source.entries();
        let held = target->Some_0.entries();
        let next = children[way[0]];
        let found = lemma_child_publication(children, held, from, to, backup, decisions, way[0]);
        let at = found.0 as int;
        let met = tree::child_named(held, next.entry_name());
        let inner_from = path::joined(from, next.entry_text());
        let inner_to = to + "/"@ + next.entry_text();
        publications_bring_everything(
            next,
            met,
            inner_from,
            inner_to,
            found.1,
            decisions,
            way.drop_first(),
        );
        let part = published(next, met, inner_from, inner_to, found.1, decisions).moves;
        assert forall|k: int| 0 <= k < part.len() implies moves[at + k] == #[trigger] part[k] by {
            assert(moves.subrange(at, at + part.len())[k] == moves[at + k]);
        }
        let place = tree::path_along(source, to, way);
        let brought = KindModel::Relocate {
            from: conflict::joined_along(source, from, way),
            to: place,
        };
        if conflict::met_along(source, target, way) is None {
            let k = part.index_of(brought);
            assert(part[k] == brought);
            assert(moves[at + k] == brought);
        } else if conflict::decision_at(place, decisions) == Some(
            FileManagerConflictAction::Overwrite,
        ) {
            let k = choose|k: int|
                {
                    &&& 0 <= k < part.len() - 1
                    &&& (#[trigger] part[k]) matches KindModel::Quarantine { path, .. } && path
                        == place
                    &&& part[k + 1] == brought
                };
            let next_move = part[k + 1];
            assert(moves[at + k] == part[k]);
            assert(moves[at + (k + 1)] == part[k + 1]);
            assert(moves[(at + k) + 1] == brought);
        }
    }
}

/// What a publication moves, where it moves it to.
pub open spec fn publishes(
    source: Entry,
    target: Option<Entry>,
    from: Seq<char>,
    to: Seq<char>,
    decisions: Seq<FileManagerConflictDecision>,
    kind: KindModel,
    way: Seq<int>,
) -> bool {
    let place = tree::path_along(source, to, way);
    let decided = conflict::decision_at(place, decisions) == Some(
        FileManagerConflictAction::Overwrite,
    );
    &&& conflict::is_met(source, target, way)
    &&& match kind {
        KindModel::Relocate { from: start, to: end } => {
            &&& start == conflict::joined_along(source, from, way)
            &&& end == place
            &&& conflict::met_along(source, target, way) is None || decided
        },
        KindModel::Quarantine { path, .. } => {
            &&& path == place
            &&& conflict::met_along(source, target, way) is Some
            &&& decided
        },
        KindModel::Created { .. } => false,
    }
}

/// The conflict at which a publication stops.
pub open spec fn stops_at(
    source: Entry,
    target: Option<Entry>,
    to: Seq<char>,
    decisions: Seq<FileManagerConflictDecision>,
    found: ConflictModel,
    way: Seq<int>,
) -> bool {
    let place = tree::path_along(source, to, way);
    &&& conflict::is_met(source, target, way)
    &&& conflict::met_along(source, target, way) is Some
    &&& conflict::decision_at(place, decisions) is None
    &&& found == ConflictModel {
        path: place,
        existing_kind: conflict::met_along(source, target, way)->Some_0.entry_kind(),
        incoming_kind: tree::entry_along(source, way).entry_kind(),
    }
}

proof fn lemma_way_into(source: Entry, target: Option<Entry>, i: int, rest: Seq<int>)
    requires
        source is Directory,
        target is Some,
        target->Some_0 is Directory,
        0 <= i < source.entries().len(),
        conflict::is_met(
            source.entries()[i],
            tree::child_named(target->Some_0.entries(), source.entries()[i].entry_name()),
            rest,
        ),
    ensures
        conflict::is_met(source, target, seq![i] + rest),
        conflict::met_along(source, target, seq![i] + rest) == conflict::met_along(
            source.entries()[i],
            tree::child_named(target->Some_0.entries(), source.entries()[i].entry_name()),
            rest,
        ),
        tree::entry_along(source, seq![i] + rest) == tree::entry_along(source.entries()[i], rest),
        forall|top: Seq<char>| #[trigger]
            conflict::joined_along(source, top, seq![i] + rest) == conflict::joined_along(
                source.entries()[i],
                path::joined(top, source.entries()[i].entry_text()),
                rest,
            ),
        forall|top: Seq<char>| #[trigger]
            tree::path_along(source, top, seq![i] + rest) == tree::path_along(
                source.entries()[i],
                top + "/"@ + source.entries()[i].entry_text(),
                rest,
            ),
{
    assert((seq![i] + rest).drop_first() =~= rest);
}

/// A publication moves nothing else: each move is of an extracted entry, to its own
/// place, where nothing stands or what stands there was decided to go; and only what
/// was so decided is set aside.
pub proof fn publications_bring_nothing_else(
    source: Entry,
    target: Option<Entry>,
    from: Seq<char>,
    to: Seq<char>,
    backup: u64,
    decisions: Seq<FileManagerConflictDecision>,
    k: int,
) -> (way: Seq<int>)
    requires
        0 <= k < published(source, target, from, to, backup, decisions).moves.len(),
    ensures
        publishes(
            source,
            target,
            from,
            to,
            decisions,
            published(source, target, from, to, backup, decisions).moves[k],
            way,
        ),
    decreases source, 0nat, 0int,
{
    if target is Some && source is Directory && target->Some_0 is Directory {
        match source {
            Entry::Directory { children, .. } => {
                assert(children@.take(children@.len() as int) =~= children@);
                assert(decreases_to!(source => children));
                assert(decreases_to!(children => children@));
                lemma_children_bring_nothing_else(
                    source,
                    target,
                    children@.len() as int,
                    from,
                    to,
                    backup,
                    decisions,
                    k,
                )
            },
            _ => Seq::empty(),
        }
    } else {
        Seq::empty()
    }
}

proof fn lemma_children_bring_nothing_else(
    source: Entry,
    target: Option<Entry>,
    n: int,
    from: Seq<char>,
    to: Seq<char>,
    backup: u64,
    decisions: Seq<FileManagerConflictDecision>,
    k: int,
) -> (way: Seq<int>)
    requires
        source is Directory,
        target is Some,
        target->Some_0 is Directory,
        0 <= n <= source.entries().len(),
        0 <= k < published_children(
            source.entries().take(n),
            target->Some_0.entries(),
            from,
            to,
            backup,
            decisions,
        ).moves.len(),
    ensures
        publishes(
            source,
            target,
            from,
            to,
            decisions,
            published_children(
                source.entries().take(n),
                target->Some_0.entries(),
                from,
                to,
                backup,
                decisions,
            ).moves[k],
            way,
        ),
    decreases source.entries(), 1nat, n,
{
    let children = source.entries();
    let held = target->Some_0.entries();
    let part = children.take(n);
    let rest = children.take(n - 1);
    assert(part.drop_last() =~= rest);
    assert(part.last() == children[n - 1]);
    let before = published_children(rest, held, from, to, backup, decisions);
    if k < before.moves.len() {
        lemma_children_bring_nothing_else(source, target, n - 1, from, to, backup, decisions, k)
    } else {
        let next = children[n - 1];
        let met = tree::child_named(held, next.entry_name());
        assert(decreases_to!(children => children[n - 1]));
        let inner = publications_bring_nothing_else(
            next,
            met,
            path::joined(from, next.entry_text()),
            to + "/"@ + next.entry_text(),
            before.next_backup,
            decisions,
            k - before.moves.len(),
        );
        lemma_way_into(source, target, n - 1, inner);
        seq![n - 1] + inner
    }
}

/// A publication stops only at an entry that meets something that it cannot be merged
/// with and that nothing was decided about, and tells what both are.
pub proof fn publications_stop_at_undecided_conflicts(
    source: Entry,
    target: Option<Entry>,
    from: Seq<char>,
    to: Seq<char>,
    backup: u64,
    decisions: Seq<FileManagerConflictDecision>,
) -> (way: Seq<int>)
    requires
        published(source, target, from, to, backup, decisions).conflict is Some,
    ensures
        stops_at(
            source,
            target,
            to,
            decisions,
            published(source, target, from, to, backup, decisions).conflict->Some_0,
            way,
        ),
    decreases source, 0nat, 0int,
{
    if target is Some && source is Directory && target->Some_0 is Directory {
        match source {
            Entry::Directory { children, .. } => {
                assert(children@.take(children@.len() as int) =~= children@);
                assert(decreases_to!(source => children));
                assert(decreases_to!(children => children@));
                lemma_children_stop_at_undecided_conflicts(
                    source,
                    target,
                    children@.len() as int,
                    from,
                    to,
                    backup,
                    decisions,
                )
            },
            _ => Seq::empty(),
        }
    } else {
        Seq::empty()
    }
}

proof fn lemma_children_stop_at_undecided_conflicts(
    source: Entry,
    target: Option<Entry>,
    n: int,
    from: Seq<char>,
    to: Seq<char>,
    backup: u64,
    decisions: Seq<FileManagerConflictDecision>,
) -> (way: Seq<int>)
    requires
        source is Directory,
        target is Some,
        target->Some_0 is Directory,
        0 <= n <= source.entries().len(),
        published_children(
            source.entries().take(n),
            target->Some_0.entries(),
            from,
            to,
            backup,
            decisions,
        ).conflict is Some,
    ensures
        stops_at(
            source,
            target,
            to,
            decisions,
            published_children(
                source.entries().take(n),
                target->Some_0.entries(),
                from,
                to,
                backup,
                decisions,
            ).conflict->Some_0,
            way,
        ),
    decreases source.entries(), 1nat, n,
{
    let children = source.entries();
    let held = target->Some_0.entries();
    let part = children.take(n);
    let rest = children.take(n - 1);
    assert(part.drop_last() =~= rest);
    assert(part.last() == children[n - 1]);
    let before = published_children(rest, held, from, to, backup, decisions);
    if before.stops() {
        lemma_children_stop_at_undecided_conflicts(
            source,
            target,
            n - 1,
            from,
            to,
            backup,
            decisions,
        )
    } else {
        let next = children[n - 1];
        let met = tree::child_named(held, next.entry_name());
        assert(decreases_to!(children => children[n - 1]));
        let inner = publications_stop_at_undecided_conflicts(
            next,
            met,
            path::joined(from, next.entry_text()),
            to + "/"@ + next.entry_text(),
            before.next_backup,
            decisions,
        );
        lemma_way_into(source, target, n - 1, inner);
        seq![n - 1] + inner
    }
}

/// The stage that an extraction has come to after all that happened.
pub open spec fn extract_stage_after(happened: Seq<ExtractHappened>) -> ExtractStage
    decreases happened.len(),
{
    if happened.len() == 0 {
        ExtractStage::Staging
    } else {
        next_extract_stage(extract_stage_after(happened.drop_last()), happened.last())
    }
}

/// The step was taken on the way, and this came of it.
#[verifier::opaque]
pub open spec fn came_of(
    happened: Seq<ExtractHappened>,
    step: ExtractStage,
    what: ExtractHappened,
) -> bool {
    exists|i: int|
        0 <= i < happened.len() && extract_stage_after(#[trigger] happened.take(i)) == step
            && happened[i] == what
}

/// The step was taken on the way, with success.
pub open spec fn succeeded(happened: Seq<ExtractHappened>, step: ExtractStage) -> bool {
    came_of(happened, step, ExtractHappened::Succeeded)
}

/// The step was taken on the way, without success.
pub open spec fn went_wrong(happened: Seq<ExtractHappened>, step: ExtractStage) -> bool {
    ||| came_of(happened, step, ExtractHappened::Failed)
    ||| came_of(happened, step, ExtractHappened::Conflict)
}

proof fn lemma_came_of(happened: Seq<ExtractHappened>)
    requires
        happened.len() > 0,
    ensures
        came_of(happened, extract_stage_after(happened.drop_last()), happened.last()),
        forall|step: ExtractStage, what: ExtractHappened| #[trigger]
            came_of(happened.drop_last(), step, what) ==> came_of(happened, step, what),
{
    reveal(came_of);
    let before = happened.drop_last();
    let last = happened.len() - 1;
    assert(happened.take(last) =~= before);
    assert(extract_stage_after(happened.take(last)) == extract_stage_after(before));
    assert forall|step: ExtractStage, what: ExtractHappened| #[trigger]
        came_of(before, step, what) implies came_of(happened, step, what) by {
        let i = choose|i: int|
            0 <= i < before.len() && extract_stage_after(#[trigger] before.take(i)) == step
                && before[i] == what;
        assert(happened.take(i) =~= before.take(i));
        assert(extract_stage_after(happened.take(i)) == step);
    }
}

/// What was unpacked has been seen to be files and directories only, has been made
/// durable and was compared with the destination.
pub open spec fn was_looked_at(happened: Seq<ExtractHappened>) -> bool {
    &&& succeeded(happened, ExtractStage::Unpacking)
    &&& succeeded(happened, ExtractStage::Validating)
    &&& succeeded(happened, ExtractStage::Syncing)
    &&& succeeded(happened, ExtractStage::Comparing)
}

/// The end of an extraction tells what became of the destination. Nothing is moved
/// there before everything was unpacked, seen, made durable and compared. It is
/// extracted only once it was published. A failed one has moved nothing or put it
/// back, unless just that went wrong.
pub proof fn extractions_tell_how_they_ended(happened: Seq<ExtractHappened>)
    ensures
        match extract_stage_after(happened) {
            ExtractStage::Publishing | ExtractStage::AskingLate | ExtractStage::RollingBack {
                ..
            } => was_looked_at(happened),
            ExtractStage::Extracted => was_looked_at(happened) && succeeded(
                happened,
                ExtractStage::Publishing,
            ) && happened.len() > 0,
            ExtractStage::Failed { put_back: false } => went_wrong(
                happened,
                ExtractStage::RollingBack { conflict: true },
            ) || went_wrong(happened, ExtractStage::RollingBack { conflict: false }),
            ExtractStage::Validating => succeeded(happened, ExtractStage::Unpacking),
            ExtractStage::Syncing => succeeded(happened, ExtractStage::Unpacking) && succeeded(
                happened,
                ExtractStage::Validating,
            ),
            ExtractStage::Comparing | ExtractStage::Asking => succeeded(
                happened,
                ExtractStage::Unpacking,
            ) && succeeded(happened, ExtractStage::Validating) && succeeded(
                happened,
                ExtractStage::Syncing,
            ),
            _ => true,
        },
        extract_stage_after(happened) == (ExtractStage::RollingBack { conflict: true })
            ==> came_of(happened, ExtractStage::Publishing, ExtractHappened::Conflict),
        extract_stage_after(happened) == (ExtractStage::RollingBack { conflict: false })
            ==> came_of(happened, ExtractStage::Publishing, ExtractHappened::Failed),
        extract_stage_after(happened) is AskingLate ==> succeeded(
            happened,
            ExtractStage::RollingBack { conflict: true },
        ),
        extract_stage_after(happened) is Asking ==> came_of(
            happened,
            ExtractStage::Comparing,
            ExtractHappened::Conflict,
        ),
    decreases happened.len(),
{
    if happened.len() > 0 {
        extractions_tell_how_they_ended(happened.drop_last());
        lemma_came_of(happened);
    }
}

/// A failed extraction leaves a step of the publication undone only if it says so:
/// one that fails while it publishes first rolls back, and one that fails elsewhere
/// has nothing to put back.
pub proof fn failed_extractions_put_back_what_they_moved(stage: ExtractStage)
    requires
        !(stage is Extracted || stage is Failed),
    ensures
        ({
            let next = next_extract_stage(stage, ExtractHappened::Failed);
            &&& stage is Publishing ==> next == (ExtractStage::RollingBack { conflict: false })
            &&& stage is RollingBack ==> next == (ExtractStage::Failed { put_back: false })
            &&& !(stage is Publishing || stage is RollingBack) ==> next == (ExtractStage::Failed {
                put_back: true,
            })
        }),
        next_extract_stage(
            ExtractStage::RollingBack { conflict: false },
            ExtractHappened::Succeeded,
        ) == (ExtractStage::Failed { put_back: true }),
{
}

/// An extraction that nothing goes wrong with is carried out, with or without
/// conflicts on the way: once asked about, a conflict lets it go on.
pub proof fn undisturbed_extractions_are_carried_out(happened: Seq<ExtractHappened>)
    requires
        forall|i: int|
            0 <= i < happened.len() ==> #[trigger] happened[i] == ExtractHappened::Succeeded,
        happened.len() >= 6,
    ensures
        extract_stage_after(happened) is Extracted,
        next_extract_stage(
            next_extract_stage(ExtractStage::Comparing, ExtractHappened::Conflict),
            ExtractHappened::Succeeded,
        ) is Comparing,
        next_extract_stage(
            next_extract_stage(
                next_extract_stage(ExtractStage::Publishing, ExtractHappened::Conflict),
                ExtractHappened::Succeeded,
            ),
            ExtractHappened::Succeeded,
        ) is Publishing,
    decreases happened.len(),
{
    let before = happened.drop_last();
    assert forall|i: int| 0 <= i < before.len() implies #[trigger] before[i]
        == ExtractHappened::Succeeded by {
        assert(before[i] == happened[i]);
    }
    assert(happened[happened.len() - 1] == ExtractHappened::Succeeded);
    if happened.len() > 6 {
        undisturbed_extractions_are_carried_out(before);
    } else {
        reveal_with_fuel(extract_stage_after, 7);
        assert(happened[0] == ExtractHappened::Succeeded);
        assert(happened[1] == ExtractHappened::Succeeded);
        assert(happened[2] == ExtractHappened::Succeeded);
        assert(happened[3] == ExtractHappened::Succeeded);
        assert(happened[4] == ExtractHappened::Succeeded);
    }
}

} // verus!
