//! Cancelling operations.
//!
//! An operation and its cancellation come over separate connections, so either
//! may come first. An early cancellation is remembered for a short while.

use vstd::prelude::*;

use crate::registry::Expires;
use crate::registry::Registry;

verus! {

/// How long a cancellation is remembered that came before its operation, in
/// milliseconds.
pub const PENDING_CANCELLATION_TTL_MS: i64 = 60_000;

/// How many such cancellations are remembered at most.
pub const MAX_PENDING_CANCELLATIONS: usize = 1_024;

/// An operation that runs, perhaps on behalf of several requests.
#[derive(Clone, Copy, Debug, PartialEq, Eq, Structural)]
pub struct ActiveOperation {
    pub cancelled: bool,
    pub registrations: usize,
}

/// A cancellation that came before its operation.
#[derive(Clone, Copy, Debug, PartialEq, Eq, Structural)]
pub struct PendingCancellation {
    pub expires_at: i64,
}

impl Expires for PendingCancellation {
    open spec fn deadline(&self) -> i64 {
        self.expires_at
    }

    fn expires_at(&self) -> (deadline: i64) {
        self.expires_at
    }
}

/// The operations that run, and the cancellations that came before theirs.
pub struct OperationCancellationRegistry {
    pub active: Registry<ActiveOperation>,
    pub pending: Registry<PendingCancellation>,
}

/// The cancellations that are still remembered.
pub open spec fn remembered(
    pending: Map<Seq<char>, PendingCancellation>,
    now: i64,
) -> Map<Seq<char>, PendingCancellation> {
    pending.restrict(pending.dom().filter(|id: Seq<char>| pending[id].expires_at > now))
}

/// The operation runs and has been cancelled.
pub open spec fn is_cancelled(active: Map<Seq<char>, ActiveOperation>, id: Seq<char>) -> bool {
    active.dom().contains(id) && active[id].cancelled
}

/// What a further registration makes of the operation.
pub open spec fn registered(
    active: Map<Seq<char>, ActiveOperation>,
    pending: Map<Seq<char>, PendingCancellation>,
    id: Seq<char>,
    now: i64,
) -> ActiveOperation {
    if active.dom().contains(id) {
        ActiveOperation {
            cancelled: active[id].cancelled,
            registrations: (active[id].registrations + 1) as usize,
        }
    } else {
        ActiveOperation {
            cancelled: remembered(pending, now).dom().contains(id),
            registrations: 1,
        }
    }
}

/// The active operations after one registration of the operation ends: the last
/// one takes the operation away.
pub open spec fn unregistered(active: Map<Seq<char>, ActiveOperation>, id: Seq<char>) -> Map<
    Seq<char>,
    ActiveOperation,
> {
    if !active.dom().contains(id) {
        active
    } else if active[id].registrations <= 1 {
        active.remove(id)
    } else {
        active.insert(
            id,
            ActiveOperation {
                cancelled: active[id].cancelled,
                registrations: (active[id].registrations - 1) as usize,
            },
        )
    }
}

/// Of the cancellations no other one is forgotten earlier.
pub open spec fn is_oldest(pending: Map<Seq<char>, PendingCancellation>, id: Seq<char>) -> bool {
    &&& pending.dom().contains(id)
    &&& forall|other: Seq<char>| #[trigger]
        pending.dom().contains(other) ==> pending[id].expires_at <= pending[other].expires_at
}

/// The cancellations after one has made room for another.
pub open spec fn makes_room(
    pending: Map<Seq<char>, PendingCancellation>,
    after: Map<Seq<char>, PendingCancellation>,
) -> bool {
    if pending.dom().len() < MAX_PENDING_CANCELLATIONS {
        after == pending
    } else {
        exists|oldest: Seq<char>| #[trigger]
            is_oldest(pending, oldest) && after == pending.remove(oldest)
    }
}

impl OperationCancellationRegistry {
    /// No operation occurs twice, and not too many cancellations are remembered.
    pub open spec fn well_formed(self) -> bool {
        &&& self.active.well_formed()
        &&& self.pending.well_formed()
        &&& self.pending.spec_len() <= MAX_PENDING_CANCELLATIONS
    }

    /// Nothing runs and nothing is remembered.
    pub fn new() -> (registry: Self)
        ensures
            registry.well_formed(),
            registry.active@ == Map::<Seq<char>, ActiveOperation>::empty(),
            registry.pending@ == Map::<Seq<char>, PendingCancellation>::empty(),
    {
        OperationCancellationRegistry { active: Registry::new(), pending: Registry::new() }
    }

    /// Forgets the cancellations whose time is over.
    pub fn prune_pending(&mut self, now: i64)
        requires
            old(self).well_formed(),
        ensures
            final(self).well_formed(),
            final(self).active == old(self).active,
            final(self).pending@ == remembered(old(self).pending@, now),
            final(self).pending.spec_len() <= old(self).pending.spec_len(),
    {
        self.pending.retain_unexpired(now);
        proof {
            let kept = remembered(old(self).pending@, now);
            assert forall|id: Seq<char>| self.pending@.dom().contains(id) == #[trigger] kept.dom().contains(
                id,
            ) by {
                if old(self).pending@.dom().contains(id) {
                    assert(old(self).pending@[id].deadline() == old(self).pending@[id].expires_at);
                }
            }
            assert(self.pending@ =~= kept);
        }
    }

    /// Registers a request for the operation, and tells whether the operation
    /// has been cancelled. Requests for one operation share its cancellation.
    pub fn register_operation_cancellation(&mut self, operation_id: &str, now: i64) -> (cancelled:
        bool)
        requires
            old(self).well_formed(),
            old(self).active@.dom().contains(operation_id@) ==> old(
                self,
            ).active@[operation_id@].registrations < usize::MAX,
        ensures
            final(self).well_formed(),
            final(self).pending@ == remembered(old(self).pending@, now).remove(operation_id@),
            final(self).active@ == old(self).active@.insert(
                operation_id@,
                registered(old(self).active@, old(self).pending@, operation_id@, now),
            ),
            cancelled == is_cancelled(final(self).active@, operation_id@),
    {
        self.prune_pending(now);
        let early = self.pending.remove(operation_id).is_some();
        let (cancelled, registrations) = match self.active.get(operation_id) {
            Some(operation) => (operation.cancelled, operation.registrations + 1),
            None => (early, 1),
        };
        self.active.insert(operation_id.to_owned(), ActiveOperation { cancelled, registrations });
        cancelled
    }

    /// Ends one registration of the operation.
    pub fn unregister(&mut self, operation_id: &str)
        requires
            old(self).well_formed(),
        ensures
            final(self).well_formed(),
            final(self).pending == old(self).pending,
            final(self).active@ == unregistered(old(self).active@, operation_id@),
    {
        let operation = match self.active.get(operation_id) {
            None => {
                return;
            },
            Some(operation) => *operation,
        };
        if operation.registrations <= 1 {
            let _ = self.active.remove(operation_id);
        } else {
            self.active.insert(
                operation_id.to_owned(),
                ActiveOperation {
                    cancelled: operation.cancelled,
                    registrations: operation.registrations - 1,
                },
            );
        }
    }

    /// Whether the operation runs and has been cancelled.
    pub fn operation_cancelled(&self, operation_id: &str) -> (cancelled: bool)
        requires
            self.well_formed(),
        ensures
            cancelled == is_cancelled(self.active@, operation_id@),
    {
        match self.active.get(operation_id) {
            Some(operation) => operation.cancelled,
            None => false,
        }
    }

    fn forget_oldest(&mut self)
        requires
            old(self).well_formed(),
            old(self).pending.spec_len() > 0,
        ensures
            final(self).well_formed(),
            final(self).active == old(self).active,
            final(self).pending.spec_len() < old(self).pending.spec_len(),
            exists|oldest: Seq<char>| #[trigger]
                is_oldest(old(self).pending@, oldest) && final(self).pending@ == old(
                    self,
                ).pending@.remove(oldest),
    {
        let mut best: usize = 0;
        let mut i: usize = 1;
        let count: usize = self.pending.len();
        proof {
            self.pending.lemma_positions();
        }
        while i < count
            invariant
                1 <= i <= count,
                best < i,
                count == self.pending.spec_len(),
                self.pending.well_formed(),
                forall|j: int|
                    0 <= j < count ==> self.pending@.dom().contains(
                        #[trigger] self.pending.key_at(j),
                    ),
                forall|j: int|
                    0 <= j < i ==> self.pending@[self.pending.key_at(best as int)].expires_at
                        <= self.pending@[#[trigger] self.pending.key_at(j)].expires_at,
            decreases count - i,
        {
            let (_, candidate) = self.pending.entry_at(i);
            let (_, champion) = self.pending.entry_at(best);
            if candidate.expires_at < champion.expires_at {
                best = i;
            }
            i = i + 1;
        }
        let (oldest, _) = self.pending.entry_at(best);
        let oldest = oldest.clone();
        proof {
            assert forall|other: Seq<char>| #[trigger] self.pending@.dom().contains(
                other,
            ) implies self.pending@[oldest@].expires_at <= self.pending@[other].expires_at by {
                let j = choose|j: int|
                    0 <= j < self.pending.spec_len() && #[trigger] self.pending.key_at(j) == other;
                assert(self.pending.key_at(j) == other);
            }
            assert(is_oldest(self.pending@, oldest@));
        }
        let _ = self.pending.remove(oldest.as_str());
    }

    /// Cancels an operation. One that has not begun yet is cancelled when it
    /// begins, if that is soon.
    pub fn request_operation_cancellation(&mut self, operation_id: &str, now: i64) -> (accepted:
        bool)
        requires
            old(self).well_formed(),
            now <= i64::MAX - PENDING_CANCELLATION_TTL_MS,
        ensures
            accepted,
            final(self).well_formed(),
            after_request(*old(self), operation_id@, now, *final(self)),
    {
        match self.active.get(operation_id) {
            Some(operation) => {
                let registrations = operation.registrations;
                self.active.insert(
                    operation_id.to_owned(),
                    ActiveOperation { cancelled: true, registrations },
                );
                return true;
            },
            None => {},
        }
        self.prune_pending(now);
        let ghost kept = self.pending@;
        proof {
            self.pending.lemma_len();
        }
        if self.pending.len() >= MAX_PENDING_CANCELLATIONS {
            self.forget_oldest();
        }
        let ghost room = self.pending@;
        assert(makes_room(kept, room));
        self.pending.insert(
            operation_id.to_owned(),
            PendingCancellation { expires_at: now + PENDING_CANCELLATION_TTL_MS },
        );
        true
    }
}

/// What a cancellation does: an operation that runs is cancelled; otherwise the
/// cancellation is remembered, in place of the oldest one if there are too many.
pub open spec fn after_request(
    before: OperationCancellationRegistry,
    id: Seq<char>,
    now: i64,
    after: OperationCancellationRegistry,
) -> bool {
    if before.active@.dom().contains(id) {
        &&& after.pending == before.pending
        &&& after.active@ == before.active@.insert(
            id,
            ActiveOperation { cancelled: true, registrations: before.active@[id].registrations },
        )
    } else {
        &&& after.active == before.active
        &&& exists|room: Map<Seq<char>, PendingCancellation>| #[trigger]
            makes_room(remembered(before.pending@, now), room) && after.pending@ == room.insert(
                id,
                PendingCancellation {
                    expires_at: (now + PENDING_CANCELLATION_TTL_MS) as i64,
                },
            )
    }
}

// ---------------------------------------------------------------------------
// Laws
// ---------------------------------------------------------------------------

/// Whether the cancellation or the operation comes first, the operation is
/// cancelled, as long as it begins before the cancellation is forgotten.
pub proof fn early_cancellations_are_kept(
    before: OperationCancellationRegistry,
    id: Seq<char>,
    requested_at: i64,
    after: OperationCancellationRegistry,
    registered_at: i64,
)
    requires
        after_request(before, id, requested_at, after),
        requested_at <= i64::MAX - PENDING_CANCELLATION_TTL_MS,
        registered_at < requested_at + PENDING_CANCELLATION_TTL_MS,
    ensures
        registered(after.active@, after.pending@, id, registered_at).cancelled,
{
    if !before.active@.dom().contains(id) {
        assert(after.pending@.dom().contains(id));
        assert(after.pending@[id].expires_at > registered_at);
        assert(remembered(after.pending@, registered_at).dom().contains(id));
    }
}

/// An early cancellation counts for one operation only: once the operation has
/// begun it is forgotten, so the next one with the same name is not cancelled.
pub proof fn early_cancellations_are_consumed(
    active: Map<Seq<char>, ActiveOperation>,
    pending: Map<Seq<char>, PendingCancellation>,
    id: Seq<char>,
    now: i64,
    later: i64,
)
    ensures
        ({
            let begun = active.insert(id, registered(active, pending, id, now));
            let left = remembered(pending, now).remove(id);
            !begun.remove(id).dom().contains(id) && !registered(
                begun.remove(id),
                left,
                id,
                later,
            ).cancelled
        }),
{
}

/// Requests for one operation share its cancellation until the last of them has
/// ended.
pub proof fn cancellation_lasts_until_the_last_request(
    active: Map<Seq<char>, ActiveOperation>,
    id: Seq<char>,
)
    requires
        is_cancelled(active, id),
    ensures
        active[id].registrations > 1 ==> is_cancelled(unregistered(active, id), id),
        active[id].registrations <= 1 ==> !unregistered(active, id).dom().contains(id),
{
}

/// Cancelling one operation does not cancel another.
pub proof fn other_operations_go_on(
    before: OperationCancellationRegistry,
    id: Seq<char>,
    now: i64,
    after: OperationCancellationRegistry,
    other: Seq<char>,
)
    requires
        after_request(before, id, now, after),
        other != id,
    ensures
        is_cancelled(after.active@, other) == is_cancelled(before.active@, other),
{
}

/// A cancellation reaches every request of an operation that runs, and stays until
/// the last of them ends.
pub proof fn running_operations_are_cancelled(
    before: OperationCancellationRegistry,
    id: Seq<char>,
    now: i64,
    after: OperationCancellationRegistry,
)
    requires
        after_request(before, id, now, after),
        before.active@.dom().contains(id),
    ensures
        after.active@.dom().contains(id),
        after.active@[id].cancelled,
        after.active@[id].registrations == before.active@[id].registrations,
        after.pending@ == before.pending@,
{
}

/// A cancellation is forgotten when its time is over, and not before.
pub proof fn cancellations_are_remembered_for_their_time(
    pending: Map<Seq<char>, PendingCancellation>,
    now: i64,
    id: Seq<char>,
)
    ensures
        remembered(pending, now).dom().contains(id) <==> pending.dom().contains(id)
            && pending[id].expires_at > now,
        remembered(pending, now).dom().contains(id) ==> remembered(pending, now)[id]
            == pending[id],
{
}

/// An operation that nobody cancelled does not begin cancelled, and a further
/// request of a running one shares what the others have.
pub proof fn operations_begin_as_they_were_left(
    active: Map<Seq<char>, ActiveOperation>,
    pending: Map<Seq<char>, PendingCancellation>,
    id: Seq<char>,
    now: i64,
)
    ensures
        !active.dom().contains(id) ==> registered(active, pending, id, now).registrations == 1 && (
        registered(active, pending, id, now).cancelled <==> pending.dom().contains(id)
            && pending[id].expires_at > now),
        active.dom().contains(id) && active[id].registrations < usize::MAX ==> registered(
            active,
            pending,
            id,
            now,
        ).registrations == active[id].registrations + 1 && registered(
            active,
            pending,
            id,
            now,
        ).cancelled == active[id].cancelled,
{
}

/// Where an early cancellation needs room, just one other one is forgotten for it,
/// and that is one of those that would have been forgotten first.
pub proof fn only_the_oldest_cancellation_makes_room(
    pending: Map<Seq<char>, PendingCancellation>,
    room: Map<Seq<char>, PendingCancellation>,
    a: Seq<char>,
    b: Seq<char>,
)
    requires
        makes_room(pending, room),
        pending.dom().contains(a),
        !room.dom().contains(a),
        pending.dom().contains(b),
        a != b,
    ensures
        pending.dom().len() >= MAX_PENDING_CANCELLATIONS,
        room.dom().contains(b),
        room[b] == pending[b],
        pending[a].expires_at <= pending[b].expires_at,
{
}

/// The end of one request takes just one registration, and touches no other
/// operation.
pub proof fn ended_requests_are_counted_off(
    active: Map<Seq<char>, ActiveOperation>,
    id: Seq<char>,
    other: Seq<char>,
)
    ensures
        other != id ==> unregistered(active, id).dom().contains(other) == active.dom().contains(
            other,
        ) && unregistered(active, id)[other] == active[other],
        active.dom().contains(id) && active[id].registrations > 1 ==> unregistered(
            active,
            id,
        ).dom().contains(id) && unregistered(active, id)[id].registrations
            == active[id].registrations - 1 && unregistered(active, id)[id].cancelled
            == active[id].cancelled,
        active.dom().contains(id) && active[id].registrations <= 1 ==> !unregistered(
            active,
            id,
        ).dom().contains(id),
{
}

} // verus!
