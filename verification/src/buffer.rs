//! The delivery buffer: a bounded queue of batches waiting for transmission.
//!
//! Batches enter at the back, oldest first. A batch is handed out for
//! transmission at most once until it is acknowledged or its hand-out
//! expires. The buffer is described by a mathematical model, `BufferModel`;
//! every operation of `DeliveryBuffer` is specified as a function on that
//! model.

use vstd::prelude::*;
use crate::batch::{
    batch_views,
    may_follow,
    next_retry,
    AckOutcome,
    Batch,
    BatchView,
    DeliveryStatus,
};

verus! {

/// What to do with a new batch when the buffer is full.
#[derive(Clone, Copy, Debug, PartialEq, Eq, Structural)]
pub enum OverflowPolicy {
    /// Make room by discarding the oldest batch that is not in flight, or the
    /// oldest batch of all when every batch is in flight.
    EvictOldest,
    /// Refuse the new batch.
    Strict,
}

impl Default for OverflowPolicy {
    /// New data is worth more than old: the default is to evict.
    fn default() -> (policy: OverflowPolicy)
        ensures
            policy == OverflowPolicy::EvictOldest,
    {
        OverflowPolicy::EvictOldest
    }
}

/// Why the buffer refused an operation.
#[derive(Clone, Copy, Debug, PartialEq, Eq, Structural)]
pub enum BufferError {
    /// The buffer is full and its policy is strict.
    Full,
    /// The batch offered is not in the pending state.
    NotPending,
    /// The id of the batch offered is not above every id accepted before.
    OutOfSequence,
    /// No batch with the given id is in flight.
    NotInFlight,
}

/// One more, unless the counter is at its largest value already.
pub open spec fn bumped(n: u64) -> u64 {
    if n < u64::MAX {
        (n + 1) as u64
    } else {
        n
    }
}

/// A buffered batch with the time of its latest hand-out.
pub struct SlotModel {
    pub batch: BatchView,
    /// Clock reading at the latest hand-out; meaningful while in flight.
    pub handed_out_at: u64,
}

/// The buffer as plain mathematical data.
pub struct BufferModel {
    /// The batches held, oldest first.
    pub slots: Seq<SlotModel>,
    pub capacity: usize,
    pub policy: OverflowPolicy,
    /// How long a hand-out lasts without an acknowledgement.
    pub reclaim_after: u64,
    /// Batches discarded so far.
    pub lost: u64,
    /// The largest id accepted so far.
    pub last_id: Option<u64>,
}

impl BufferModel {
    /// An empty buffer.
    pub open spec fn empty(capacity: usize, policy: OverflowPolicy, reclaim_after: u64) -> BufferModel {
        BufferModel {
            slots: Seq::empty(),
            capacity,
            policy,
            reclaim_after,
            lost: 0,
            last_id: None,
        }
    }

    /// The invariant of the buffer: it holds at most `capacity` batches, all
    /// pending or in flight, with ids that grow from front to back and never
    /// exceed the largest id accepted.
    pub open spec fn wf(self) -> bool {
        &&& 1 <= self.capacity
        &&& self.slots.len() <= self.capacity
        &&& forall|i: int|
            #![trigger self.slots[i]]
            0 <= i < self.slots.len() ==> {
                &&& self.slots[i].batch.wf()
                &&& (self.slots[i].batch.status is Pending || self.slots[i].batch.status is InFlight)
                &&& self.last_id matches Some(m) && self.slots[i].batch.id <= m
            }
        &&& forall|i: int, j: int|
            #![trigger self.slots[i], self.slots[j]]
            0 <= i < j < self.slots.len() ==> self.slots[i].batch.id < self.slots[j].batch.id
    }

    /// Slot `i` holds the batch with the given id.
    pub open spec fn holds_at(self, id: u64, i: int) -> bool {
        0 <= i < self.slots.len() && self.slots[i].batch.id == id
    }

    /// The buffer holds a batch with the given id.
    pub open spec fn contains(self, id: u64) -> bool {
        exists|i: int| self.holds_at(id, i)
    }

    /// The slot of the batch with the given id, where the buffer holds it.
    pub open spec fn index_of(self, id: u64) -> int {
        choose|i: int| self.holds_at(id, i)
    }

    /// The buffer holds a batch with the given id, and it is in flight.
    pub open spec fn in_flight(self, id: u64) -> bool {
        self.contains(id) && self.slots[self.index_of(id)].batch.status is InFlight
    }

    /// The buffer holds a batch with the given id, and it is pending.
    pub open spec fn pending(self, id: u64) -> bool {
        self.contains(id) && self.slots[self.index_of(id)].batch.status is Pending
    }

    /// Slot `i` holds the oldest pending batch.
    pub open spec fn first_pending_at(self, i: int) -> bool {
        &&& 0 <= i < self.slots.len()
        &&& self.slots[i].batch.status is Pending
        &&& forall|j: int|
            #![trigger self.slots[j]]
            0 <= j < i ==> !(self.slots[j].batch.status is Pending)
    }

    /// The slot that is cleared when room is needed: that of the oldest
    /// pending batch, or the front slot when no batch is pending.
    pub open spec fn victim(self) -> int {
        if exists|i: int| self.first_pending_at(i) {
            choose|i: int| self.first_pending_at(i)
        } else {
            0
        }
    }

    /// Number of pending batches in the slots before slot `i`.
    pub open spec fn pending_before(self, i: int) -> nat
        decreases i,
    {
        if i <= 0 {
            0
        } else {
            self.pending_before(i - 1) + if self.slots[i - 1].batch.status is Pending {
                1nat
            } else {
                0nat
            }
        }
    }

    /// A drain of at most `max` batches takes the batch in slot `i`: it is
    /// pending, and fewer than `max` pending batches are older.
    pub open spec fn takes(self, max: nat, i: int) -> bool {
        &&& 0 <= i < self.slots.len()
        &&& self.slots[i].batch.status is Pending
        &&& self.pending_before(i) < max
    }

    /// The buffer after a drain of at most `max` batches at time `now`: the
    /// batches taken are in flight since `now`.
    pub open spec fn drained(self, max: nat, now: u64) -> BufferModel {
        BufferModel {
            slots: Seq::new(
                self.slots.len(),
                |i: int|
                    if self.takes(max, i) {
                        SlotModel { batch: self.slots[i].batch.handed_out(), handed_out_at: now }
                    } else {
                        self.slots[i]
                    },
            ),
            ..self
        }
    }

    /// What a drain of at most `max` batches hands out from the first `n`
    /// slots: the batches taken, oldest first, as they are after the drain.
    pub open spec fn hands_out_from(self, max: nat, n: int) -> Seq<BatchView>
        decreases n,
    {
        if n <= 0 {
            Seq::empty()
        } else if self.takes(max, n - 1) {
            self.hands_out_from(max, n - 1).push(self.slots[n - 1].batch.handed_out())
        } else {
            self.hands_out_from(max, n - 1)
        }
    }

    /// What a drain of at most `max` batches hands out.
    pub open spec fn hands_out(self, max: nat) -> Seq<BatchView> {
        self.hands_out_from(max, self.slots.len() as int)
    }

    /// What an acknowledgement returns: the status in which it leaves the
    /// batch, or an error when no batch with that id is in flight.
    pub open spec fn ack_verdict(self, id: u64, outcome: AckOutcome) -> Result<
        DeliveryStatus,
        BufferError,
    > {
        if self.in_flight(id) {
            Ok(self.slots[self.index_of(id)].batch.resolved(outcome).status)
        } else {
            Err(BufferError::NotInFlight)
        }
    }

    /// The buffer after an acknowledgement. A delivered batch leaves; a
    /// dropped batch leaves and is counted as lost; a batch to retry stays,
    /// pending again, with one more retry on its count. An acknowledgement
    /// for a batch that is not in flight changes nothing.
    pub open spec fn acked(self, id: u64, outcome: AckOutcome) -> BufferModel {
        let i = self.index_of(id);
        if !self.in_flight(id) {
            self
        } else {
            match outcome {
                AckOutcome::Delivered => BufferModel { slots: self.slots.remove(i), ..self },
                AckOutcome::Retry => BufferModel {
                    slots: self.slots.update(
                        i,
                        SlotModel { batch: self.slots[i].batch.resolved(outcome), ..self.slots[i] },
                    ),
                    ..self
                },
                AckOutcome::Drop => BufferModel {
                    slots: self.slots.remove(i),
                    lost: bumped(self.lost),
                    ..self
                },
            }
        }
    }

    /// At time `now` the hand-out of the batch in slot `i` has expired.
    pub open spec fn expired(self, now: u64, i: int) -> bool {
        &&& 0 <= i < self.slots.len()
        &&& self.slots[i].batch.status is InFlight
        &&& now >= self.slots[i].handed_out_at + self.reclaim_after
    }

    /// Number of expired hand-outs among the first `n` slots.
    pub open spec fn expired_before(self, now: u64, n: int) -> nat
        decreases n,
    {
        if n <= 0 {
            0
        } else {
            self.expired_before(now, n - 1) + if self.expired(now, n - 1) {
                1nat
            } else {
                0nat
            }
        }
    }

    /// The buffer after expired hand-outs were revoked at time `now`: the
    /// batches concerned are pending again, with their retry counts as they
    /// were.
    pub open spec fn reclaimed(self, now: u64) -> BufferModel {
        BufferModel {
            slots: Seq::new(
                self.slots.len(),
                |i: int|
                    if self.expired(now, i) {
                        SlotModel { batch: self.slots[i].batch.reclaimed(), ..self.slots[i] }
                    } else {
                        self.slots[i]
                    },
            ),
            ..self
        }
    }

    /// Whether a batch offered to the buffer is accepted.
    pub open spec fn admits(self, batch: BatchView) -> Result<(), BufferError> {
        if !(batch.status is Pending) {
            Err(BufferError::NotPending)
        } else if self.last_id matches Some(m) && batch.id <= m {
            Err(BufferError::OutOfSequence)
        } else if self.slots.len() >= self.capacity && self.policy is Strict {
            Err(BufferError::Full)
        } else {
            Ok(())
        }
    }

    /// The buffer after a batch was offered to it. An accepted batch goes to
    /// the back; where the buffer was full, the victim leaves and is counted
    /// as lost. A refused batch changes nothing.
    pub open spec fn enqueued(self, batch: BatchView) -> BufferModel {
        let slot = SlotModel { batch, handed_out_at: 0 };
        if self.admits(batch) is Err {
            self
        } else if self.slots.len() < self.capacity {
            BufferModel { slots: self.slots.push(slot), last_id: Some(batch.id), ..self }
        } else {
            BufferModel {
                slots: self.slots.remove(self.victim()).push(slot),
                last_id: Some(batch.id),
                lost: bumped(self.lost),
                ..self
            }
        }
    }
}

/// A buffered batch with the time of its latest hand-out.
struct Slot {
    batch: Batch,
    handed_out_at: u64,
}

impl View for Slot {
    type V = SlotModel;

    closed spec fn view(&self) -> SlotModel {
        SlotModel { batch: self.batch@, handed_out_at: self.handed_out_at }
    }
}

/// A bounded queue of batches waiting for transmission.
pub struct DeliveryBuffer {
    slots: Vec<Slot>,
    capacity: usize,
    policy: OverflowPolicy,
    reclaim_after: u64,
    lost: u64,
    last_id: Option<u64>,
}

impl View for DeliveryBuffer {
    type V = BufferModel;

    closed spec fn view(&self) -> BufferModel {
        BufferModel {
            slots: self.slots@.map_values(|s: Slot| s@),
            capacity: self.capacity,
            policy: self.policy,
            reclaim_after: self.reclaim_after,
            lost: self.lost,
            last_id: self.last_id,
        }
    }
}

impl DeliveryBuffer {
    /// The invariant that every operation keeps.
    pub open spec fn wf(&self) -> bool {
        self@.wf()
    }

    /// An empty buffer for at most `capacity` batches. A hand-out that is not
    /// acknowledged lasts `reclaim_after` units of the clock that `drain` and
    /// `reclaim` are given. A buffer without room for a single batch cannot be
    /// made.
    pub fn new(capacity: usize, policy: OverflowPolicy, reclaim_after: u64) -> (buffer: Option<
        DeliveryBuffer,
    >)
        ensures
            capacity == 0 <==> buffer is None,
            buffer matches Some(b) ==> b.wf() && b@ == BufferModel::empty(
                capacity,
                policy,
                reclaim_after,
            ),
    {
        if capacity == 0 {
            None
        } else {
            let b = DeliveryBuffer {
                slots: Vec::new(),
                capacity,
                policy,
                reclaim_after,
                lost: 0,
                last_id: None,
            };
            assert(b@.slots =~= Seq::empty());
            Some(b)
        }
    }

    /// Number of batches held.
    pub fn len(&self) -> (n: usize)
        ensures
            n == self@.slots.len(),
    {
        self.slots.len()
    }

    /// Largest number of batches held at a time.
    pub fn capacity(&self) -> (n: usize)
        ensures
            n == self@.capacity,
    {
        self.capacity
    }

    /// Number of batches discarded so far: evicted to make room, or dropped
    /// by an acknowledgement.
    pub fn lost(&self) -> (n: u64)
        ensures
            n == self@.lost,
    {
        self.lost
    }

    /// The slot of the batch with the given id.
    fn find(&self, id: u64) -> (found: Option<usize>)
        requires
            self.wf(),
        ensures
            found is Some <==> self@.contains(id),
            found matches Some(i) ==> i == self@.index_of(id) && self@.holds_at(id, i as int),
    {
        let mut i: usize = 0;
        while i < self.slots.len()
            invariant
                self.wf(),
                i <= self.slots.len(),
                forall|k: int| 0 <= k < i ==> !self@.holds_at(id, k),
            decreases self.slots.len() - i,
        {
            if self.slots[i].batch.id() == id {
                proof {
                    assert(self@.holds_at(id, i as int));
                    lemma_index_unique(self@, id, i as int);
                }
                return Some(i);
            }
            i += 1;
        }
        None
    }

    /// The batch with the given id as the buffer holds it.
    pub fn get(&self, id: u64) -> (batch: Option<&Batch>)
        requires
            self.wf(),
        ensures
            batch is Some <==> self@.contains(id),
            batch matches Some(b) ==> b@ == self@.slots[self@.index_of(id)].batch,
    {
        match self.find(id) {
            None => None,
            Some(i) => Some(&self.slots[i].batch),
        }
    }

    /// The slot of the oldest pending batch, or the number of slots when no
    /// batch is pending.
    fn first_pending(&self) -> (i: usize)
        ensures
            i <= self.slots.len(),
            i < self.slots.len() ==> self@.first_pending_at(i as int),
            i == self.slots.len() ==> !exists|k: int| self@.first_pending_at(k),
    {
        let mut i: usize = 0;
        while i < self.slots.len()
            invariant
                i <= self.slots.len(),
                forall|k: int|
                    #![trigger self@.slots[k]]
                    0 <= k < i ==> !(self@.slots[k].batch.status is Pending),
            decreases self.slots.len() - i,
        {
            if self.slots[i].batch.status() == DeliveryStatus::Pending {
                assert(self@.slots[i as int].batch.status is Pending);
                return i;
            }
            assert(!(self@.slots[i as int].batch.status is Pending));
            i += 1;
        }
        i
    }

    /// Offers a batch to the buffer. The batch must be pending and carry an
    /// id above every id accepted before. Where the buffer is full, a strict
    /// buffer refuses the batch; otherwise the oldest pending batch (the
    /// oldest batch of all when none is pending) is discarded and counted as
    /// lost. A refusal leaves the buffer as it was.
    pub fn enqueue(&mut self, batch: Batch) -> (res: Result<(), BufferError>)
        requires
            old(self).wf(),
            batch.wf(),
        ensures
            final(self).wf(),
            res == old(self)@.admits(batch@),
            final(self)@ == old(self)@.enqueued(batch@),
    {
        if batch.status() != DeliveryStatus::Pending {
            return Err(BufferError::NotPending);
        }
        if let Some(m) = self.last_id {
            if batch.id() <= m {
                return Err(BufferError::OutOfSequence);
            }
        }
        let id: u64 = batch.id();
        if self.slots.len() >= self.capacity {
            match self.policy {
                OverflowPolicy::Strict => {
                    return Err(BufferError::Full);
                },
                OverflowPolicy::EvictOldest => {
                    let p: usize = self.first_pending();
                    let victim: usize = if p < self.slots.len() {
                        p
                    } else {
                        0
                    };
                    proof {
                        lemma_victim(self@, victim as int);
                    }
                    self.slots.remove(victim);
                    if self.lost < u64::MAX {
                        self.lost = self.lost + 1;
                    }
                },
            }
        }
        self.last_id = Some(id);
        self.slots.push(Slot { batch, handed_out_at: 0 });
        proof {
            assert(self@.slots =~= old(self)@.enqueued(batch@).slots);
            lemma_enqueued_wf(old(self)@, batch@);
        }
        Ok(())
    }

    /// Hands out up to `max_batches` pending batches, oldest first, and marks
    /// them in flight since `now`. The batches returned are copies; the
    /// buffer keeps each batch until it is acknowledged.
    pub fn drain(&mut self, max_batches: usize, now: u64) -> (out: Vec<Batch>)
        requires
            old(self).wf(),
        ensures
            final(self).wf(),
            final(self)@ == old(self)@.drained(max_batches as nat, now),
            batch_views(out@) == old(self)@.hands_out(max_batches as nat),
    {
        let ghost before = self@;
        let ghost max = max_batches as nat;
        let mut out: Vec<Batch> = Vec::new();
        let mut taken: usize = 0;
        let mut i: usize = 0;
        while i < self.slots.len()
            invariant
                i <= self.slots.len(),
                self@.slots.len() == before.slots.len(),
                self@.capacity == before.capacity,
                self@.policy == before.policy,
                self@.reclaim_after == before.reclaim_after,
                self@.lost == before.lost,
                self@.last_id == before.last_id,
                max == max_batches as nat,
                taken <= i,
                taken <= max_batches,
                taken < max_batches ==> taken == before.pending_before(i as int),
                taken == max_batches ==> before.pending_before(i as int) >= max,
                forall|k: int|
                    0 <= k < i ==> #[trigger] self@.slots[k] == before.drained(max, now).slots[k],
                forall|k: int| i <= k < self.slots.len() ==> #[trigger] self@.slots[k] == before.slots[k],
                batch_views(out@) == before.hands_out_from(max, i as int),
            decreases self.slots.len() - i,
        {
            let ghost during = self@;
            let ghost given = batch_views(out@);
            assert(during.slots[i as int] == before.slots[i as int]);
            let take = taken < max_batches && self.slots[i].batch.status()
                == DeliveryStatus::Pending;
            proof {
                assert(during.slots[i as int].batch == self.slots[i as int].batch@);
                assert(take == before.takes(max, i as int));
                assert(before.pending_before(i + 1) == before.pending_before(i as int) + if before.slots[i as int].batch.status is Pending {
                    1nat
                } else {
                    0nat
                });
            }
            if take {
                self.slots[i].batch.hand_out();
                self.slots[i].handed_out_at = now;
                out.push(self.slots[i].batch.clone());
                taken += 1;
                proof {
                    assert(batch_views(out@) =~= given.push(
                        before.slots[i as int].batch.handed_out(),
                    ));
                }
            }
            proof {
                assert forall|k: int| 0 <= k < i + 1 implies #[trigger] self@.slots[k]
                    == before.drained(max, now).slots[k] by {
                    if k < i {
                        assert(self@.slots[k] == during.slots[k]);
                    }
                }
                assert forall|k: int| i + 1 <= k < self.slots.len() implies #[trigger] self@.slots[k]
                    == before.slots[k] by {
                    assert(self@.slots[k] == during.slots[k]);
                }
            }
            i += 1;
        }
        proof {
            assert(self@.slots =~= before.drained(max, now).slots);
            lemma_drained_wf(before, max, now);
        }
        out
    }

    /// Resolves the hand-out of the batch with the given id. `Delivered`
    /// removes the batch for good; `Retry` makes it pending again with one
    /// more retry on its count; `Drop` removes it and counts it as lost.
    /// Returns the status in which the batch is left. Where no batch with
    /// that id is in flight, nothing changes.
    pub fn ack(&mut self, id: u64, outcome: AckOutcome) -> (res: Result<DeliveryStatus, BufferError>)
        requires
            old(self).wf(),
        ensures
            final(self).wf(),
            res == old(self)@.ack_verdict(id, outcome),
            final(self)@ == old(self)@.acked(id, outcome),
    {
        let ghost before = self@;
        proof {
            lemma_acked_wf(before, id, outcome);
        }
        match self.find(id) {
            None => Err(BufferError::NotInFlight),
            Some(i) => {
                if self.slots[i].batch.status() != DeliveryStatus::InFlight {
                    return Err(BufferError::NotInFlight);
                }
                match outcome {
                    AckOutcome::Delivered => {
                        let mut slot = self.slots.remove(i);
                        slot.batch.resolve(outcome);
                        assert(self@.slots =~= before.acked(id, outcome).slots);
                        Ok(slot.batch.status())
                    },
                    AckOutcome::Retry => {
                        self.slots[i].batch.resolve(outcome);
                        assert(self@.slots =~= before.acked(id, outcome).slots);
                        Ok(self.slots[i].batch.status())
                    },
                    AckOutcome::Drop => {
                        let mut slot = self.slots.remove(i);
                        slot.batch.resolve(outcome);
                        if self.lost < u64::MAX {
                            self.lost = self.lost + 1;
                        }
                        assert(self@.slots =~= before.acked(id, outcome).slots);
                        Ok(slot.batch.status())
                    },
                }
            },
        }
    }

    /// Revokes every hand-out that has lasted `reclaim_after` or longer at
    /// time `now`: the batches concerned become pending again, as if they had
    /// never been handed out. Returns how many there were.
    pub fn reclaim(&mut self, now: u64) -> (count: usize)
        requires
            old(self).wf(),
        ensures
            final(self).wf(),
            final(self)@ == old(self)@.reclaimed(now),
            count == old(self)@.expired_before(now, old(self)@.slots.len() as int),
    {
        let ghost before = self@;
        let mut count: usize = 0;
        let mut i: usize = 0;
        while i < self.slots.len()
            invariant
                i <= self.slots.len(),
                self@.slots.len() == before.slots.len(),
                self@.capacity == before.capacity,
                self@.policy == before.policy,
                self@.reclaim_after == before.reclaim_after,
                self@.lost == before.lost,
                self@.last_id == before.last_id,
                count <= i,
                count == before.expired_before(now, i as int),
                forall|k: int|
                    0 <= k < i ==> #[trigger] self@.slots[k] == before.reclaimed(now).slots[k],
                forall|k: int| i <= k < self.slots.len() ==> #[trigger] self@.slots[k] == before.slots[k],
            decreases self.slots.len() - i,
        {
            let ghost during = self@;
            assert(during.slots[i as int] == before.slots[i as int]);
            let since: u64 = self.slots[i].handed_out_at;
            if self.slots[i].batch.status() == DeliveryStatus::InFlight && now >= since && now
                - since >= self.reclaim_after {
                self.slots[i].batch.reclaim();
                count += 1;
                assert(before.expired(now, i as int));
            } else {
                assert(!before.expired(now, i as int));
            }
            proof {
                assert forall|k: int| 0 <= k < i + 1 implies #[trigger] self@.slots[k]
                    == before.reclaimed(now).slots[k] by {
                    if k < i {
                        assert(self@.slots[k] == during.slots[k]);
                    }
                }
                assert forall|k: int| i + 1 <= k < self.slots.len() implies #[trigger] self@.slots[k]
                    == before.slots[k] by {
                    assert(self@.slots[k] == during.slots[k]);
                }
            }
            i += 1;
        }
        proof {
            assert(self@.slots =~= before.reclaimed(now).slots);
            lemma_reclaimed_wf(before, now);
        }
        count
    }
}

/// A drain keeps the buffer well formed.
pub proof fn lemma_drained_wf(m: BufferModel, max: nat, now: u64)
    requires
        m.wf(),
    ensures
        m.drained(max, now).wf(),
{
    let after = m.drained(max, now);
    assert forall|i: int|
        #![trigger after.slots[i]]
        0 <= i < after.slots.len() implies {
        &&& after.slots[i].batch.wf()
        &&& (after.slots[i].batch.status is Pending || after.slots[i].batch.status is InFlight)
        &&& after.last_id matches Some(x) && after.slots[i].batch.id <= x
    } by {
        assert(after.slots[i].batch.id == m.slots[i].batch.id);
    }
    assert forall|i: int, j: int|
        #![trigger after.slots[i], after.slots[j]]
        0 <= i < j < after.slots.len() implies after.slots[i].batch.id < after.slots[j].batch.id by {
        assert(m.slots[i].batch.id < m.slots[j].batch.id);
    }
}

/// Revoking expired hand-outs keeps the buffer well formed.
pub proof fn lemma_reclaimed_wf(m: BufferModel, now: u64)
    requires
        m.wf(),
    ensures
        m.reclaimed(now).wf(),
{
    let after = m.reclaimed(now);
    assert forall|i: int|
        #![trigger after.slots[i]]
        0 <= i < after.slots.len() implies {
        &&& after.slots[i].batch.wf()
        &&& (after.slots[i].batch.status is Pending || after.slots[i].batch.status is InFlight)
        &&& after.last_id matches Some(x) && after.slots[i].batch.id <= x
    } by {
        assert(after.slots[i].batch.id == m.slots[i].batch.id);
    }
    assert forall|i: int, j: int|
        #![trigger after.slots[i], after.slots[j]]
        0 <= i < j < after.slots.len() implies after.slots[i].batch.id < after.slots[j].batch.id by {
        assert(m.slots[i].batch.id < m.slots[j].batch.id);
    }
}

/// An acknowledgement keeps the buffer well formed.
pub proof fn lemma_acked_wf(m: BufferModel, id: u64, outcome: AckOutcome)
    requires
        m.wf(),
    ensures
        m.acked(id, outcome).wf(),
{
    let after = m.acked(id, outcome);
    if m.in_flight(id) {
        let v = m.index_of(id);
        assert(m.holds_at(id, v));
        if outcome is Retry {
            assert forall|i: int|
                #![trigger after.slots[i]]
                0 <= i < after.slots.len() implies {
                &&& after.slots[i].batch.wf()
                &&& (after.slots[i].batch.status is Pending || after.slots[i].batch.status is InFlight)
                &&& after.last_id matches Some(x) && after.slots[i].batch.id <= x
            } by {
                assert(after.slots[i].batch.id == m.slots[i].batch.id);
            }
            assert forall|i: int, j: int|
                #![trigger after.slots[i], after.slots[j]]
                0 <= i < j < after.slots.len() implies after.slots[i].batch.id
                < after.slots[j].batch.id by {
                assert(m.slots[i].batch.id < m.slots[j].batch.id);
            }
        } else {
            assert(after.slots == m.slots.remove(v));
            assert forall|i: int|
                #![trigger after.slots[i]]
                0 <= i < after.slots.len() implies {
                &&& after.slots[i].batch.wf()
                &&& (after.slots[i].batch.status is Pending || after.slots[i].batch.status is InFlight)
                &&& after.last_id matches Some(x) && after.slots[i].batch.id <= x
            } by {
                let si = if i < v {
                    i
                } else {
                    i + 1
                };
                assert(after.slots[i] == m.slots[si]);
            }
            assert forall|i: int, j: int|
                #![trigger after.slots[i], after.slots[j]]
                0 <= i < j < after.slots.len() implies after.slots[i].batch.id
                < after.slots[j].batch.id by {
                let si = if i < v {
                    i
                } else {
                    i + 1
                };
                let sj = if j < v {
                    j
                } else {
                    j + 1
                };
                assert(after.slots[i] == m.slots[si]);
                assert(after.slots[j] == m.slots[sj]);
            }
        }
    }
}

/// In a well-formed buffer an id is held by one slot at most.
pub proof fn lemma_index_unique(m: BufferModel, id: u64, i: int)
    requires
        m.wf(),
        m.holds_at(id, i),
    ensures
        m.contains(id),
        m.index_of(id) == i,
{
    let c = m.index_of(id);
    assert(m.holds_at(id, c));
    if c < i {
        assert(m.slots[c].batch.id < m.slots[i].batch.id);
    } else if i < c {
        assert(m.slots[i].batch.id < m.slots[c].batch.id);
    }
}

/// The victim is the oldest pending batch, or the front slot when no batch
/// is pending.
proof fn lemma_victim(m: BufferModel, v: int)
    requires
        m.first_pending_at(v) || (v == 0 && !exists|k: int| m.first_pending_at(k)),
    ensures
        m.victim() == v,
{
    if m.first_pending_at(v) {
        let c = m.victim();
        assert(m.first_pending_at(c));
        if c < v {
            assert(!(m.slots[c].batch.status is Pending));
        } else if v < c {
            assert(!(m.slots[v].batch.status is Pending));
        }
    }
}

/// Offering a batch keeps the buffer well formed.
pub proof fn lemma_enqueued_wf(m: BufferModel, batch: BatchView)
    requires
        m.wf(),
        batch.wf(),
    ensures
        m.enqueued(batch).wf(),
{
    let after = m.enqueued(batch);
    if m.admits(batch) is Ok {
        let slot = SlotModel { batch, handed_out_at: 0 };
        if m.slots.len() < m.capacity {
            assert forall|i: int, j: int|
                #![trigger after.slots[i], after.slots[j]]
                0 <= i < j < after.slots.len() implies after.slots[i].batch.id
                < after.slots[j].batch.id by {
                if j < m.slots.len() {
                    assert(after.slots[i] == m.slots[i] && after.slots[j] == m.slots[j]);
                } else {
                    assert(after.slots[i] == m.slots[i]);
                }
            }
            assert forall|i: int|
                #![trigger after.slots[i]]
                0 <= i < after.slots.len() implies {
                &&& after.slots[i].batch.wf()
                &&& (after.slots[i].batch.status is Pending || after.slots[i].batch.status is InFlight)
                &&& after.last_id matches Some(x) && after.slots[i].batch.id <= x
            } by {
                if i < m.slots.len() {
                    assert(after.slots[i] == m.slots[i]);
                }
            }
        } else {
            let v = m.victim();
            if exists|i: int| m.first_pending_at(i) {
                assert(m.first_pending_at(v));
            }
            assert(0 <= v < m.slots.len());
            let rest = m.slots.remove(v);
            assert forall|i: int| 0 <= i < rest.len() implies #[trigger] rest[i] == m.slots[if i
                < v {
                i
            } else {
                i + 1
            }] by {}
            assert forall|i: int, j: int|
                #![trigger after.slots[i], after.slots[j]]
                0 <= i < j < after.slots.len() implies after.slots[i].batch.id
                < after.slots[j].batch.id by {
                let si = if i < v {
                    i
                } else {
                    i + 1
                };
                let sj = if j < v {
                    j
                } else {
                    j + 1
                };
                assert(after.slots[i] == rest[i] && rest[i] == m.slots[si]);
                if j < rest.len() {
                    assert(after.slots[j] == rest[j] && rest[j] == m.slots[sj]);
                }
            }
            assert forall|i: int|
                #![trigger after.slots[i]]
                0 <= i < after.slots.len() implies {
                &&& after.slots[i].batch.wf()
                &&& (after.slots[i].batch.status is Pending || after.slots[i].batch.status is InFlight)
                &&& after.last_id matches Some(x) && after.slots[i].batch.id <= x
            } by {
                if i < rest.len() {
                    let si = if i < v {
                        i
                    } else {
                        i + 1
                    };
                    assert(after.slots[i] == rest[i] && rest[i] == m.slots[si]);
                }
            }
        }
    }
}

/// Every batch among the first `n` slots that a drain takes is handed out.
proof fn lemma_taken_is_handed_out(m: BufferModel, max: nat, n: int, i: int) -> (k: int)
    requires
        0 <= i < n <= m.slots.len(),
        m.takes(max, i),
    ensures
        0 <= k < m.hands_out_from(max, n).len(),
        m.hands_out_from(max, n)[k] == m.slots[i].batch.handed_out(),
    decreases n,
{
    if i == n - 1 {
        m.hands_out_from(max, n - 1).len() as int
    } else {
        lemma_taken_is_handed_out(m, max, n - 1, i)
    }
}

/// Every batch that a drain hands out from the first `n` slots was taken
/// from one of them.
proof fn lemma_handed_out_was_taken(m: BufferModel, max: nat, n: int, k: int) -> (i: int)
    requires
        0 <= n <= m.slots.len(),
        0 <= k < m.hands_out_from(max, n).len(),
    ensures
        0 <= i < n,
        m.takes(max, i),
        m.hands_out_from(max, n)[k] == m.slots[i].batch.handed_out(),
    decreases n,
{
    if m.takes(max, n - 1) && k == m.hands_out_from(max, n - 1).len() {
        n - 1
    } else {
        lemma_handed_out_was_taken(m, max, n - 1, k)
    }
}

/// A batch that is accepted stands at the back of the buffer, pending.
pub proof fn lemma_enqueue_appends(m: BufferModel, batch: BatchView)
    requires
        m.wf(),
        batch.wf(),
        m.admits(batch) is Ok,
    ensures
        m.enqueued(batch).slots.last().batch == batch,
        m.enqueued(batch).index_of(batch.id) == m.enqueued(batch).slots.len() - 1,
        m.enqueued(batch).pending(batch.id),
{
    let after = m.enqueued(batch);
    lemma_enqueued_wf(m, batch);
    lemma_index_unique(after, batch.id, after.slots.len() - 1);
}

/// What a drain does to one batch. The batch stays in its slot. Where fewer
/// than `max` pending batches are older and the batch is pending itself, it
/// is handed out and in flight since `now`; otherwise it is not handed out
/// and its slot is as before.
pub proof fn lemma_drain_takes(m: BufferModel, max: nat, now: u64, id: u64)
    requires
        m.wf(),
        m.contains(id),
    ensures
        m.drained(max, now).contains(id),
        m.drained(max, now).index_of(id) == m.index_of(id),
        m.takes(max, m.index_of(id)) ==> {
            &&& m.hands_out(max).contains(m.slots[m.index_of(id)].batch.handed_out())
            &&& m.drained(max, now).in_flight(id)
            &&& m.drained(max, now).slots[m.index_of(id)].handed_out_at == now
        },
        !m.takes(max, m.index_of(id)) ==> {
            &&& forall|k: int|
                0 <= k < m.hands_out(max).len() ==> (#[trigger] m.hands_out(max)[k]).id != id
            &&& m.drained(max, now).slots[m.index_of(id)] == m.slots[m.index_of(id)]
        },
{
    let i = m.index_of(id);
    let after = m.drained(max, now);
    assert(m.holds_at(id, i));
    lemma_drained_wf(m, max, now);
    assert(after.holds_at(id, i));
    lemma_index_unique(after, id, i);
    if m.takes(max, i) {
        let k = lemma_taken_is_handed_out(m, max, m.slots.len() as int, i);
        assert(m.hands_out(max)[k] == m.slots[i].batch.handed_out());
    } else {
        assert forall|k: int| 0 <= k < m.hands_out(max).len() implies (#[trigger] m.hands_out(
            max,
        )[k]).id != id by {
            let j = lemma_handed_out_was_taken(m, max, m.slots.len() as int, k);
            if m.slots[j].batch.id == id {
                lemma_index_unique(m, id, j);
            }
        }
    }
}

/// A batch in flight is not handed out again: no drain takes it, whatever
/// its size, and every drain leaves it in flight.
pub proof fn lemma_in_flight_stays_out(m: BufferModel, max: nat, now: u64, id: u64)
    requires
        m.wf(),
        m.in_flight(id),
    ensures
        forall|k: int| 0 <= k < m.hands_out(max).len() ==> (#[trigger] m.hands_out(max)[k]).id != id,
        m.drained(max, now).in_flight(id),
        m.drained(max, now).slots[m.index_of(id)] == m.slots[m.index_of(id)],
{
    lemma_drain_takes(m, max, now, id);
}

/// Acknowledging a batch in flight as delivered removes it, and counts no
/// loss.
pub proof fn lemma_ack_delivered_removes(m: BufferModel, id: u64)
    requires
        m.wf(),
        m.in_flight(id),
    ensures
        m.ack_verdict(id, AckOutcome::Delivered) == Ok::<DeliveryStatus, BufferError>(
            DeliveryStatus::Delivered,
        ),
        !m.acked(id, AckOutcome::Delivered).contains(id),
        m.acked(id, AckOutcome::Delivered).lost == m.lost,
        m.acked(id, AckOutcome::Delivered).last_id == m.last_id,
        m.acked(id, AckOutcome::Delivered).slots.len() == m.slots.len() - 1,
{
    lemma_removed_is_absent(m, id);
}

/// Acknowledging a batch in flight as dropped removes it and counts one
/// loss. A second acknowledgement for the same id is refused and counts
/// nothing.
pub proof fn lemma_ack_drop_counts_once(m: BufferModel, id: u64, again: AckOutcome)
    requires
        m.wf(),
        m.in_flight(id),
    ensures
        m.ack_verdict(id, AckOutcome::Drop) == Ok::<DeliveryStatus, BufferError>(
            DeliveryStatus::Failed(m.slots[m.index_of(id)].batch.retry_count),
        ),
        !m.acked(id, AckOutcome::Drop).contains(id),
        m.acked(id, AckOutcome::Drop).lost == bumped(m.lost),
        m.acked(id, AckOutcome::Drop).ack_verdict(id, again) == Err::<DeliveryStatus, BufferError>(
            BufferError::NotInFlight,
        ),
        m.acked(id, AckOutcome::Drop).acked(id, again) == m.acked(id, AckOutcome::Drop),
{
    lemma_removed_is_absent(m, id);
}

/// Once the slot of an id is cleared, the buffer does not hold that id.
proof fn lemma_removed_is_absent(m: BufferModel, id: u64)
    requires
        m.wf(),
        m.contains(id),
    ensures
        !(BufferModel { slots: m.slots.remove(m.index_of(id)), ..m }).contains(id),
{
    let v = m.index_of(id);
    let after = BufferModel { slots: m.slots.remove(v), ..m };
    assert(m.holds_at(id, v));
    assert forall|i: int| !after.holds_at(id, i) by {
        if 0 <= i < after.slots.len() {
            let si = if i < v {
                i
            } else {
                i + 1
            };
            assert(after.slots[i] == m.slots[si]);
            if m.slots[si].batch.id == id {
                lemma_index_unique(m, id, si);
            }
        }
    }
}

/// Acknowledging a batch in flight for retry leaves it in its slot, pending,
/// with one more retry on its count and its payload untouched.
pub proof fn lemma_ack_retry_pends(m: BufferModel, id: u64)
    requires
        m.wf(),
        m.in_flight(id),
    ensures
        m.ack_verdict(id, AckOutcome::Retry) == Ok::<DeliveryStatus, BufferError>(
            DeliveryStatus::Pending,
        ),
        m.acked(id, AckOutcome::Retry).pending(id),
        m.acked(id, AckOutcome::Retry).index_of(id) == m.index_of(id),
        m.acked(id, AckOutcome::Retry).slots[m.index_of(id)].batch == (BatchView {
            status: DeliveryStatus::Pending,
            retry_count: next_retry(m.slots[m.index_of(id)].batch.retry_count),
            ..m.slots[m.index_of(id)].batch
        }),
        m.acked(id, AckOutcome::Retry).lost == m.lost,
{
    let i = m.index_of(id);
    let after = m.acked(id, AckOutcome::Retry);
    assert(m.holds_at(id, i));
    lemma_acked_wf(m, id, AckOutcome::Retry);
    assert(after.holds_at(id, i));
    lemma_index_unique(after, id, i);
}

/// The life of a batch from acceptance to acknowledgement. A batch that is
/// accepted and then reached by a drain is in flight. Acknowledged as
/// delivered, it is gone. Acknowledged for retry, it is pending with one more
/// retry on its count, and a later drain that reaches it hands it out again.
pub proof fn lemma_enqueue_drain_ack(
    m: BufferModel,
    batch: BatchView,
    max: nat,
    now: u64,
    later: u64,
)
    requires
        m.wf(),
        batch.wf(),
        m.admits(batch) is Ok,
        m.enqueued(batch).takes(max, m.enqueued(batch).slots.len() - 1),
    ensures
        ({
            let handed = m.enqueued(batch).drained(max, now);
            let retried = handed.acked(batch.id, AckOutcome::Retry);
            &&& m.enqueued(batch).hands_out(max).contains(batch.handed_out())
            &&& handed.in_flight(batch.id)
            &&& !handed.acked(batch.id, AckOutcome::Delivered).contains(batch.id)
            &&& retried.pending(batch.id)
            &&& retried.slots[retried.index_of(batch.id)].batch == (BatchView {
                retry_count: next_retry(batch.retry_count),
                ..batch
            })
            &&& retried.takes(max, retried.index_of(batch.id)) ==> {
                &&& retried.drained(max, later).in_flight(batch.id)
                &&& retried.hands_out(max).contains(
                    retried.slots[retried.index_of(batch.id)].batch.handed_out(),
                )
            }
        }),
{
    let queued = m.enqueued(batch);
    let handed = queued.drained(max, now);
    let retried = handed.acked(batch.id, AckOutcome::Retry);
    lemma_enqueued_wf(m, batch);
    lemma_enqueue_appends(m, batch);
    assert(queued.contains(batch.id));
    lemma_drain_takes(queued, max, now, batch.id);
    lemma_drained_wf(queued, max, now);
    lemma_ack_delivered_removes(handed, batch.id);
    lemma_ack_retry_pends(handed, batch.id);
    lemma_acked_wf(handed, batch.id, AckOutcome::Retry);
    lemma_drain_takes(retried, max, later, batch.id);
}

/// What happens to a hand-out that is never acknowledged. Until it has
/// lasted `reclaim_after` it stays in flight. Once it has, reclaiming makes
/// the batch pending again with its retry count as it was, and counts it
/// once: a second reclaim finds nothing to revoke for it, an
/// acknowledgement that arrives late is refused and changes nothing, and no
/// loss is counted at any point.
pub proof fn lemma_reclaim_once(
    m: BufferModel,
    id: u64,
    now: u64,
    later: u64,
    late: AckOutcome,
)
    requires
        m.wf(),
        m.in_flight(id),
    ensures
        ({
            let i = m.index_of(id);
            let back = m.reclaimed(now);
            &&& back.lost == m.lost
            &&& back.index_of(id) == i
            &&& !m.expired(now, i) ==> back.in_flight(id) && back.slots[i] == m.slots[i]
            &&& m.expired(now, i) ==> {
                &&& back.pending(id)
                &&& back.slots[i].batch == m.slots[i].batch.with_status(DeliveryStatus::Pending)
                &&& !back.expired(later, i)
                &&& back.reclaimed(later).slots[i] == back.slots[i]
                &&& back.reclaimed(later).lost == m.lost
                &&& back.ack_verdict(id, late) == Err::<DeliveryStatus, BufferError>(
                    BufferError::NotInFlight,
                )
                &&& back.acked(id, late) == back
            }
        }),
{
    let i = m.index_of(id);
    let back = m.reclaimed(now);
    assert(m.holds_at(id, i));
    lemma_reclaimed_wf(m, now);
    assert(back.holds_at(id, i));
    lemma_index_unique(back, id, i);
}

/// The rule of eviction. An evicting buffer never refuses a pending batch
/// whose id is in sequence. While there is room, an accepted batch displaces
/// nothing and nothing is counted as lost. When the buffer is full, exactly
/// one batch leaves and is counted: the oldest pending batch, or the oldest
/// batch where none is pending. The batch that arrives is kept either way.
pub proof fn lemma_eviction_rule(m: BufferModel, batch: BatchView)
    requires
        m.wf(),
        batch.wf(),
        m.admits(batch) is Ok,
    ensures
        m.slots.len() < m.capacity ==> m.enqueued(batch).slots.drop_last() == m.slots
            && m.enqueued(batch).lost == m.lost,
        m.slots.len() == m.capacity ==> {
            &&& m.enqueued(batch).slots.drop_last() == m.slots.remove(m.victim())
            &&& m.enqueued(batch).lost == bumped(m.lost)
            &&& 0 <= m.victim() < m.slots.len()
            &&& m.first_pending_at(m.victim()) || (m.victim() == 0 && forall|i: int|
                #![trigger m.slots[i]]
                0 <= i < m.slots.len() ==> m.slots[i].batch.status is InFlight)
        },
        m.enqueued(batch).slots.last().batch == batch,
        m.enqueued(batch).slots.len() <= m.capacity,
{
    let after = m.enqueued(batch);
    let slot = SlotModel { batch, handed_out_at: 0 };
    if m.slots.len() < m.capacity {
        assert(m.slots.push(slot).drop_last() =~= m.slots);
    } else {
        let v = m.victim();
        if exists|i: int| m.first_pending_at(i) {
            assert(m.first_pending_at(v));
        } else {
            assert forall|i: int|
                #![trigger m.slots[i]]
                0 <= i < m.slots.len() implies m.slots[i].batch.status is InFlight by {
                lemma_some_pending_is_first(m, i);
            }
        }
        assert(m.slots.remove(v).push(slot).drop_last() =~= m.slots.remove(v));
    }
}

/// Where some batch is pending, some batch is the oldest pending one.
proof fn lemma_some_pending_is_first(m: BufferModel, i: int)
    requires
        0 <= i < m.slots.len(),
        !exists|k: int| m.first_pending_at(k),
    ensures
        !(m.slots[i].batch.status is Pending),
    decreases i,
{
    if m.slots[i].batch.status is Pending {
        if forall|j: int| #![trigger m.slots[j]] 0 <= j < i ==> !(m.slots[j].batch.status is Pending) {
            assert(m.first_pending_at(i));
        } else {
            let j = choose|j: int|
                #![trigger m.slots[j]]
                0 <= j < i && m.slots[j].batch.status is Pending;
            lemma_some_pending_is_first(m, j);
        }
    }
}

/// One operation on the buffer.
pub enum BufferOp {
    Enqueue(BatchView),
    Drain(nat, u64),
    Ack(u64, AckOutcome),
    Reclaim(u64),
}

impl BufferModel {
    /// The buffer after one operation.
    pub open spec fn apply(self, op: BufferOp) -> BufferModel {
        match op {
            BufferOp::Enqueue(batch) => self.enqueued(batch),
            BufferOp::Drain(max, now) => self.drained(max, now),
            BufferOp::Ack(id, outcome) => self.acked(id, outcome),
            BufferOp::Reclaim(now) => self.reclaimed(now),
        }
    }

    /// The buffer after a sequence of operations.
    pub open spec fn run(self, ops: Seq<BufferOp>) -> BufferModel
        decreases ops.len(),
    {
        if ops.len() == 0 {
            self
        } else {
            self.run(ops.drop_last()).apply(ops.last())
        }
    }

    /// Every batch that the operations offer is well formed.
    pub open spec fn offers_wf(ops: Seq<BufferOp>) -> bool {
        forall|k: int|
            0 <= k < ops.len() ==> (#[trigger] ops[k] matches BufferOp::Enqueue(batch) ==> batch.wf())
    }

    /// The id was accepted at some time, and the buffer no longer holds it.
    pub open spec fn gone(self, id: u64) -> bool {
        &&& !self.contains(id)
        &&& self.last_id matches Some(m) && id <= m
    }
}

/// A batch that has left the buffer stays out: whatever operations follow,
/// the buffer never holds its id again, so no drain can hand it out and no
/// acknowledgement can count it.
pub proof fn lemma_gone_for_good(m: BufferModel, id: u64, ops: Seq<BufferOp>)
    requires
        m.wf(),
        BufferModel::offers_wf(ops),
        m.gone(id),
    ensures
        m.run(ops).wf(),
        m.run(ops).gone(id),
        forall|max: nat, k: int|
            0 <= k < m.run(ops).hands_out(max).len() ==> (#[trigger] m.run(ops).hands_out(
                max,
            )[k]).id != id,
        forall|outcome: AckOutcome| #[trigger]
            m.run(ops).ack_verdict(id, outcome) == Err::<DeliveryStatus, BufferError>(
                BufferError::NotInFlight,
            ),
    decreases ops.len(),
{
    let end = m.run(ops);
    if ops.len() > 0 {
        let prev = m.run(ops.drop_last());
        lemma_gone_for_good(m, id, ops.drop_last());
        lemma_apply_wf(prev, ops.last());
        lemma_gone_after(prev, id, ops.last());
    }
    assert forall|max: nat, k: int| 0 <= k < end.hands_out(max).len() implies (
    #[trigger] end.hands_out(max)[k]).id != id by {
        let j = lemma_handed_out_was_taken(end, max, end.slots.len() as int, k);
        assert(end.holds_at(end.slots[j].batch.id, j));
    }
}

/// Every operation keeps the buffer well formed.
pub proof fn lemma_apply_wf(m: BufferModel, op: BufferOp)
    requires
        m.wf(),
        op matches BufferOp::Enqueue(batch) ==> batch.wf(),
    ensures
        m.apply(op).wf(),
{
    match op {
        BufferOp::Enqueue(batch) => lemma_enqueued_wf(m, batch),
        BufferOp::Drain(max, now) => lemma_drained_wf(m, max, now),
        BufferOp::Ack(id, outcome) => lemma_acked_wf(m, id, outcome),
        BufferOp::Reclaim(now) => lemma_reclaimed_wf(m, now),
    }
}

/// One operation does not bring back a batch that has left.
proof fn lemma_gone_after(m: BufferModel, id: u64, op: BufferOp)
    requires
        m.wf(),
        m.gone(id),
    ensures
        m.apply(op).gone(id),
{
    let after = m.apply(op);
    assert forall|i: int| !after.holds_at(id, i) by {
        if 0 <= i < after.slots.len() {
            match op {
                BufferOp::Enqueue(batch) => {
                    if m.admits(batch) is Ok {
                        if m.slots.len() < m.capacity {
                            if i < m.slots.len() {
                                assert(m.holds_at(after.slots[i].batch.id, i));
                            }
                        } else {
                            let v = m.victim();
                            if exists|j: int| m.first_pending_at(j) {
                                assert(m.first_pending_at(v));
                            }
                            let rest = m.slots.remove(v);
                            if i < rest.len() {
                                let si = if i < v {
                                    i
                                } else {
                                    i + 1
                                };
                                assert(after.slots[i] == rest[i] && rest[i] == m.slots[si]);
                                assert(m.holds_at(after.slots[i].batch.id, si));
                            }
                        }
                    } else {
                        assert(m.holds_at(after.slots[i].batch.id, i));
                    }
                },
                BufferOp::Drain(max, now) => {
                    assert(m.holds_at(after.slots[i].batch.id, i));
                },
                BufferOp::Ack(other, outcome) => {
                    if m.in_flight(other) {
                        let v = m.index_of(other);
                        assert(m.holds_at(other, v));
                        if outcome is Retry {
                            assert(m.holds_at(after.slots[i].batch.id, i));
                        } else {
                            let si = if i < v {
                                i
                            } else {
                                i + 1
                            };
                            assert(after.slots[i] == m.slots[si]);
                            assert(m.holds_at(after.slots[i].batch.id, si));
                        }
                    } else {
                        assert(m.holds_at(after.slots[i].batch.id, i));
                    }
                },
                BufferOp::Reclaim(now) => {
                    assert(m.holds_at(after.slots[i].batch.id, i));
                },
            }
        }
    }
}

/// A batch that an operation leaves in the buffer keeps its id and its
/// payload, its retry count does not shrink, and its status changes only
/// along the life cycle of a batch.
pub proof fn lemma_held_batch_follows_life_cycle(m: BufferModel, op: BufferOp, id: u64)
    requires
        m.wf(),
        op matches BufferOp::Enqueue(batch) ==> batch.wf(),
        m.contains(id),
        m.apply(op).contains(id),
    ensures
        ({
            let before = m.slots[m.index_of(id)].batch;
            let after = m.apply(op).slots[m.apply(op).index_of(id)].batch;
            &&& after.id == before.id
            &&& after.measurements == before.measurements
            &&& after.retry_count >= before.retry_count
            &&& may_follow(before.status, after.status)
        }),
{
    let end = m.apply(op);
    let i = m.index_of(id);
    let j = end.index_of(id);
    assert(m.holds_at(id, i));
    assert(end.holds_at(id, j));
    lemma_apply_wf(m, op);
    match op {
        BufferOp::Enqueue(batch) => {
            if m.admits(batch) is Ok {
                if m.slots.len() < m.capacity {
                    assert(end.holds_at(id, i));
                    lemma_index_unique(end, id, i);
                } else {
                    let v = m.victim();
                    if exists|k: int| m.first_pending_at(k) {
                        assert(m.first_pending_at(v));
                    }
                    let rest = m.slots.remove(v);
                    assert(j < rest.len());
                    let sj = if j < v {
                        j
                    } else {
                        j + 1
                    };
                    assert(end.slots[j] == rest[j] && rest[j] == m.slots[sj]);
                    lemma_index_unique(m, id, sj);
                }
            }
        },
        BufferOp::Drain(max, now) => {
            assert(end.holds_at(id, i));
            lemma_index_unique(end, id, i);
        },
        BufferOp::Ack(other, outcome) => {
            if m.in_flight(other) {
                let v = m.index_of(other);
                assert(m.holds_at(other, v));
                if outcome is Retry {
                    assert(end.holds_at(id, i));
                    lemma_index_unique(end, id, i);
                } else {
                    let sj = if j < v {
                        j
                    } else {
                        j + 1
                    };
                    assert(end.slots[j] == m.slots[sj]);
                    lemma_index_unique(m, id, sj);
                }
            }
        },
        BufferOp::Reclaim(now) => {
            assert(end.holds_at(id, i));
            lemma_index_unique(end, id, i);
        },
    }
}

} // verus!
