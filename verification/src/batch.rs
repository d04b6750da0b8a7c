//! Batches: ordered groups of measurements tracked as one unit of delivery.

use vstd::prelude::*;
use crate::measurement::{views, Measurement, MeasurementView};

verus! {

/// Where a batch stands on its way to the endpoint.
#[derive(Clone, Copy, Debug, PartialEq, Eq, Structural)]
pub enum DeliveryStatus {
    /// Waiting in the buffer, eligible to be handed out.
    Pending,
    /// Handed out for transmission, not yet acknowledged.
    InFlight,
    /// Accepted by the endpoint.
    Delivered,
    /// Given up after the stated number of retries.
    Failed(u32),
}

/// How a transmission attempt ended, as reported back to the buffer.
#[derive(Clone, Copy, Debug, PartialEq, Eq, Structural)]
pub enum AckOutcome {
    /// The endpoint accepted the batch.
    Delivered,
    /// The attempt failed; the batch is to be sent again.
    Retry,
    /// The batch is to be given up.
    Drop,
}

/// Timestamps never decrease along the sequence.
pub open spec fn non_decreasing(ms: Seq<MeasurementView>) -> bool {
    forall|k: int, l: int|
        #![trigger ms[k], ms[l]]
        0 <= k <= l < ms.len() ==> ms[k].timestamp <= ms[l].timestamp
}

/// One more, unless the counter is at its largest value already.
pub open spec fn next_retry(n: u32) -> u32 {
    if n < u32::MAX {
        (n + 1) as u32
    } else {
        n
    }
}

/// A batch as plain mathematical data.
pub struct BatchView {
    pub id: u64,
    pub measurements: Seq<MeasurementView>,
    pub status: DeliveryStatus,
    pub retry_count: u32,
}

impl BatchView {
    /// The payload is ordered by time.
    pub open spec fn wf(self) -> bool {
        non_decreasing(self.measurements)
    }

    /// The same batch in another status.
    pub open spec fn with_status(self, status: DeliveryStatus) -> BatchView {
        BatchView { status, ..self }
    }

    /// The batch after it was handed out for transmission. Only a pending
    /// batch can be handed out.
    pub open spec fn handed_out(self) -> BatchView {
        if self.status is Pending {
            self.with_status(DeliveryStatus::InFlight)
        } else {
            self
        }
    }

    /// The batch after an attempt to send it ended with `outcome`. Only a
    /// batch in flight can be resolved.
    pub open spec fn resolved(self, outcome: AckOutcome) -> BatchView {
        if self.status is InFlight {
            match outcome {
                AckOutcome::Delivered => self.with_status(DeliveryStatus::Delivered),
                AckOutcome::Retry => BatchView {
                    status: DeliveryStatus::Pending,
                    retry_count: next_retry(self.retry_count),
                    ..self
                },
                AckOutcome::Drop => self.with_status(DeliveryStatus::Failed(self.retry_count)),
            }
        } else {
            self
        }
    }

    /// The batch after its hand-out was revoked without an acknowledgement.
    pub open spec fn reclaimed(self) -> BatchView {
        if self.status is InFlight {
            self.with_status(DeliveryStatus::Pending)
        } else {
            self
        }
    }
}

/// A delivery status may only change along the life cycle of a batch:
/// pending batches are handed out, batches in flight are delivered, retried,
/// reclaimed or given up, and a batch that was delivered or given up stays
/// so.
pub open spec fn may_follow(from: DeliveryStatus, to: DeliveryStatus) -> bool {
    from == to || match from {
        DeliveryStatus::Pending => to is InFlight,
        DeliveryStatus::InFlight => to is Delivered || to is Pending || to is Failed,
        DeliveryStatus::Delivered => false,
        DeliveryStatus::Failed(_) => false,
    }
}

/// An ordered group of measurements with a sequence id and a delivery status.
#[derive(Debug, PartialEq, Eq)]
pub struct Batch {
    id: u64,
    measurements: Vec<Measurement>,
    status: DeliveryStatus,
    retry_count: u32,
}

impl View for Batch {
    type V = BatchView;

    closed spec fn view(&self) -> BatchView {
        BatchView {
            id: self.id,
            measurements: views(self.measurements@),
            status: self.status,
            retry_count: self.retry_count,
        }
    }
}

/// The views of a sequence of batches.
pub open spec fn batch_views(batches: Seq<Batch>) -> Seq<BatchView> {
    batches.map_values(|b: Batch| b@)
}

/// Tells whether the timestamps never decrease.
fn check_order(measurements: &Vec<Measurement>) -> (ok: bool)
    ensures
        ok == non_decreasing(views(measurements@)),
{
    let ghost ms = views(measurements@);
    let mut i: usize = 1;
    while i < measurements.len()
        invariant
            1 <= i,
            ms == views(measurements@),
            forall|k: int, l: int|
                #![trigger ms[k], ms[l]]
                0 <= k <= l < i && l < ms.len() ==> ms[k].timestamp <= ms[l].timestamp,
        decreases measurements.len() - i,
    {
        if measurements[i - 1].timestamp > measurements[i].timestamp {
            assert(ms[i - 1].timestamp > ms[i as int].timestamp);
            return false;
        }
        proof {
            assert forall|k: int, l: int|
                #![trigger ms[k], ms[l]]
                0 <= k <= l < i + 1 && l < ms.len() implies ms[k].timestamp
                <= ms[l].timestamp by {
                if l == i && k < i {
                    assert(ms[k].timestamp <= ms[i - 1].timestamp);
                }
            }
        }
        i += 1;
    }
    true
}

impl Batch {
    /// The payload is ordered by time.
    pub open spec fn wf(&self) -> bool {
        self@.wf()
    }

    /// A new pending batch that was never retried. The measurements must be
    /// ordered by time: a payload that is not is refused.
    pub fn new(id: u64, measurements: Vec<Measurement>) -> (batch: Option<Batch>)
        ensures
            non_decreasing(views(measurements@)) <==> batch is Some,
            batch matches Some(b) ==> b.wf() && b@ == (BatchView {
                id,
                measurements: views(measurements@),
                status: DeliveryStatus::Pending,
                retry_count: 0,
            }),
    {
        if check_order(&measurements) {
            Some(Batch::assemble(id, measurements))
        } else {
            None
        }
    }

    /// A new pending batch from measurements known to be ordered by time.
    pub(crate) fn assemble(id: u64, measurements: Vec<Measurement>) -> (batch: Batch)
        requires
            non_decreasing(views(measurements@)),
        ensures
            batch.wf(),
            batch@ == (BatchView {
                id,
                measurements: views(measurements@),
                status: DeliveryStatus::Pending,
                retry_count: 0,
            }),
    {
        Batch { id, measurements, status: DeliveryStatus::Pending, retry_count: 0 }
    }

    /// The sequence id.
    pub fn id(&self) -> (id: u64)
        ensures
            id == self@.id,
    {
        self.id
    }

    /// The delivery status.
    pub fn status(&self) -> (status: DeliveryStatus)
        ensures
            status == self@.status,
    {
        self.status
    }

    /// How often the batch was sent again after a failed attempt.
    pub fn retry_count(&self) -> (n: u32)
        ensures
            n == self@.retry_count,
    {
        self.retry_count
    }

    /// The payload.
    pub fn measurements(&self) -> (ms: &Vec<Measurement>)
        ensures
            views(ms@) == self@.measurements,
    {
        &self.measurements
    }

    /// Marks a pending batch as handed out; leaves any other batch as it is.
    pub fn hand_out(&mut self)
        ensures
            final(self)@ == old(self)@.handed_out(),
    {
        if let DeliveryStatus::Pending = self.status {
            self.status = DeliveryStatus::InFlight;
        }
    }

    /// Records how the attempt to send a batch in flight ended; leaves any
    /// other batch as it is.
    pub fn resolve(&mut self, outcome: AckOutcome)
        ensures
            final(self)@ == old(self)@.resolved(outcome),
    {
        if let DeliveryStatus::InFlight = self.status {
            match outcome {
                AckOutcome::Delivered => {
                    self.status = DeliveryStatus::Delivered;
                },
                AckOutcome::Retry => {
                    self.status = DeliveryStatus::Pending;
                    if self.retry_count < u32::MAX {
                        self.retry_count = self.retry_count + 1;
                    }
                },
                AckOutcome::Drop => {
                    self.status = DeliveryStatus::Failed(self.retry_count);
                },
            }
        }
    }

    /// Returns a batch in flight to the pending state without counting a
    /// retry; leaves any other batch as it is.
    pub fn reclaim(&mut self)
        ensures
            final(self)@ == old(self)@.reclaimed(),
    {
        if let DeliveryStatus::InFlight = self.status {
            self.status = DeliveryStatus::Pending;
        }
    }
}

impl Clone for Batch {
    fn clone(&self) -> (copy: Batch)
        ensures
            copy@ == self@,
    {
        let mut measurements: Vec<Measurement> = Vec::new();
        let mut i: usize = 0;
        while i < self.measurements.len()
            invariant
                i <= self.measurements.len(),
                measurements.len() == i,
                forall|k: int| 0 <= k < i ==> (#[trigger] measurements[k])@ == self.measurements[k]@,
            decreases self.measurements.len() - i,
        {
            measurements.push(self.measurements[i].clone());
            i += 1;
        }
        assert(views(measurements@) =~= views(self.measurements@));
        Batch { id: self.id, measurements, status: self.status, retry_count: self.retry_count }
    }
}

/// Every step in the life of a batch follows the life cycle.
pub proof fn lemma_steps_follow_life_cycle(b: BatchView, outcome: AckOutcome)
    ensures
        may_follow(b.status, b.handed_out().status),
        may_follow(b.status, b.resolved(outcome).status),
        may_follow(b.status, b.reclaimed().status),
        b.status is Delivered ==> b.handed_out() == b && b.resolved(outcome) == b && b.reclaimed()
            == b,
{
}

} // verus!
