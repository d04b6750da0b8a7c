//! The sampling loop as a state machine.
//!
//! One round runs `Idle → Sampling → Building → Enqueuing → Transmitting →
//! Idle`. The caller owns the timer, the sensor and the transmitter: it
//! performs the action that each step returns and reports what happened as
//! the next event. A fault in one round ends the round, never the loop; only
//! a cancellation stops it.

use vstd::prelude::*;
use crate::batch::{non_decreasing, Batch, BatchView, DeliveryStatus};
use crate::buffer::{bumped, BufferError, BufferModel, DeliveryBuffer};
use crate::measurement::{
    is_build_of,
    lemma_one_measurement_per_pair,
    malformed_count,
    saturated,
    views,
    Measurement,
    MeasurementBuilder,
    MeasurementView,
};
use crate::reading::{collect_sample, vetted, Reading, SensorError};

verus! {

/// The tick period used when none is chosen, in milliseconds.
pub const DEFAULT_PERIOD_MS: u64 = 10000;

/// Where the loop stands within a round.
#[derive(Clone, Copy, Debug, PartialEq, Eq, Structural)]
pub enum LoopState {
    /// Waiting for the next tick.
    Idle,
    /// Waiting for the sensor.
    Sampling,
    /// Holding a sample that is to be turned into measurements.
    Building,
    /// Holding measurements that are to be offered to the buffer.
    Enqueuing,
    /// Waiting for the transmitter to be woken.
    Transmitting,
    /// Cancelled. The loop does nothing any more.
    Stopped,
}

/// A fault that ended a round early.
#[derive(Clone, Copy, Debug, PartialEq, Eq, Structural)]
pub enum LoopFault {
    /// The sample was refused.
    Sensor(SensorError),
    /// The buffer refused the batch.
    Buffer(BufferError),
}

/// What the caller reports to the loop.
#[derive(Debug, PartialEq, Eq)]
pub enum LoopEvent {
    /// The timer fired.
    Tick,
    /// The sensor was read: one entry for each channel, `None` where the
    /// hardware call failed.
    Sampled(Vec<Option<Reading>>),
    /// The action asked for is done and brought nothing to report.
    Proceed,
    /// The loop is to stop.
    Cancel,
}

/// What the loop asks of the caller.
#[derive(Clone, Copy, Debug, PartialEq, Eq, Structural)]
pub enum LoopAction {
    /// Wait for the timer, then report `Tick`.
    AwaitTick,
    /// Read the sensor, then report `Sampled`.
    Sample,
    /// Report `Proceed` at once.
    Proceed,
    /// Wake the transmitter, then report `Proceed`.
    Transmit,
    /// Log the fault, wait for the timer, then report `Tick`.
    Recover(LoopFault),
    /// Stop calling.
    Halt,
    /// The event does not fit the state and was ignored; go on as before.
    Ignore,
}

/// The loop as plain mathematical data.
pub struct LoopModel {
    pub state: LoopState,
    /// The value of the `host` tag.
    pub host: Seq<char>,
    pub period_ms: u64,
    /// The id that the next batch gets.
    pub next_id: u64,
    /// The sample waiting to be built into measurements.
    pub readings: Seq<Reading>,
    /// The measurements waiting to be offered to the buffer.
    pub measurements: Seq<MeasurementView>,
    /// Readings skipped so far because their value was not finite.
    pub rejected: u64,
    /// Batches that the buffer refused so far.
    pub discarded: u64,
}

impl LoopModel {
    /// The invariant of the loop: a sample is held only while building,
    /// measurements only while enqueuing, and these are ordered by time.
    pub open spec fn wf(self) -> bool {
        &&& self.state is Building || self.readings.len() == 0
        &&& self.state is Enqueuing || self.measurements.len() == 0
        &&& non_decreasing(self.measurements)
    }

    /// The batch that the loop offers to the buffer when it holds
    /// measurements.
    pub open spec fn staged_batch(self) -> BatchView {
        BatchView {
            id: self.next_id,
            measurements: self.measurements,
            status: DeliveryStatus::Pending,
            retry_count: 0,
        }
    }

    /// The loop without the data it holds for the round, in another state.
    pub open spec fn cleared(self, state: LoopState) -> LoopModel {
        LoopModel { state, readings: Seq::empty(), measurements: Seq::empty(), ..self }
    }
}

/// One step of the loop: from the loop `pre` and the buffer `buf`, the event
/// leads to the loop `post`, the buffer `buf_after` and the action.
///
/// A stopped loop stays stopped and answers `Halt`. A cancellation stops
/// the loop in any state. A tick starts a round when the loop is idle. A
/// sample that is accepted is kept for building; one that is refused ends
/// the round with the sensor's fault. Building turns the sample into
/// measurements. Enqueuing offers them to the buffer as one batch under the
/// next id, unless there are none; a refusal by the buffer ends the round
/// with the buffer's fault and is counted. After the transmitter was woken
/// the loop is idle again. An event that does not fit the state changes
/// nothing.
pub open spec fn follows(
    pre: LoopModel,
    buf: BufferModel,
    event: LoopEvent,
    post: LoopModel,
    buf_after: BufferModel,
    action: LoopAction,
) -> bool {
    if pre.state is Stopped {
        post == pre && buf_after == buf && action == LoopAction::Halt
    } else {
        match (pre.state, event) {
            (_, LoopEvent::Cancel) => {
                &&& post == pre.cleared(LoopState::Stopped)
                &&& buf_after == buf
                &&& action == LoopAction::Halt
            },
            (LoopState::Idle, LoopEvent::Tick) => {
                &&& post == LoopModel { state: LoopState::Sampling, ..pre }
                &&& buf_after == buf
                &&& action == LoopAction::Sample
            },
            (LoopState::Sampling, LoopEvent::Sampled(channels)) => {
                &&& buf_after == buf
                &&& match vetted(channels@) {
                    Ok(readings) => {
                        &&& post == LoopModel { state: LoopState::Building, readings, ..pre }
                        &&& action == LoopAction::Proceed
                    },
                    Err(e) => {
                        &&& post == LoopModel { state: LoopState::Idle, ..pre }
                        &&& action == LoopAction::Recover(LoopFault::Sensor(e))
                    },
                }
            },
            (LoopState::Building, LoopEvent::Proceed) => {
                &&& is_build_of(post.measurements, pre.readings, pre.host)
                &&& post == LoopModel {
                    state: LoopState::Enqueuing,
                    readings: Seq::empty(),
                    measurements: post.measurements,
                    rejected: saturated(pre.rejected + malformed_count(pre.readings)),
                    ..pre
                }
                &&& buf_after == buf
                &&& action == LoopAction::Proceed
            },
            (LoopState::Enqueuing, LoopEvent::Proceed) => {
                if pre.measurements.len() == 0 {
                    &&& post == LoopModel { state: LoopState::Transmitting, ..pre }
                    &&& buf_after == buf
                    &&& action == LoopAction::Transmit
                } else {
                    &&& buf_after == buf.enqueued(pre.staged_batch())
                    &&& match buf.admits(pre.staged_batch()) {
                        Ok(_) => {
                            &&& post == LoopModel {
                                next_id: bumped(pre.next_id),
                                ..pre.cleared(LoopState::Transmitting)
                            }
                            &&& action == LoopAction::Transmit
                        },
                        Err(e) => {
                            &&& post == LoopModel {
                                next_id: bumped(pre.next_id),
                                discarded: bumped(pre.discarded),
                                ..pre.cleared(LoopState::Idle)
                            }
                            &&& action == LoopAction::Recover(LoopFault::Buffer(e))
                        },
                    }
                }
            },
            (LoopState::Transmitting, LoopEvent::Proceed) => {
                &&& post == LoopModel { state: LoopState::Idle, ..pre }
                &&& buf_after == buf
                &&& action == LoopAction::AwaitTick
            },
            _ => post == pre && buf_after == buf && action == LoopAction::Ignore,
        }
    }
}

/// The sampling loop.
pub struct SampleLoop {
    state: LoopState,
    host_tag: String,
    period_ms: u64,
    next_id: u64,
    readings: Vec<Reading>,
    measurements: Vec<Measurement>,
    builder: MeasurementBuilder,
    discarded: u64,
}

impl View for SampleLoop {
    type V = LoopModel;

    closed spec fn view(&self) -> LoopModel {
        LoopModel {
            state: self.state,
            host: self.host_tag@,
            period_ms: self.period_ms,
            next_id: self.next_id,
            readings: self.readings@,
            measurements: views(self.measurements@),
            rejected: self.builder.rejected(),
            discarded: self.discarded,
        }
    }
}

impl SampleLoop {
    /// The invariant that every step keeps.
    pub open spec fn wf(&self) -> bool {
        self@.wf()
    }

    /// An idle loop that tags its measurements with `host_tag`, ticks every
    /// `period_ms` milliseconds and numbers its batches from 0.
    pub fn new(host_tag: String, period_ms: u64) -> (l: SampleLoop)
        ensures
            l.wf(),
            l@ == (LoopModel {
                state: LoopState::Idle,
                host: host_tag@,
                period_ms,
                next_id: 0,
                readings: Seq::empty(),
                measurements: Seq::empty(),
                rejected: 0,
                discarded: 0,
            }),
    {
        let l = SampleLoop {
            state: LoopState::Idle,
            host_tag,
            period_ms,
            next_id: 0,
            readings: Vec::new(),
            measurements: Vec::new(),
            builder: MeasurementBuilder::new(),
            discarded: 0,
        };
        assert(l@.readings =~= Seq::empty());
        assert(l@.measurements =~= Seq::empty());
        l
    }

    /// Where the loop stands.
    pub fn state(&self) -> (state: LoopState)
        ensures
            state == self@.state,
    {
        self.state
    }

    /// The tick period in milliseconds.
    pub fn period_ms(&self) -> (ms: u64)
        ensures
            ms == self@.period_ms,
    {
        self.period_ms
    }

    /// Readings skipped so far because their value was not finite.
    pub fn rejected(&self) -> (n: u64)
        ensures
            n == self@.rejected,
    {
        self.builder.rejected_count()
    }

    /// Batches that the buffer refused so far.
    pub fn discarded(&self) -> (n: u64)
        ensures
            n == self@.discarded,
    {
        self.discarded
    }

    /// Drops what the loop holds for the round.
    fn clear(&mut self)
        ensures
            final(self)@ == old(self)@.cleared(old(self)@.state),
    {
        self.readings = Vec::new();
        self.measurements = Vec::new();
        assert(self@.readings =~= Seq::empty());
        assert(self@.measurements =~= Seq::empty());
    }

    /// Turns the sample held into measurements.
    fn build(&mut self)
        requires
            old(self).wf(),
            old(self)@.state is Building,
        ensures
            final(self).wf(),
            is_build_of(final(self)@.measurements, old(self)@.readings, old(self)@.host),
            final(self)@ == (LoopModel {
                state: LoopState::Enqueuing,
                readings: Seq::empty(),
                measurements: final(self)@.measurements,
                rejected: saturated(old(self)@.rejected + malformed_count(old(self)@.readings)),
                ..old(self)@
            }),
    {
        let mut sample: Vec<Reading> = Vec::new();
        std::mem::swap(&mut self.readings, &mut sample);
        let built = self.builder.build(&sample, self.host_tag.as_str());
        proof {
            lemma_one_measurement_per_pair(views(built@), sample@, self.host_tag@);
        }
        self.measurements = built;
        self.state = LoopState::Enqueuing;
        assert(self@.readings =~= Seq::empty());
    }

    /// Offers the measurements held to the buffer as one batch.
    fn enqueue(&mut self, buffer: &mut DeliveryBuffer) -> (action: LoopAction)
        requires
            old(self).wf(),
            old(self)@.state is Enqueuing,
            old(buffer).wf(),
        ensures
            final(self).wf(),
            final(buffer).wf(),
            follows(
                old(self)@,
                old(buffer)@,
                LoopEvent::Proceed,
                final(self)@,
                final(buffer)@,
                action,
            ),
    {
        if self.measurements.len() == 0 {
            self.state = LoopState::Transmitting;
            return LoopAction::Transmit;
        }
        let mut staged: Vec<Measurement> = Vec::new();
        std::mem::swap(&mut self.measurements, &mut staged);
        let id: u64 = self.next_id;
        if self.next_id < u64::MAX {
            self.next_id = self.next_id + 1;
        }
        assert(self@.measurements =~= Seq::empty());
        assert(self@.readings =~= Seq::empty());
        match buffer.enqueue(Batch::assemble(id, staged)) {
            Ok(_) => {
                self.state = LoopState::Transmitting;
                LoopAction::Transmit
            },
            Err(e) => {
                if self.discarded < u64::MAX {
                    self.discarded = self.discarded + 1;
                }
                self.state = LoopState::Idle;
                LoopAction::Recover(LoopFault::Buffer(e))
            },
        }
    }

    /// Takes one step: applies `event` to the loop and returns what the
    /// caller is to do next. `buffer` is the delivery buffer that the loop
    /// feeds; it is touched only by the enqueuing step.
    pub fn advance(&mut self, event: LoopEvent, buffer: &mut DeliveryBuffer) -> (action: LoopAction)
        requires
            old(self).wf(),
            old(buffer).wf(),
        ensures
            final(self).wf(),
            final(buffer).wf(),
            follows(old(self)@, old(buffer)@, event, final(self)@, final(buffer)@, action),
    {
        if let LoopState::Stopped = self.state {
            return LoopAction::Halt;
        }
        match event {
            LoopEvent::Cancel => {
                self.clear();
                self.state = LoopState::Stopped;
                LoopAction::Halt
            },
            LoopEvent::Tick => match self.state {
                LoopState::Idle => {
                    self.state = LoopState::Sampling;
                    LoopAction::Sample
                },
                _ => LoopAction::Ignore,
            },
            LoopEvent::Sampled(channels) => match self.state {
                LoopState::Sampling => match collect_sample(&channels) {
                    Ok(readings) => {
                        self.readings = readings;
                        self.state = LoopState::Building;
                        LoopAction::Proceed
                    },
                    Err(e) => {
                        self.state = LoopState::Idle;
                        LoopAction::Recover(LoopFault::Sensor(e))
                    },
                },
                _ => LoopAction::Ignore,
            },
            LoopEvent::Proceed => match self.state {
                LoopState::Building => {
                    self.build();
                    LoopAction::Proceed
                },
                LoopState::Enqueuing => self.enqueue(buffer),
                LoopState::Transmitting => {
                    self.state = LoopState::Idle;
                    LoopAction::AwaitTick
                },
                _ => LoopAction::Ignore,
            },
        }
    }
}

/// The loop stops on a cancellation and on nothing else, and once stopped it
/// stays stopped.
pub proof fn lemma_stops_only_on_cancel(
    pre: LoopModel,
    buf: BufferModel,
    event: LoopEvent,
    post: LoopModel,
    buf_after: BufferModel,
    action: LoopAction,
)
    requires
        follows(pre, buf, event, post, buf_after, action),
    ensures
        pre.state is Stopped ==> post.state is Stopped,
        post.state is Stopped ==> pre.state is Stopped || event is Cancel,
        event is Cancel ==> post.state is Stopped,
        action is Halt <==> post.state is Stopped,
{
}

/// The order of the states within a round.
pub open spec fn successor(state: LoopState) -> LoopState {
    match state {
        LoopState::Idle => LoopState::Sampling,
        LoopState::Sampling => LoopState::Building,
        LoopState::Building => LoopState::Enqueuing,
        LoopState::Enqueuing => LoopState::Transmitting,
        LoopState::Transmitting => LoopState::Idle,
        LoopState::Stopped => LoopState::Stopped,
    }
}

/// A step leaves the state as it is, moves it to the next state of the
/// round, ends the round early with a fault, or stops the loop. Only the
/// enqueuing step touches the buffer.
pub proof fn lemma_round_order(
    pre: LoopModel,
    buf: BufferModel,
    event: LoopEvent,
    post: LoopModel,
    buf_after: BufferModel,
    action: LoopAction,
)
    requires
        follows(pre, buf, event, post, buf_after, action),
    ensures
        ({
            ||| post.state == pre.state && (action is Ignore || action is Halt)
            ||| post.state == successor(pre.state)
            ||| post.state is Idle && action is Recover
            ||| post.state is Stopped && event is Cancel
        }),
        !(pre.state is Enqueuing) ==> buf_after == buf,
{
}

} // verus!
