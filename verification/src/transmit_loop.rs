//! The sending side as a state machine.
//!
//! The transmitter takes batches from the delivery buffer, has them sent one
//! by one, and tells the buffer how each attempt ended. The caller owns the
//! network and the clock: it performs the action that each step returns and
//! reports what happened as the next event. Sampling goes on meanwhile; the
//! two sides meet only in the buffer.

use vstd::prelude::*;
use crate::batch::{batch_views, Batch, BatchView};
use crate::buffer::{BufferModel, DeliveryBuffer};
use crate::transmit::{Settlement, TransmitError, Transmitter};

verus! {

/// Where the transmitter stands.
#[derive(Clone, Copy, Debug, PartialEq, Eq, Structural)]
pub enum SendState {
    /// Nothing in hand; waiting to be woken.
    Idle,
    /// Batches in hand; the first of them is being sent.
    Sending,
    /// Nothing in hand; waiting before the next attempt.
    Waiting,
    /// Cancelled. The transmitter does nothing any more.
    Stopped,
}

/// What the caller reports to the transmitter. Every `now` is a reading of
/// one monotonic clock, in milliseconds.
#[derive(Clone, Copy, Debug, PartialEq, Eq)]
pub enum SendEvent {
    /// There may be batches to send.
    Wake { now: u64 },
    /// The attempt asked for has ended with `result`. `sample` is any random
    /// number, used for jitter.
    Sent { result: Result<(), TransmitError>, sample: u64, now: u64 },
    /// The wait asked for is over.
    WaitOver { now: u64 },
    /// The transmitter is to stop once the batches in hand are dealt with.
    Cancel,
}

/// What the transmitter asks of the caller.
#[derive(Debug, PartialEq, Eq)]
pub enum SendAction {
    /// Wait until there may be batches to send, then report `Wake`.
    AwaitWake,
    /// Send this batch, then report `Sent`.
    Send(Batch),
    /// Wait this many milliseconds, then report `WaitOver`.
    Sleep(u64),
    /// Stop calling.
    Halt,
    /// The event was taken note of or did not fit the state; go on as before.
    Ignore,
}

/// The transmitter as plain mathematical data.
pub struct SendModel {
    pub settings: Transmitter,
    /// Largest number of batches taken from the buffer at a time.
    pub drain_max: usize,
    pub state: SendState,
    /// The batches handed out and not yet settled; the first is being sent.
    pub in_hand: Seq<BatchView>,
    /// The longest wait that an attempt of this pass has asked for.
    pub wait_ms: u64,
    /// A cancellation came while batches were in hand.
    pub stopping: bool,
}

impl SendModel {
    /// The invariant of the transmitter: it has batches in hand exactly while
    /// sending, remembers a wait only while sending or waiting, and a
    /// cancellation is pending only while sending.
    pub open spec fn wf(self) -> bool {
        &&& self.state is Sending <==> self.in_hand.len() > 0
        &&& self.state is Sending || self.state is Waiting || self.wait_ms == 0
        &&& self.stopping ==> self.state is Sending || self.state is Stopped
    }

    /// The transmitter with nothing in hand and no wait to remember.
    pub open spec fn at_rest(self, state: SendState) -> SendModel {
        SendModel { state, in_hand: Seq::empty(), wait_ms: 0, ..self }
    }

    /// The wait that a settlement asks for.
    pub open spec fn asked(settled: Result<Settlement, crate::buffer::BufferError>) -> u64 {
        match settled {
            Ok(s) => s.wait_ms,
            Err(_) => 0,
        }
    }
}

/// A new pass. Expired hand-outs are revoked, then up to `drain_max` batches
/// are taken from the buffer. Where there are none the transmitter is idle;
/// otherwise it is sending, and the first batch is to be sent.
pub open spec fn refilled(
    pre: SendModel,
    buf: BufferModel,
    now: u64,
    post: SendModel,
    buf_after: BufferModel,
    action: SendAction,
) -> bool {
    let revoked = buf.reclaimed(now);
    let handed = revoked.hands_out(pre.drain_max as nat);
    &&& buf_after == revoked.drained(pre.drain_max as nat, now)
    &&& if handed.len() == 0 {
        &&& post == pre.at_rest(SendState::Idle)
        &&& action == SendAction::AwaitWake
    } else {
        &&& post == SendModel { state: SendState::Sending, in_hand: handed, wait_ms: 0, ..pre }
        &&& action matches SendAction::Send(b)
        &&& b@ == handed[0]
    }
}

/// One step of the transmitter: from the transmitter `pre` and the buffer
/// `buf`, the event leads to the transmitter `post`, the buffer `buf_after`
/// and the action.
///
/// A stopped transmitter stays stopped and answers `Halt`. A cancellation
/// stops an idle or waiting transmitter at once; a sending transmitter notes
/// it and stops when the batches in hand are dealt with. Woken when idle, or
/// when its wait is over, the transmitter starts a new pass. When an attempt
/// has ended, the buffer is told the verdict on the batch; then the next
/// batch in hand is sent, or, when none is left, the transmitter stops if
/// cancelled, waits if an attempt of this pass asked for a wait, and starts a
/// new pass otherwise. An event that does not fit the state changes nothing.
pub open spec fn send_follows(
    pre: SendModel,
    buf: BufferModel,
    event: SendEvent,
    post: SendModel,
    buf_after: BufferModel,
    action: SendAction,
) -> bool {
    if pre.state is Stopped {
        post == pre && buf_after == buf && action == SendAction::Halt
    } else {
        match (pre.state, event) {
            (SendState::Sending, SendEvent::Cancel) => {
                &&& post == SendModel { stopping: true, ..pre }
                &&& buf_after == buf
                &&& action == SendAction::Ignore
            },
            (_, SendEvent::Cancel) => {
                &&& post == pre.at_rest(SendState::Stopped)
                &&& buf_after == buf
                &&& action == SendAction::Halt
            },
            (SendState::Idle, SendEvent::Wake { now }) => refilled(
                pre,
                buf,
                now,
                post,
                buf_after,
                action,
            ),
            (SendState::Waiting, SendEvent::WaitOver { now }) => refilled(
                pre,
                buf,
                now,
                post,
                buf_after,
                action,
            ),
            (SendState::Sending, SendEvent::Sent { result, sample, now }) => {
                let batch = pre.in_hand[0];
                let verdict = pre.settings.policy.verdict(result, batch.retry_count);
                let acked = buf.acked(batch.id, verdict);
                let settled = pre.settings.settlement(
                    buf.ack_verdict(batch.id, verdict),
                    result,
                    batch.retry_count,
                    sample,
                );
                let wait = if SendModel::asked(settled) > pre.wait_ms {
                    SendModel::asked(settled)
                } else {
                    pre.wait_ms
                };
                let rest = pre.in_hand.remove(0);
                if rest.len() > 0 {
                    &&& post == SendModel { in_hand: rest, wait_ms: wait, ..pre }
                    &&& buf_after == acked
                    &&& action matches SendAction::Send(b)
                    &&& b@ == rest[0]
                } else if pre.stopping {
                    &&& post == pre.at_rest(SendState::Stopped)
                    &&& buf_after == acked
                    &&& action == SendAction::Halt
                } else if wait > 0 {
                    &&& post == SendModel {
                        state: SendState::Waiting,
                        in_hand: rest,
                        wait_ms: wait,
                        ..pre
                    }
                    &&& buf_after == acked
                    &&& action == SendAction::Sleep(wait)
                } else {
                    refilled(pre, acked, now, post, buf_after, action)
                }
            },
            _ => post == pre && buf_after == buf && action == SendAction::Ignore,
        }
    }
}

/// The sending side of the forwarder.
pub struct TransmitLoop {
    settings: Transmitter,
    drain_max: usize,
    state: SendState,
    in_hand: Vec<Batch>,
    wait_ms: u64,
    stopping: bool,
}

impl View for TransmitLoop {
    type V = SendModel;

    closed spec fn view(&self) -> SendModel {
        SendModel {
            settings: self.settings,
            drain_max: self.drain_max,
            state: self.state,
            in_hand: batch_views(self.in_hand@),
            wait_ms: self.wait_ms,
            stopping: self.stopping,
        }
    }
}

impl TransmitLoop {
    /// The invariant that every step keeps.
    pub open spec fn wf(&self) -> bool {
        self@.wf()
    }

    /// An idle transmitter that takes up to `drain_max` batches from the
    /// buffer at a time.
    pub fn new(settings: Transmitter, drain_max: usize) -> (t: TransmitLoop)
        ensures
            t.wf(),
            t@ == (SendModel {
                settings,
                drain_max,
                state: SendState::Idle,
                in_hand: Seq::empty(),
                wait_ms: 0,
                stopping: false,
            }),
    {
        let t = TransmitLoop {
            settings,
            drain_max,
            state: SendState::Idle,
            in_hand: Vec::new(),
            wait_ms: 0,
            stopping: false,
        };
        assert(t@.in_hand =~= Seq::empty());
        t
    }

    /// Where the transmitter stands.
    pub fn state(&self) -> (state: SendState)
        ensures
            state == self@.state,
    {
        self.state
    }

    /// The settings.
    pub fn settings(&self) -> (settings: Transmitter)
        ensures
            settings == self@.settings,
    {
        self.settings
    }

    /// Number of batches handed out and not yet settled.
    pub fn in_hand(&self) -> (n: usize)
        ensures
            n == self@.in_hand.len(),
    {
        self.in_hand.len()
    }

    /// Puts the transmitter at rest in the given state.
    fn rest(&mut self, state: SendState)
        ensures
            final(self)@ == old(self)@.at_rest(state),
    {
        self.in_hand = Vec::new();
        self.wait_ms = 0;
        self.state = state;
        assert(self@.in_hand =~= Seq::empty());
    }

    /// Starts a new pass.
    fn refill(&mut self, buffer: &mut DeliveryBuffer, now: u64) -> (action: SendAction)
        requires
            !old(self)@.stopping,
            old(buffer).wf(),
        ensures
            final(self).wf(),
            final(buffer).wf(),
            refilled(old(self)@, old(buffer)@, now, final(self)@, final(buffer)@, action),
    {
        buffer.reclaim(now);
        let handed = buffer.drain(self.drain_max, now);
        if handed.len() == 0 {
            self.rest(SendState::Idle);
            SendAction::AwaitWake
        } else {
            let first = handed[0].clone();
            self.in_hand = handed;
            self.wait_ms = 0;
            self.state = SendState::Sending;
            SendAction::Send(first)
        }
    }

    /// Settles the attempt on the first batch in hand and moves on.
    fn settle_first(
        &mut self,
        buffer: &mut DeliveryBuffer,
        result: Result<(), TransmitError>,
        sample: u64,
        now: u64,
    ) -> (action: SendAction)
        requires
            old(self).wf(),
            old(self)@.state is Sending,
            old(buffer).wf(),
        ensures
            final(self).wf(),
            final(buffer).wf(),
            send_follows(
                old(self)@,
                old(buffer)@,
                SendEvent::Sent { result, sample, now },
                final(self)@,
                final(buffer)@,
                action,
            ),
    {
        let current = self.in_hand.remove(0);
        assert(self@.in_hand =~= old(self)@.in_hand.remove(0));
        assert(current@ == old(self)@.in_hand[0]);
        let settled = self.settings.settle(buffer, &current, result, sample);
        let asked: u64 = match settled {
            Ok(s) => s.wait_ms,
            Err(_) => 0,
        };
        if asked > self.wait_ms {
            self.wait_ms = asked;
        }
        if self.in_hand.len() > 0 {
            SendAction::Send(self.in_hand[0].clone())
        } else if self.stopping {
            self.rest(SendState::Stopped);
            SendAction::Halt
        } else if self.wait_ms > 0 {
            self.state = SendState::Waiting;
            SendAction::Sleep(self.wait_ms)
        } else {
            self.refill(buffer, now)
        }
    }

    /// Takes one step: applies `event` to the transmitter and returns what
    /// the caller is to do next. `buffer` is the delivery buffer that the
    /// transmitter empties.
    pub fn advance(&mut self, event: SendEvent, buffer: &mut DeliveryBuffer) -> (action: SendAction)
        requires
            old(self).wf(),
            old(buffer).wf(),
        ensures
            final(self).wf(),
            final(buffer).wf(),
            send_follows(old(self)@, old(buffer)@, event, final(self)@, final(buffer)@, action),
    {
        if let SendState::Stopped = self.state {
            return SendAction::Halt;
        }
        match event {
            SendEvent::Cancel => match self.state {
                SendState::Sending => {
                    self.stopping = true;
                    SendAction::Ignore
                },
                _ => {
                    self.rest(SendState::Stopped);
                    SendAction::Halt
                },
            },
            SendEvent::Wake { now } => match self.state {
                SendState::Idle => self.refill(buffer, now),
                _ => SendAction::Ignore,
            },
            SendEvent::WaitOver { now } => match self.state {
                SendState::Waiting => self.refill(buffer, now),
                _ => SendAction::Ignore,
            },
            SendEvent::Sent { result, sample, now } => match self.state {
                SendState::Sending => self.settle_first(buffer, result, sample, now),
                _ => SendAction::Ignore,
            },
        }
    }
}

/// The transmitter stops on a cancellation and on nothing else, and once
/// stopped it stays stopped. After a cancellation it takes no more batches
/// from the buffer: it only settles the batches in hand, one with each
/// attempt reported, and halts when none is left.
pub proof fn lemma_cancel_finishes_what_is_in_hand(
    pre: SendModel,
    buf: BufferModel,
    event: SendEvent,
    post: SendModel,
    buf_after: BufferModel,
    action: SendAction,
)
    requires
        pre.wf(),
        send_follows(pre, buf, event, post, buf_after, action),
    ensures
        pre.state is Stopped ==> post.state is Stopped,
        post.state is Stopped ==> pre.state is Stopped || pre.stopping || event is Cancel,
        event is Cancel ==> post.state is Stopped || post.stopping,
        action is Halt <==> post.state is Stopped,
        pre.stopping ==> {
            &&& post.stopping
            &&& post.in_hand.len() <= pre.in_hand.len()
            &&& (event is Sent && pre.state is Sending) ==> {
                &&& post.in_hand == pre.in_hand.remove(0)
                &&& post.in_hand.len() == 0 ==> post.state is Stopped
                &&& exists|verdict: crate::batch::AckOutcome|
                    buf_after == buf.acked(pre.in_hand[0].id, verdict)
            }
            &&& !(event is Sent && pre.state is Sending) ==> buf_after == buf
        },
{
    if pre.stopping && event is Sent && pre.state is Sending {
        let verdict = pre.settings.policy.verdict(event->result, pre.in_hand[0].retry_count);
        assert(buf_after == buf.acked(pre.in_hand[0].id, verdict));
    }
}

} // verus!
