//! The decisions of the transmitter: how a failed attempt is classified,
//! how long to wait before the next one, and what to tell the buffer.
//!
//! Sending itself is the caller's business. The caller reports how each
//! attempt ended and receives the verdict.

use vstd::prelude::*;
use crate::batch::{AckOutcome, Batch, DeliveryStatus};
use crate::buffer::{BufferError, DeliveryBuffer};

verus! {

/// Why an attempt to send a batch failed.
#[derive(Clone, Copy, Debug, PartialEq, Eq, Structural)]
pub enum TransmitError {
    /// The endpoint could not be reached, or failed on its side.
    Unreachable,
    /// The endpoint refused the request with the given client-error status.
    Rejected(u16),
    /// The attempt took longer than allowed.
    Timeout,
}

impl TransmitError {
    /// Trying again may help.
    pub open spec fn retryable(self) -> bool {
        !(self is Rejected)
    }

    /// Tells whether trying again may help.
    pub fn is_retryable(&self) -> (b: bool)
        ensures
            b == self.retryable(),
    {
        match self {
            TransmitError::Rejected(_) => false,
            _ => true,
        }
    }
}

/// What an HTTP status of the endpoint means for the attempt: success for
/// 200 to 299, a rejection for 400 to 499, and an unreachable endpoint for
/// anything else.
pub open spec fn status_meaning(status: u16) -> Result<(), TransmitError> {
    if 200 <= status <= 299 {
        Ok(())
    } else if 400 <= status <= 499 {
        Err(TransmitError::Rejected(status))
    } else {
        Err(TransmitError::Unreachable)
    }
}

/// Classifies the HTTP status that the endpoint answered with.
pub fn classify_status(status: u16) -> (res: Result<(), TransmitError>)
    ensures
        res == status_meaning(status),
{
    if 200 <= status && status <= 299 {
        Ok(())
    } else if 400 <= status && status <= 499 {
        Err(TransmitError::Rejected(status))
    } else {
        Err(TransmitError::Unreachable)
    }
}

/// Two to the power of `n`.
pub open spec fn pow2(n: nat) -> nat
    decreases n,
{
    if n == 0 {
        1
    } else {
        2 * pow2((n - 1) as nat)
    }
}

/// Least share of a delay that jitter leaves, in thousandths.
pub const JITTER_FLOOR: u64 = 800;

/// Number of jitter steps: the share ranges over `JITTER_FLOOR` and the
/// `JITTER_SPAN - 1` values above it, up to 1200 thousandths.
pub const JITTER_SPAN: u64 = 401;

/// The share of a delay, in thousandths, that a random sample selects.
pub open spec fn jitter_share(sample: u64) -> int {
    JITTER_FLOOR + sample % JITTER_SPAN
}

/// A delay with jitter applied: between 80% and 120% of the delay, as the
/// sample selects, rounded down, and never above the largest `u64`.
pub open spec fn jittered(delay_ms: u64, sample: u64) -> int {
    let exact = delay_ms * jitter_share(sample) / 1000;
    if exact > u64::MAX {
        u64::MAX as int
    } else {
        exact
    }
}

/// Applies jitter to a delay. `sample` is any random number; equal samples
/// give equal results.
pub fn with_jitter(delay_ms: u64, sample: u64) -> (d: u64)
    ensures
        d == jittered(delay_ms, sample),
{
    let share: u64 = JITTER_FLOOR + sample % JITTER_SPAN;
    assert(delay_ms * share <= u64::MAX * 1200) by (nonlinear_arith)
        requires
            delay_ms <= u64::MAX,
            0 <= share <= 1200,
    ;
    let product: u128 = (delay_ms as u128) * (share as u128);
    let exact: u128 = product / 1000;
    if exact > u64::MAX as u128 {
        u64::MAX
    } else {
        exact as u64
    }
}

/// How failed attempts are retried.
#[derive(Clone, Copy, Debug, PartialEq, Eq, Structural)]
pub struct RetryPolicy {
    /// Delay before the first retry, in milliseconds.
    pub base_delay_ms: u64,
    /// Largest delay between attempts, before jitter, in milliseconds.
    pub max_delay_ms: u64,
    /// Number of retries after which a batch is given up; `None` for no
    /// limit.
    pub max_retries: Option<u32>,
}

impl Default for RetryPolicy {
    /// Retries start at one second, double up to one minute, and never end.
    fn default() -> (policy: RetryPolicy)
        ensures
            policy == (RetryPolicy { base_delay_ms: 1000, max_delay_ms: 60000, max_retries: None }),
    {
        RetryPolicy { base_delay_ms: 1000, max_delay_ms: 60000, max_retries: None }
    }
}

impl RetryPolicy {
    /// The delay before retry number `retry_count + 1`, before jitter: the
    /// base delay doubled `retry_count` times, capped.
    pub open spec fn backoff(self, retry_count: nat) -> nat {
        let grown = self.base_delay_ms * pow2(retry_count);
        if grown >= self.max_delay_ms {
            self.max_delay_ms as nat
        } else {
            grown as nat
        }
    }

    /// A batch that was retried `retry_count` times is not retried again.
    pub open spec fn exhausted(self, retry_count: u32) -> bool {
        self.max_retries matches Some(limit) && retry_count >= limit
    }

    /// What the buffer is told after an attempt: a success delivers the
    /// batch; a failure that may pass leads to a retry while the policy
    /// allows one; every other failure drops the batch.
    pub open spec fn verdict(self, result: Result<(), TransmitError>, retry_count: u32) -> AckOutcome {
        match result {
            Ok(_) => AckOutcome::Delivered,
            Err(e) => if e.retryable() && !self.exhausted(retry_count) {
                AckOutcome::Retry
            } else {
                AckOutcome::Drop
            },
        }
    }

    /// The wait before the next attempt: the backoff with jitter where the
    /// verdict is a retry, nothing otherwise.
    pub open spec fn wait(
        self,
        result: Result<(), TransmitError>,
        retry_count: u32,
        sample: u64,
    ) -> int {
        if self.verdict(result, retry_count) is Retry {
            jittered(self.backoff(retry_count as nat) as u64, sample)
        } else {
            0
        }
    }

    /// Computes the delay, before jitter, that follows `retry_count` retries.
    pub fn backoff_ms(&self, retry_count: u32) -> (d: u64)
        ensures
            d == self.backoff(retry_count as nat),
    {
        if self.base_delay_ms == 0 {
            assert(self.base_delay_ms * pow2(retry_count as nat) == 0) by (nonlinear_arith)
                requires
                    self.base_delay_ms == 0,
            ;
            return 0;
        }
        let mut d: u64 = if self.base_delay_ms >= self.max_delay_ms {
            self.max_delay_ms
        } else {
            self.base_delay_ms
        };
        let mut k: u32 = 0;
        assert(self.base_delay_ms * pow2(0) == self.base_delay_ms) by (nonlinear_arith)
            requires
                pow2(0) == 1,
        ;
        while k < retry_count && d < self.max_delay_ms
            invariant
                k <= retry_count,
                d == self.backoff(k as nat),
            decreases retry_count - k,
        {
            proof {
                let p = pow2(k as nat);
                assert(pow2((k + 1) as nat) == 2 * p);
                assert(self.base_delay_ms * (2 * p) == 2 * (self.base_delay_ms * p))
                    by (nonlinear_arith);
            }
            d = if d >= self.max_delay_ms - d {
                self.max_delay_ms
            } else {
                2 * d
            };
            k += 1;
        }
        proof {
            lemma_backoff_monotone(*self, k as nat, retry_count as nat);
        }
        d
    }

    /// Decides what the buffer is told after an attempt on a batch that was
    /// retried `retry_count` times before.
    pub fn decide(&self, result: &Result<(), TransmitError>, retry_count: u32) -> (outcome:
        AckOutcome)
        ensures
            outcome == self.verdict(*result, retry_count),
    {
        match result {
            Ok(_) => AckOutcome::Delivered,
            Err(e) => {
                let exhausted = match self.max_retries {
                    Some(limit) => retry_count >= limit,
                    None => false,
                };
                if e.is_retryable() && !exhausted {
                    AckOutcome::Retry
                } else {
                    AckOutcome::Drop
                }
            },
        }
    }
}

/// What became of a batch after an attempt to send it.
#[derive(Clone, Copy, Debug, PartialEq, Eq, Structural)]
pub struct Settlement {
    /// The status in which the attempt leaves the batch.
    pub status: DeliveryStatus,
    /// Milliseconds to wait before the batch is sent again; 0 unless the
    /// batch is to be retried.
    pub wait_ms: u64,
}

/// The settings of the transmitter.
#[derive(Clone, Copy, Debug, PartialEq, Eq, Structural)]
pub struct Transmitter {
    pub policy: RetryPolicy,
    /// Longest time one attempt may take, in milliseconds. An attempt that
    /// takes longer counts as `TransmitError::Timeout`.
    pub send_timeout_ms: u64,
}

impl Default for Transmitter {
    /// The default retry policy, and thirty seconds for each attempt.
    fn default() -> (t: Transmitter)
        ensures
            t == (Transmitter {
                policy: RetryPolicy { base_delay_ms: 1000, max_delay_ms: 60000, max_retries: None },
                send_timeout_ms: 30000,
            }),
    {
        Transmitter { policy: RetryPolicy::default(), send_timeout_ms: 30000 }
    }
}

impl Transmitter {
    /// What `settle` returns, given what the buffer answers.
    pub open spec fn settlement(
        self,
        answer: Result<DeliveryStatus, BufferError>,
        result: Result<(), TransmitError>,
        retry_count: u32,
        sample: u64,
    ) -> Result<Settlement, BufferError> {
        match answer {
            Ok(status) => Ok(
                Settlement { status, wait_ms: self.policy.wait(result, retry_count, sample) as u64 },
            ),
            Err(e) => Err(e),
        }
    }

    /// Settles one attempt to send `batch`, a batch that `buffer` handed out.
    /// `result` is how the attempt ended and `sample` any random number, used
    /// for jitter. The buffer is told to forget the batch on success, to
    /// keep it for a retry after a failure that may pass, and to drop it
    /// after a rejection or when the retries are used up. Where the buffer
    /// no longer has the batch in flight, its refusal is returned and nothing
    /// changes.
    pub fn settle(
        &self,
        buffer: &mut DeliveryBuffer,
        batch: &Batch,
        result: Result<(), TransmitError>,
        sample: u64,
    ) -> (res: Result<Settlement, BufferError>)
        requires
            old(buffer).wf(),
        ensures
            final(buffer).wf(),
            final(buffer)@ == old(buffer)@.acked(
                batch@.id,
                self.policy.verdict(result, batch@.retry_count),
            ),
            res == self.settlement(
                old(buffer)@.ack_verdict(batch@.id, self.policy.verdict(result, batch@.retry_count)),
                result,
                batch@.retry_count,
                sample,
            ),
    {
        let retries: u32 = batch.retry_count();
        let outcome = self.policy.decide(&result, retries);
        match buffer.ack(batch.id(), outcome) {
            Err(e) => Err(e),
            Ok(status) => {
                let wait_ms: u64 = match outcome {
                    AckOutcome::Retry => with_jitter(self.policy.backoff_ms(retries), sample),
                    _ => 0,
                };
                Ok(Settlement { status, wait_ms })
            },
        }
    }
}

/// Powers of two grow.
proof fn lemma_pow2_monotone(a: nat, b: nat)
    requires
        a <= b,
    ensures
        1 <= pow2(a) <= pow2(b),
    decreases b,
{
    if b == 0 {
    } else if a == b {
        lemma_pow2_monotone((a - 1) as nat, (b - 1) as nat);
    } else {
        lemma_pow2_monotone(a, (b - 1) as nat);
    }
}

/// The delays of consecutive retries never shrink and never exceed the cap.
pub proof fn lemma_backoff_monotone(policy: RetryPolicy, earlier: nat, later: nat)
    requires
        earlier <= later,
    ensures
        policy.backoff(earlier) <= policy.backoff(later) <= policy.max_delay_ms,
{
    lemma_pow2_monotone(earlier, later);
    assert(policy.base_delay_ms * pow2(earlier) <= policy.base_delay_ms * pow2(later))
        by (nonlinear_arith)
        requires
            pow2(earlier) <= pow2(later),
            policy.base_delay_ms >= 0,
    ;
}

/// Until the cap is reached, each delay is twice the one before, starting
/// from the base delay.
pub proof fn lemma_backoff_doubles(policy: RetryPolicy, retry_count: nat)
    ensures
        policy.base_delay_ms <= policy.max_delay_ms ==> policy.backoff(0)
            == policy.base_delay_ms,
        policy.backoff(retry_count + 1) < policy.max_delay_ms ==> policy.backoff(retry_count + 1)
            == 2 * policy.backoff(retry_count),
{
    let p = pow2(retry_count);
    assert(pow2(retry_count + 1) == 2 * p);
    assert(policy.base_delay_ms * (2 * p) == 2 * (policy.base_delay_ms * p)) by (nonlinear_arith);
    assert(policy.base_delay_ms * pow2(0) == policy.base_delay_ms) by (nonlinear_arith)
        requires
            pow2(0) == 1,
    ;
}

/// Jitter moves a delay by a fifth at most.
pub proof fn lemma_jitter_bounds(delay_ms: u64, sample: u64)
    ensures
        delay_ms * 800 / 1000 <= jittered(delay_ms, sample),
        jittered(delay_ms, sample) <= delay_ms * 1200 / 1000,
        jittered(delay_ms, sample) <= u64::MAX,
{
    let share = jitter_share(sample);
    assert(800 <= share <= 1200);
    assert(delay_ms * 800 <= delay_ms * share <= delay_ms * 1200) by (nonlinear_arith)
        requires
            800 <= share <= 1200,
            delay_ms >= 0,
    ;
    assert(delay_ms * 800 <= u64::MAX * 1000) by (nonlinear_arith)
        requires
            delay_ms <= u64::MAX,
    ;
}

} // verus!
