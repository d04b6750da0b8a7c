use sensor_beam::batch::{AckOutcome, Batch, DeliveryStatus};
use sensor_beam::buffer::{BufferError, DeliveryBuffer, OverflowPolicy};
use sensor_beam::measurement::Measurement;
use sensor_beam::transmit::{
    classify_status, with_jitter, RetryPolicy, Settlement, TransmitError, Transmitter,
    JITTER_FLOOR, JITTER_SPAN,
};
use sensor_beam::value::SampleValue;

fn batch(id: u64) -> Batch {
    let m = Measurement {
        name: "temperature".to_string(),
        tags: vec![("host".to_string(), "dev".to_string())],
        fields: vec![("value".to_string(), SampleValue::from_bits(20.0f64.to_bits()))],
        timestamp: id,
    };
    Batch::new(id, vec![m]).unwrap()
}

fn handed_out(buffer: &mut DeliveryBuffer, id: u64) -> Batch {
    buffer.enqueue(batch(id)).unwrap();
    let mut out = buffer.drain(1, 0);
    assert_eq!(out.len(), 1);
    out.pop().unwrap()
}

fn buffer() -> DeliveryBuffer {
    DeliveryBuffer::new(8, OverflowPolicy::EvictOldest, 30_000).unwrap()
}

#[test]
fn default_policy_and_transmitter() {
    let p = RetryPolicy::default();
    assert_eq!(p, RetryPolicy { base_delay_ms: 1000, max_delay_ms: 60_000, max_retries: None });
    let t = Transmitter::default();
    assert_eq!(t.policy, p);
    assert_eq!(t.send_timeout_ms, 30_000);
}

#[test]
fn backoff_doubles_from_one_second_to_one_minute() {
    let p = RetryPolicy::default();
    let got: Vec<u64> = (0..9).map(|n| p.backoff_ms(n)).collect();
    assert_eq!(got, vec![1000, 2000, 4000, 8000, 16_000, 32_000, 60_000, 60_000, 60_000]);
}

#[test]
fn backoff_never_shrinks_and_stays_under_the_cap() {
    let policies = [
        RetryPolicy::default(),
        RetryPolicy { base_delay_ms: 1, max_delay_ms: u64::MAX, max_retries: None },
        RetryPolicy { base_delay_ms: 3, max_delay_ms: 1000, max_retries: Some(2) },
        RetryPolicy { base_delay_ms: 7, max_delay_ms: 7, max_retries: None },
    ];
    for p in policies.iter() {
        let mut last = 0;
        for n in 0..200u32 {
            let d = p.backoff_ms(n);
            assert!(d >= last);
            assert!(d <= p.max_delay_ms);
            last = d;
        }
    }
}

#[test]
fn backoff_at_the_edges() {
    let p = RetryPolicy::default();
    assert_eq!(p.backoff_ms(63), 60_000);
    assert_eq!(p.backoff_ms(64), 60_000);
    assert_eq!(p.backoff_ms(u32::MAX), 60_000);
    let wide = RetryPolicy { base_delay_ms: 1, max_delay_ms: u64::MAX, max_retries: None };
    assert_eq!(wide.backoff_ms(0), 1);
    assert_eq!(wide.backoff_ms(10), 1024);
    assert_eq!(wide.backoff_ms(63), 1 << 63);
    assert_eq!(wide.backoff_ms(64), u64::MAX);
    assert_eq!(wide.backoff_ms(u32::MAX), u64::MAX);
    let none = RetryPolicy { base_delay_ms: 0, max_delay_ms: 60_000, max_retries: None };
    assert_eq!(none.backoff_ms(0), 0);
    assert_eq!(none.backoff_ms(u32::MAX), 0);
    let capped = RetryPolicy { base_delay_ms: 5000, max_delay_ms: 3000, max_retries: None };
    assert_eq!(capped.backoff_ms(0), 3000);
    assert_eq!(capped.backoff_ms(4), 3000);
    let zero = RetryPolicy { base_delay_ms: 5, max_delay_ms: 0, max_retries: None };
    assert_eq!(zero.backoff_ms(3), 0);
}

#[test]
fn jitter_moves_a_delay_by_a_fifth_at_most() {
    assert_eq!(JITTER_FLOOR, 800);
    assert_eq!(JITTER_SPAN, 401);
    assert_eq!(with_jitter(1000, 0), 800);
    assert_eq!(with_jitter(1000, 200), 1000);
    assert_eq!(with_jitter(1000, 400), 1200);
    assert_eq!(with_jitter(1000, 401), 800);
    assert_eq!(with_jitter(1000, 1), 801);
    assert_eq!(with_jitter(60_000, 400), 72_000);
    assert_eq!(with_jitter(60_000, 0), 48_000);
    assert_eq!(with_jitter(3, 0), 2);
    assert_eq!(with_jitter(0, 123), 0);
    for sample in [0u64, 1, 17, 400, 401, 802, u64::MAX, 123_456_789] {
        let d = with_jitter(32_000, sample);
        assert!(d >= 25_600 && d <= 38_400);
        assert_eq!(d, 32_000 * (800 + sample % 401) / 1000);
    }
}

#[test]
fn jitter_stops_at_the_largest_value() {
    assert_eq!(with_jitter(u64::MAX, 400), u64::MAX);
    assert_eq!(with_jitter(u64::MAX, 200), u64::MAX);
    assert_eq!(with_jitter(u64::MAX, 0), ((u64::MAX as u128) * 800 / 1000) as u64);
}

#[test]
fn only_a_rejection_cannot_be_retried() {
    assert!(TransmitError::Unreachable.is_retryable());
    assert!(TransmitError::Timeout.is_retryable());
    assert!(!TransmitError::Rejected(400).is_retryable());
    assert!(!TransmitError::Rejected(401).is_retryable());
}

#[test]
fn status_of_the_endpoint_is_classified() {
    assert_eq!(classify_status(200), Ok(()));
    assert_eq!(classify_status(204), Ok(()));
    assert_eq!(classify_status(299), Ok(()));
    assert_eq!(classify_status(400), Err(TransmitError::Rejected(400)));
    assert_eq!(classify_status(401), Err(TransmitError::Rejected(401)));
    assert_eq!(classify_status(499), Err(TransmitError::Rejected(499)));
    assert_eq!(classify_status(500), Err(TransmitError::Unreachable));
    assert_eq!(classify_status(503), Err(TransmitError::Unreachable));
    assert_eq!(classify_status(199), Err(TransmitError::Unreachable));
    assert_eq!(classify_status(300), Err(TransmitError::Unreachable));
    assert_eq!(classify_status(399), Err(TransmitError::Unreachable));
    assert_eq!(classify_status(0), Err(TransmitError::Unreachable));
    assert_eq!(classify_status(u16::MAX), Err(TransmitError::Unreachable));
}

#[test]
fn verdict_without_a_limit() {
    let p = RetryPolicy::default();
    assert_eq!(p.decide(&Ok(()), 0), AckOutcome::Delivered);
    assert_eq!(p.decide(&Ok(()), 9), AckOutcome::Delivered);
    assert_eq!(p.decide(&Err(TransmitError::Unreachable), 0), AckOutcome::Retry);
    assert_eq!(p.decide(&Err(TransmitError::Timeout), 0), AckOutcome::Retry);
    assert_eq!(p.decide(&Err(TransmitError::Unreachable), u32::MAX), AckOutcome::Retry);
    assert_eq!(p.decide(&Err(TransmitError::Rejected(400)), 0), AckOutcome::Drop);
    assert_eq!(p.decide(&Err(TransmitError::Rejected(422)), 5), AckOutcome::Drop);
}

#[test]
fn verdict_with_a_limit() {
    let p = RetryPolicy { base_delay_ms: 1000, max_delay_ms: 60_000, max_retries: Some(3) };
    assert_eq!(p.decide(&Err(TransmitError::Unreachable), 0), AckOutcome::Retry);
    assert_eq!(p.decide(&Err(TransmitError::Timeout), 2), AckOutcome::Retry);
    assert_eq!(p.decide(&Err(TransmitError::Unreachable), 3), AckOutcome::Drop);
    assert_eq!(p.decide(&Err(TransmitError::Timeout), 4), AckOutcome::Drop);
    assert_eq!(p.decide(&Ok(()), 3), AckOutcome::Delivered);
    let never = RetryPolicy { base_delay_ms: 1000, max_delay_ms: 60_000, max_retries: Some(0) };
    assert_eq!(never.decide(&Err(TransmitError::Unreachable), 0), AckOutcome::Drop);
}

#[test]
fn rejected_batch_is_dropped_after_one_attempt() {
    let t = Transmitter::default();
    let mut b = buffer();
    let batch = handed_out(&mut b, 1);
    let lost_before = b.lost();
    let got = t.settle(&mut b, &batch, Err(TransmitError::Rejected(400)), 77);
    assert_eq!(got, Ok(Settlement { status: DeliveryStatus::Failed(0), wait_ms: 0 }));
    assert_eq!(b.lost(), lost_before + 1);
    assert_eq!(b.len(), 0);
    assert!(b.get(1).is_none());
    assert!(b.drain(10, 1).is_empty());
    assert_eq!(b.reclaim(u64::MAX), 0);
    assert!(b.drain(10, 1).is_empty());
}

#[test]
fn delivered_batch_is_settled_without_loss() {
    let t = Transmitter::default();
    let mut b = buffer();
    let batch = handed_out(&mut b, 1);
    let got = t.settle(&mut b, &batch, Ok(()), 77);
    assert_eq!(got, Ok(Settlement { status: DeliveryStatus::Delivered, wait_ms: 0 }));
    assert_eq!(b.lost(), 0);
    assert_eq!(b.len(), 0);
}

#[test]
fn unreachable_endpoint_leads_to_retries_with_growing_waits() {
    let t = Transmitter::default();
    let mut b = buffer();
    let mut batch = handed_out(&mut b, 1);
    let mut waits = Vec::new();
    for round in 0..8u32 {
        assert_eq!(batch.retry_count(), round);
        let got = t.settle(&mut b, &batch, Err(TransmitError::Unreachable), 200).unwrap();
        assert_eq!(got.status, DeliveryStatus::Pending);
        waits.push(got.wait_ms);
        assert_eq!(b.get(1).unwrap().retry_count(), round + 1);
        batch = b.drain(1, 0).pop().unwrap();
    }
    assert_eq!(waits, vec![1000, 2000, 4000, 8000, 16_000, 32_000, 60_000, 60_000]);
    assert_eq!(b.lost(), 0);
}

#[test]
fn timeout_is_retried_with_jitter() {
    let t = Transmitter::default();
    let mut b = buffer();
    let batch = handed_out(&mut b, 1);
    let got = t.settle(&mut b, &batch, Err(TransmitError::Timeout), 0);
    assert_eq!(got, Ok(Settlement { status: DeliveryStatus::Pending, wait_ms: 800 }));
    let batch = b.drain(1, 0).pop().unwrap();
    let got = t.settle(&mut b, &batch, Err(TransmitError::Timeout), 400);
    assert_eq!(got, Ok(Settlement { status: DeliveryStatus::Pending, wait_ms: 2400 }));
}

#[test]
fn batch_is_dropped_when_retries_are_used_up() {
    let t = Transmitter {
        policy: RetryPolicy { base_delay_ms: 10, max_delay_ms: 100, max_retries: Some(2) },
        send_timeout_ms: 5,
    };
    let mut b = buffer();
    let batch = handed_out(&mut b, 1);
    let got = t.settle(&mut b, &batch, Err(TransmitError::Unreachable), 200);
    assert_eq!(got, Ok(Settlement { status: DeliveryStatus::Pending, wait_ms: 10 }));
    let batch = b.drain(1, 0).pop().unwrap();
    let got = t.settle(&mut b, &batch, Err(TransmitError::Unreachable), 200);
    assert_eq!(got, Ok(Settlement { status: DeliveryStatus::Pending, wait_ms: 20 }));
    let batch = b.drain(1, 0).pop().unwrap();
    let got = t.settle(&mut b, &batch, Err(TransmitError::Unreachable), 200);
    assert_eq!(got, Ok(Settlement { status: DeliveryStatus::Failed(2), wait_ms: 0 }));
    assert_eq!(b.lost(), 1);
    assert_eq!(b.len(), 0);
}

#[test]
fn settling_a_batch_that_is_not_in_flight_is_refused() {
    let t = Transmitter::default();
    let mut b = buffer();
    let batch = handed_out(&mut b, 1);
    b.ack(1, AckOutcome::Delivered).unwrap();
    let got = t.settle(&mut b, &batch, Err(TransmitError::Rejected(400)), 0);
    assert_eq!(got, Err(BufferError::NotInFlight));
    assert_eq!(b.lost(), 0);
    let stranger = batch_outside();
    assert_eq!(t.settle(&mut b, &stranger, Ok(()), 0), Err(BufferError::NotInFlight));
}

fn batch_outside() -> Batch {
    let mut x = batch(99);
    x.hand_out();
    x
}
