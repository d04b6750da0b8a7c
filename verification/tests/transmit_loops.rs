use sensor_beam::batch::{Batch, DeliveryStatus};
use sensor_beam::buffer::{DeliveryBuffer, OverflowPolicy};
use sensor_beam::measurement::Measurement;
use sensor_beam::transmit::{RetryPolicy, TransmitError, Transmitter};
use sensor_beam::transmit_loop::{SendAction, SendEvent, SendState, TransmitLoop};
use sensor_beam::value::SampleValue;

fn batch(id: u64) -> Batch {
    let m = Measurement {
        name: "temperature".to_string(),
        tags: vec![("host".to_string(), "dev".to_string())],
        fields: vec![("value".to_string(), SampleValue::from_bits(20.0f64.to_bits()))],
        timestamp: id,
    };
    Batch::new(id, vec![m]).unwrap()
}

fn buffer_with(ids: &[u64]) -> DeliveryBuffer {
    let mut b = DeliveryBuffer::new(8, OverflowPolicy::EvictOldest, 1000).unwrap();
    for id in ids {
        b.enqueue(batch(*id)).unwrap();
    }
    b
}

fn sender(drain_max: usize) -> TransmitLoop {
    TransmitLoop::new(Transmitter::default(), drain_max)
}

fn sent(result: Result<(), TransmitError>, now: u64) -> SendEvent {
    SendEvent::Sent { result, sample: 200, now }
}

fn asked_to_send(action: SendAction) -> Batch {
    match action {
        SendAction::Send(b) => b,
        other => panic!("expected a batch to send, got {:?}", other),
    }
}

#[test]
fn new_transmitter_is_idle() {
    let t = sender(4);
    assert_eq!(t.state(), SendState::Idle);
    assert_eq!(t.in_hand(), 0);
    assert_eq!(t.settings(), Transmitter::default());
}

#[test]
fn woken_with_nothing_to_send_it_stays_idle() {
    let mut t = sender(4);
    let mut b = buffer_with(&[]);
    assert_eq!(t.advance(SendEvent::Wake { now: 0 }, &mut b), SendAction::AwaitWake);
    assert_eq!(t.state(), SendState::Idle);
}

#[test]
fn batches_are_sent_oldest_first_and_delivered() {
    let mut t = sender(4);
    let mut b = buffer_with(&[1, 2]);
    let first = asked_to_send(t.advance(SendEvent::Wake { now: 0 }, &mut b));
    assert_eq!(first.id(), 1);
    assert_eq!(first.status(), DeliveryStatus::InFlight);
    assert_eq!(first.measurements(), batch(1).measurements());
    assert_eq!(t.state(), SendState::Sending);
    assert_eq!(t.in_hand(), 2);
    assert_eq!(b.get(2).unwrap().status(), DeliveryStatus::InFlight);
    let second = asked_to_send(t.advance(sent(Ok(()), 5), &mut b));
    assert_eq!(second.id(), 2);
    assert_eq!(t.in_hand(), 1);
    assert_eq!(b.len(), 1);
    assert_eq!(t.advance(sent(Ok(()), 9), &mut b), SendAction::AwaitWake);
    assert_eq!(t.state(), SendState::Idle);
    assert_eq!(t.in_hand(), 0);
    assert_eq!(b.len(), 0);
    assert_eq!(b.lost(), 0);
}

#[test]
fn a_pass_takes_no_more_than_the_number_allowed() {
    let mut t = sender(2);
    let mut b = buffer_with(&[1, 2, 3]);
    assert_eq!(asked_to_send(t.advance(SendEvent::Wake { now: 0 }, &mut b)).id(), 1);
    assert_eq!(t.in_hand(), 2);
    assert_eq!(b.get(3).unwrap().status(), DeliveryStatus::Pending);
    assert_eq!(asked_to_send(t.advance(sent(Ok(()), 1), &mut b)).id(), 2);
    assert_eq!(asked_to_send(t.advance(sent(Ok(()), 2), &mut b)).id(), 3);
    assert_eq!(t.in_hand(), 1);
    assert_eq!(t.advance(sent(Ok(()), 3), &mut b), SendAction::AwaitWake);
    assert_eq!(b.len(), 0);
}

#[test]
fn failed_attempt_leads_to_a_wait_and_a_retry() {
    let mut t = sender(4);
    let mut b = buffer_with(&[1]);
    asked_to_send(t.advance(SendEvent::Wake { now: 0 }, &mut b));
    assert_eq!(t.advance(sent(Err(TransmitError::Unreachable), 10), &mut b), SendAction::Sleep(1000));
    assert_eq!(t.state(), SendState::Waiting);
    assert_eq!(t.in_hand(), 0);
    assert_eq!(b.get(1).unwrap().status(), DeliveryStatus::Pending);
    assert_eq!(b.get(1).unwrap().retry_count(), 1);
    let again = asked_to_send(t.advance(SendEvent::WaitOver { now: 1010 }, &mut b));
    assert_eq!(again.id(), 1);
    assert_eq!(again.retry_count(), 1);
    assert_eq!(t.advance(sent(Err(TransmitError::Timeout), 1020), &mut b), SendAction::Sleep(2000));
    let third = asked_to_send(t.advance(SendEvent::WaitOver { now: 3020 }, &mut b));
    assert_eq!(third.retry_count(), 2);
    assert_eq!(t.advance(sent(Ok(()), 3030), &mut b), SendAction::AwaitWake);
    assert_eq!(b.len(), 0);
    assert_eq!(b.lost(), 0);
}

#[test]
fn the_wait_after_a_pass_is_the_longest_asked_for() {
    let mut t = sender(4);
    let mut b = buffer_with(&[1, 2]);
    asked_to_send(t.advance(SendEvent::Wake { now: 0 }, &mut b));
    asked_to_send(t.advance(sent(Ok(()), 1), &mut b));
    assert_eq!(t.advance(sent(Err(TransmitError::Unreachable), 2), &mut b), SendAction::Sleep(1000));
    b.enqueue(batch(3)).unwrap();
    asked_to_send(t.advance(SendEvent::WaitOver { now: 1002 }, &mut b));
    let next = asked_to_send(t.advance(sent(Err(TransmitError::Unreachable), 1003), &mut b));
    assert_eq!(next.id(), 3);
    assert_eq!(t.advance(sent(Err(TransmitError::Unreachable), 1004), &mut b), SendAction::Sleep(2000));
    assert_eq!(b.get(2).unwrap().retry_count(), 2);
    assert_eq!(b.get(3).unwrap().retry_count(), 1);
}

#[test]
fn partial_failure_settles_each_batch_on_its_own() {
    let mut t = sender(4);
    let mut b = buffer_with(&[1, 2, 3]);
    asked_to_send(t.advance(SendEvent::Wake { now: 0 }, &mut b));
    asked_to_send(t.advance(sent(Err(TransmitError::Rejected(400)), 1), &mut b));
    asked_to_send(t.advance(sent(Ok(()), 2), &mut b));
    assert_eq!(t.advance(sent(Err(TransmitError::Timeout), 3), &mut b), SendAction::Sleep(1000));
    assert!(b.get(1).is_none());
    assert!(b.get(2).is_none());
    assert_eq!(b.get(3).unwrap().status(), DeliveryStatus::Pending);
    assert_eq!(b.get(3).unwrap().retry_count(), 1);
    assert_eq!(b.lost(), 1);
    assert_eq!(b.len(), 1);
}

#[test]
fn rejected_batch_is_dropped_and_not_sent_again() {
    let mut t = sender(4);
    let mut b = buffer_with(&[1]);
    asked_to_send(t.advance(SendEvent::Wake { now: 0 }, &mut b));
    assert_eq!(t.advance(sent(Err(TransmitError::Rejected(400)), 1), &mut b), SendAction::AwaitWake);
    assert_eq!(t.state(), SendState::Idle);
    assert_eq!(b.lost(), 1);
    assert_eq!(b.len(), 0);
    assert_eq!(t.advance(SendEvent::Wake { now: 5000 }, &mut b), SendAction::AwaitWake);
}

#[test]
fn retries_end_at_the_limit() {
    let settings = Transmitter {
        policy: RetryPolicy { base_delay_ms: 10, max_delay_ms: 100, max_retries: Some(1) },
        send_timeout_ms: 5,
    };
    let mut t = TransmitLoop::new(settings, 4);
    let mut b = buffer_with(&[1]);
    asked_to_send(t.advance(SendEvent::Wake { now: 0 }, &mut b));
    assert_eq!(t.advance(sent(Err(TransmitError::Unreachable), 1), &mut b), SendAction::Sleep(10));
    asked_to_send(t.advance(SendEvent::WaitOver { now: 11 }, &mut b));
    assert_eq!(t.advance(sent(Err(TransmitError::Unreachable), 12), &mut b), SendAction::AwaitWake);
    assert_eq!(b.lost(), 1);
    assert_eq!(b.len(), 0);
}

#[test]
fn expired_hand_outs_are_taken_up_again() {
    let mut t = sender(4);
    let mut b = buffer_with(&[1]);
    assert_eq!(b.drain(1, 0).len(), 1);
    assert_eq!(t.advance(SendEvent::Wake { now: 999 }, &mut b), SendAction::AwaitWake);
    let back = asked_to_send(t.advance(SendEvent::Wake { now: 1000 }, &mut b));
    assert_eq!(back.id(), 1);
    assert_eq!(back.retry_count(), 0);
}

#[test]
fn cancel_stops_an_idle_transmitter() {
    let mut t = sender(4);
    let mut b = buffer_with(&[1]);
    assert_eq!(t.advance(SendEvent::Cancel, &mut b), SendAction::Halt);
    assert_eq!(t.state(), SendState::Stopped);
    assert_eq!(t.advance(SendEvent::Wake { now: 0 }, &mut b), SendAction::Halt);
    assert_eq!(b.get(1).unwrap().status(), DeliveryStatus::Pending);
}

#[test]
fn cancel_stops_a_waiting_transmitter() {
    let mut t = sender(4);
    let mut b = buffer_with(&[1]);
    asked_to_send(t.advance(SendEvent::Wake { now: 0 }, &mut b));
    assert_eq!(t.advance(sent(Err(TransmitError::Unreachable), 1), &mut b), SendAction::Sleep(1000));
    assert_eq!(t.advance(SendEvent::Cancel, &mut b), SendAction::Halt);
    assert_eq!(t.state(), SendState::Stopped);
    assert_eq!(t.advance(SendEvent::WaitOver { now: 2000 }, &mut b), SendAction::Halt);
    assert_eq!(b.len(), 1);
}

#[test]
fn cancel_while_sending_finishes_what_is_in_hand() {
    let mut t = sender(2);
    let mut b = buffer_with(&[1, 2, 3]);
    asked_to_send(t.advance(SendEvent::Wake { now: 0 }, &mut b));
    assert_eq!(t.advance(SendEvent::Cancel, &mut b), SendAction::Ignore);
    assert_eq!(t.state(), SendState::Sending);
    assert_eq!(asked_to_send(t.advance(sent(Ok(()), 1), &mut b)).id(), 2);
    assert_eq!(t.advance(sent(Err(TransmitError::Unreachable), 2), &mut b), SendAction::Halt);
    assert_eq!(t.state(), SendState::Stopped);
    assert_eq!(t.in_hand(), 0);
    assert!(b.get(1).is_none());
    assert_eq!(b.get(2).unwrap().status(), DeliveryStatus::Pending);
    assert_eq!(b.get(2).unwrap().retry_count(), 1);
    assert_eq!(b.get(3).unwrap().status(), DeliveryStatus::Pending);
    assert_eq!(b.get(3).unwrap().retry_count(), 0);
    for e in [
        SendEvent::Wake { now: 9 },
        SendEvent::WaitOver { now: 9 },
        sent(Ok(()), 9),
        SendEvent::Cancel,
    ] {
        assert_eq!(t.advance(e, &mut b), SendAction::Halt);
    }
    assert_eq!(b.len(), 2);
}

#[test]
fn send_event_that_does_not_fit_is_ignored() {
    let mut t = sender(4);
    let mut b = buffer_with(&[1]);
    assert_eq!(t.advance(sent(Ok(()), 0), &mut b), SendAction::Ignore);
    assert_eq!(t.advance(SendEvent::WaitOver { now: 0 }, &mut b), SendAction::Ignore);
    assert_eq!(t.state(), SendState::Idle);
    assert_eq!(b.get(1).unwrap().status(), DeliveryStatus::Pending);
    asked_to_send(t.advance(SendEvent::Wake { now: 0 }, &mut b));
    assert_eq!(t.advance(SendEvent::Wake { now: 1 }, &mut b), SendAction::Ignore);
    assert_eq!(t.advance(SendEvent::WaitOver { now: 1 }, &mut b), SendAction::Ignore);
    assert_eq!(t.in_hand(), 1);
    assert_eq!(t.advance(sent(Err(TransmitError::Timeout), 2), &mut b), SendAction::Sleep(1000));
    assert_eq!(t.advance(SendEvent::Wake { now: 3 }, &mut b), SendAction::Ignore);
    assert_eq!(t.advance(sent(Ok(()), 3), &mut b), SendAction::Ignore);
    assert_eq!(t.state(), SendState::Waiting);
}

#[test]
fn batch_acknowledged_elsewhere_is_passed_over() {
    let mut t = sender(4);
    let mut b = buffer_with(&[1, 2]);
    asked_to_send(t.advance(SendEvent::Wake { now: 0 }, &mut b));
    b.enqueue(batch(3)).unwrap();
    assert_eq!(b.reclaim(5000), 2);
    let next = asked_to_send(t.advance(sent(Err(TransmitError::Rejected(400)), 5001), &mut b));
    assert_eq!(next.id(), 2);
    assert_eq!(b.lost(), 0);
    assert_eq!(b.len(), 3);
    let after = asked_to_send(t.advance(sent(Ok(()), 5002), &mut b));
    assert_eq!(after.id(), 1);
    assert_eq!(t.in_hand(), 3);
}
