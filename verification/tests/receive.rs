use solana_shred_tx_benchmark::clock::{Nanos, Window};
use solana_shred_tx_benchmark::entries::{transaction_ids, Entry, Transaction};
use solana_shred_tx_benchmark::event::Event;
use solana_shred_tx_benchmark::receive::{Phase, Receiver, Signal, ATTEMPTS};
use solana_transaction::versioned::VersionedTransaction;

const WINDOW: Window = Window { start: 100, cutoff: 200 };

fn streaming(source: usize) -> Receiver {
    let mut receiver = Receiver::new(source, "http://one".to_owned());
    let events = receiver.receive(Signal::Subscribed);
    assert_eq!(receiver.phase, Phase::Streaming);
    assert_eq!(events.len(), 1);
    assert!(matches!(events[0], Event::Ready(of) if of == source));
    receiver
}

fn message(received_at: Nanos, window: Option<Window>, entries: &[u8]) -> Signal {
    Signal::Message { received_at, window, entries: entries.to_vec() }
}

fn failure(events: &[Event]) -> (usize, String) {
    assert_eq!(events.len(), 1);
    match &events[0] {
        Event::Error { source, message } => (*source, message.clone()),
        _ => panic!("no failure"),
    }
}

fn signed(signatures: &[[u8; 64]]) -> VersionedTransaction {
    let mut transaction = VersionedTransaction::default();
    transaction.signatures = signatures.iter().map(|signature| (*signature).into()).collect();
    transaction
}

fn serialized(entries: &[Vec<VersionedTransaction>]) -> Vec<u8> {
    let list = entries
        .iter()
        .map(|transactions| (12_u64, solana_hash::Hash::from([3; 32]), transactions.clone()))
        .collect::<Vec<_>>();
    bincode::serialize(&list).unwrap()
}

fn reported(events: &[Event]) -> Vec<(usize, u8, Nanos)> {
    events
        .iter()
        .map(|event| match event {
            Event::Transaction { source, id, received_at } => {
                assert!(id.iter().all(|byte| *byte == id[0]));
                (*source, id[0], *received_at)
            }
            _ => panic!("no transaction"),
        })
        .collect()
}

#[test]
fn each_transaction_is_reported_by_its_first_signature() {
    let mut receiver = streaming(1);
    let bytes = serialized(&[
        vec![signed(&[[1; 64], [2; 64]]), signed(&[])],
        vec![],
        vec![signed(&[[3; 64]]), signed(&[[1; 64]])],
    ]);
    let events = receiver.receive(message(150, Some(WINDOW), &bytes));
    assert_eq!(reported(&events), vec![(1, 1, 150), (1, 3, 150), (1, 1, 150)]);
    assert_eq!(receiver.phase, Phase::Streaming);
}

#[test]
fn entries_are_read_from_their_wire_format() {
    let mut bytes = vec![1, 0, 0, 0, 0, 0, 0, 0];
    bytes.extend([5, 0, 0, 0, 0, 0, 0, 0]);
    bytes.extend([9; 32]);
    bytes.extend([1, 0, 0, 0, 0, 0, 0, 0]);
    bytes.push(1);
    bytes.extend([42; 64]);
    bytes.extend([1, 0, 0, 0]);
    bytes.extend([0; 32]);
    bytes.push(0);
    let mut receiver = streaming(0);
    let events = receiver.receive(message(150, Some(WINDOW), &bytes));
    assert_eq!(reported(&events), vec![(0, 42, 150)]);

    bytes.extend([7, 7, 7]);
    let events = receiver.receive(message(160, Some(WINDOW), &bytes));
    assert_eq!(reported(&events), vec![(0, 42, 160)]);
}

#[test]
fn bytes_that_are_not_entries_end_the_stream() {
    let mut receiver = streaming(1);
    let events = receiver.receive(message(150, Some(WINDOW), &[1, 2, 3]));
    let (source, reason) = failure(&events);
    assert_eq!(source, 1);
    assert!(reason.starts_with("invalid entry data: "));
    assert!(reason.len() > "invalid entry data: ".len());
    assert_eq!(receiver.phase, Phase::Stopped);
    assert!(receiver.receive(Signal::ControlClosed).is_empty());
    assert!(receiver.receive(Signal::StreamClosed).is_empty());
}

#[test]
fn the_words_of_a_decoding_failure_are_kept() {
    let mut unfinished = serialized(&[vec![signed(&[[1; 64]])]]);
    unfinished.pop();
    for bytes in [vec![], vec![1, 2, 3], vec![1, 0, 0, 0, 0, 0, 0, 0], unfinished] {
        let error = bincode::deserialize::<Vec<(u64, solana_hash::Hash, Vec<VersionedTransaction>)>>(&bytes)
            .unwrap_err();
        let events = streaming(0).receive(message(150, Some(WINDOW), &bytes));
        assert_eq!(failure(&events), (0, format!("invalid entry data: {error}")));
    }
}

#[test]
fn entries_outside_the_window_are_not_even_decoded() {
    let mut receiver = streaming(0);
    let bytes = serialized(&[vec![signed(&[[1; 64]])]]);
    assert!(receiver.receive(message(150, None, &[1, 2, 3])).is_empty());
    assert!(receiver.receive(message(99, Some(WINDOW), &[1, 2, 3])).is_empty());
    assert!(receiver.receive(message(201, Some(WINDOW), &[1, 2, 3])).is_empty());
    assert_eq!(receiver.phase, Phase::Streaming);
    assert_eq!(receiver.receive(message(100, Some(WINDOW), &bytes)).len(), 1);
    assert_eq!(receiver.receive(message(200, Some(WINDOW), &bytes)).len(), 1);
}

#[test]
fn decoded_entries_are_reported_or_end_the_stream() {
    let mut receiver = streaming(0);
    let entries = vec![Entry {
        transactions: vec![
            Transaction { signatures: vec![[8; 64]] },
            Transaction { signatures: vec![] },
            Transaction { signatures: vec![[9; 64], [8; 64]] },
        ],
    }];
    assert_eq!(transaction_ids(&entries), vec![[8; 64], [9; 64]]);
    let events = receiver.receive_entries(7, Ok(entries));
    assert_eq!(reported(&events), vec![(0, 8, 7), (0, 9, 7)]);
    let events = receiver.receive_entries(7, Err("short".to_owned()));
    assert_eq!(failure(&events), (0, "invalid entry data: short".to_owned()));
    assert_eq!(receiver.phase, Phase::Stopped);
}

#[test]
fn a_source_that_cannot_be_reached_is_given_up() {
    let mut receiver = Receiver::new(1, "http://two".to_owned());
    for attempt in 1..=ATTEMPTS {
        assert_eq!(receiver.phase, Phase::Connecting);
        let signal = if attempt % 2 == 1 {
            Signal::ConnectionFailed("refused".to_owned())
        } else {
            Signal::SubscriptionFailed("denied".to_owned())
        };
        assert!(receiver.receive(signal).is_empty());
        assert_eq!(receiver.phase, Phase::Resting);
        assert_eq!(receiver.failures, attempt);
        let events = receiver.receive(Signal::Rested);
        if attempt < 20 {
            assert!(events.is_empty());
        } else {
            assert_eq!(
                failure(&events),
                (1, "subscription failed: denied (http://two)".to_owned())
            );
        }
    }
    assert_eq!(receiver.phase, Phase::Stopped);
}

#[test]
fn a_source_can_be_reached_after_some_tries() {
    let mut receiver = Receiver::new(0, "http://one".to_owned());
    for _ in 0..19 {
        receiver.receive(Signal::ConnectionFailed("refused".to_owned()));
        receiver.receive(Signal::Rested);
    }
    assert_eq!(receiver.last_error, "connection failed: refused");
    assert_eq!(receiver.receive(Signal::Subscribed).len(), 1);
    assert_eq!(receiver.phase, Phase::Streaming);
}

#[test]
fn a_stream_ends_for_one_reason() {
    let mut receiver = streaming(0);
    assert!(receiver.receive(Signal::ControlChanged).is_empty());
    assert_eq!(receiver.phase, Phase::Streaming);
    let events = receiver.receive(Signal::ControlClosed);
    assert!(matches!(events[..], [Event::Finished(0)]));
    assert_eq!(receiver.phase, Phase::Stopped);

    let mut receiver = streaming(1);
    let events = receiver.receive(Signal::StreamClosed);
    assert_eq!(failure(&events), (1, "stream closed".to_owned()));

    let mut receiver = streaming(1);
    let events = receiver.receive(Signal::StreamFailed("reset".to_owned()));
    assert_eq!(failure(&events), (1, "stream error: reset".to_owned()));

    let mut receiver = streaming(1);
    assert!(receiver.receive(Signal::ListenerGone).is_empty());
    assert_eq!(receiver.phase, Phase::Stopped);
}

#[test]
fn what_does_not_fit_the_phase_changes_nothing() {
    let mut receiver = Receiver::new(0, "http://one".to_owned());
    for signal in [
        Signal::Rested,
        Signal::ControlClosed,
        Signal::StreamClosed,
        message(150, Some(WINDOW), &[1, 2, 3]),
    ] {
        assert!(receiver.receive(signal).is_empty());
        assert_eq!(receiver.phase, Phase::Connecting);
    }
    let mut receiver = streaming(0);
    assert!(receiver.receive(Signal::Subscribed).is_empty());
    assert!(receiver.receive(Signal::ConnectionFailed("late".to_owned())).is_empty());
    assert_eq!(receiver.failures, 0);
}
