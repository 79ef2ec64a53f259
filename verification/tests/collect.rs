use solana_shred_tx_benchmark::clock::{Nanos, Window};
use solana_shred_tx_benchmark::collect::{
    collect_until, drain_until_finished, wait_for_ready, CollectStep, Wakeup,
};
use solana_shred_tx_benchmark::event::Event;
use solana_shred_tx_benchmark::stats::Stats;

const MILLISECOND: Nanos = 1_000_000;

fn names() -> [String; 2] {
    ["one".to_owned(), "two".to_owned()]
}

fn transaction(source: usize, byte: u8, received_at: Nanos) -> Option<Event> {
    Some(Event::Transaction { source, id: [byte; 64], received_at })
}

fn error(source: usize, message: &str) -> Option<Event> {
    Some(Event::Error { source, message: message.to_owned() })
}

fn collect(stats: &mut Stats, visible: bool, wakeup: Wakeup) -> CollectStep {
    let window = Window { start: 1_000, cutoff: 2_000 };
    collect_until(&window, 1_000, visible, stats, wakeup)
}

fn failure(step: CollectStep) -> String {
    match step {
        CollectStep::Finish(Err(error)) => error.message().to_owned(),
        _ => panic!("no failure"),
    }
}

#[test]
fn readiness_waits_for_both_sources() {
    let names = names();
    let mut ready = [false; 2];
    assert!(!wait_for_ready(&mut ready, Some(Event::Ready(0)), &names).unwrap());
    assert!(!wait_for_ready(&mut ready, Some(Event::Ready(0)), &names).unwrap());
    assert!(!wait_for_ready(&mut ready, transaction(1, 1, 1), &names).unwrap());
    assert!(!wait_for_ready(&mut ready, Some(Event::Finished(1)), &names).unwrap());

    assert!(wait_for_ready(&mut ready, Some(Event::Ready(1)), &names).unwrap());
}

#[test]
fn waiting_ends_when_a_source_fails() {
    let mut ready = [false; 2];
    let outcome = wait_for_ready(&mut ready, error(1, "refused"), &names());
    assert_eq!(outcome.unwrap_err().message(), "two: refused");
    let outcome = wait_for_ready(&mut ready, None, &names());
    assert_eq!(outcome.unwrap_err().message(), "both source streams closed");
    assert_eq!(ready, [false; 2]);
}

#[test]
fn drain_keeps_only_events_at_or_before_cutoff() {
    let names = names();
    let start = 1_000 * MILLISECOND;
    let window = Window { start, cutoff: start + 5 * MILLISECOND };
    let mut stats = Stats::default();
    let mut finished = [false; 2];
    let events = [
        transaction(0, 0, start - MILLISECOND),
        transaction(0, 1, start + MILLISECOND),
        Some(Event::Finished(0)),
        transaction(1, 1, start + 2 * MILLISECOND),
        transaction(1, 2, start + 6 * MILLISECOND),
    ];
    for event in events {
        assert!(!drain_until_finished(&mut finished, event, &window, &mut stats, &names).unwrap());
    }
    let last = Some(Event::Finished(1));
    assert!(drain_until_finished(&mut finished, last, &window, &mut stats, &names).unwrap());

    assert_eq!(stats.unique, [1, 1]);
    assert_eq!(stats.matched, 1);
}

#[test]
fn both_ends_of_the_window_count() {
    let window = Window { start: 10, cutoff: 20 };
    let mut stats = Stats::default();
    for (byte, at) in [(1, 9), (2, 10), (3, 20), (4, 21)] {
        let event = transaction(0, byte, at);
        drain_until_finished(&mut [false; 2], event, &window, &mut stats, &names()).unwrap();
    }
    assert_eq!(stats.unique, [2, 0]);

    let mut stats = Stats::default();
    for (byte, at) in [(1, 999), (2, 1_000), (3, 2_000), (4, 2_001)] {
        let step = collect(&mut stats, true, Wakeup::Received(transaction(1, byte, at)));
        assert!(matches!(step, CollectStep::Continue));
    }
    assert_eq!(stats.unique, [0, 2]);
}

#[test]
fn a_benchmark_that_is_cut_short_ends_as_if_planned_so() {
    let planned = Window { start: 1_000, cutoff: 2_000 };
    let cut = Window { start: 1_000, cutoff: 1_500 };
    let collected = [(0, 1, 1_100), (1, 1, 1_200), (0, 2, 1_500), (1, 3, 900)];
    let drained = [(1, 2, 1_400), (0, 4, 1_501)];

    let mut stats = Stats::default();
    for (source, byte, at) in collected {
        let event = transaction(source, byte, at);
        let step = collect_until(&planned, 1_000, true, &mut stats, Wakeup::Received(event));
        assert!(matches!(step, CollectStep::Continue));
    }
    for (source, byte, at) in drained {
        let event = transaction(source, byte, at);
        let outcome = drain_until_finished(&mut [false; 2], event, &cut, &mut stats, &names());
        assert!(matches!(outcome, Ok(false)));
    }

    let mut expected = Stats::default();
    for (source, byte, at) in collected.into_iter().chain(drained) {
        let event = transaction(source, byte, at);
        collect_until(&cut, 500, true, &mut expected, Wakeup::Received(event));
    }
    assert_eq!(stats.unique, expected.unique);
    assert_eq!(stats.unique, [2, 2]);
    assert_eq!(stats.leads_ns, expected.leads_ns);
    assert_eq!(stats.leads_ns, [vec![100], vec![100]]);
}

#[test]
fn draining_ends_when_a_source_fails() {
    let window = Window { start: 10, cutoff: 20 };
    let mut stats = Stats::default();
    let mut finished = [false; 2];
    let ready = Some(Event::Ready(1));
    assert!(!drain_until_finished(&mut finished, ready, &window, &mut stats, &names()).unwrap());
    let outcome = drain_until_finished(&mut finished, error(0, "x"), &window, &mut stats, &names());
    assert_eq!(outcome.unwrap_err().message(), "one: x");
    let outcome = drain_until_finished(&mut finished, None, &window, &mut stats, &names());
    assert_eq!(outcome.unwrap_err().message(), "source streams closed before draining");
    assert_eq!(finished, [false; 2]);
}

#[test]
fn collecting_ends_at_the_deadline_or_on_interrupt() {
    let mut stats = Stats::default();
    let step = collect(&mut stats, true, Wakeup::Deadline);
    assert!(matches!(step, CollectStep::Finish(Ok(2_000))));
    let step = collect(&mut stats, true, Wakeup::Interrupt { outcome: Ok(()), now: 1_234 });
    assert!(matches!(step, CollectStep::Finish(Ok(1_234))));
    let outcome = Err("no signals".to_owned());
    let step = collect(&mut stats, true, Wakeup::Interrupt { outcome, now: 1_234 });
    assert_eq!(failure(step), "failed to listen for Ctrl+C: no signals");
}

#[test]
fn collecting_ends_when_a_source_fails() {
    let mut stats = Stats::default();
    let step = collect(&mut stats, true, Wakeup::Received(error(1, "stream closed")));
    assert_eq!(failure(step), "S2: stream closed");
    let step = collect(&mut stats, true, Wakeup::Received(None));
    assert_eq!(failure(step), "both source streams closed");
    let step = collect(&mut stats, true, Wakeup::Received(Some(Event::Ready(0))));
    assert!(matches!(step, CollectStep::Continue));
    let step = collect(&mut stats, true, Wakeup::Received(Some(Event::Finished(0))));
    assert!(matches!(step, CollectStep::Continue));
}

#[test]
fn progress_is_reported_only_if_it_is_visible() {
    let mut stats = Stats::default();
    collect(&mut stats, true, Wakeup::Received(transaction(0, 1, 1_500)));
    for (now, expected) in [(900, 0), (1_000, 0), (1_400, 400), (2_500, 1_000)] {
        let step = collect(&mut stats, true, Wakeup::Tick { now });
        let CollectStep::Report { elapsed, unique } = step else {
            panic!("nothing was reported");
        };
        assert_eq!(elapsed, expected);
        assert_eq!(unique, [1, 0]);
    }
    let step = collect(&mut stats, false, Wakeup::Tick { now: 1_400 });
    assert!(matches!(step, CollectStep::Continue));
}
