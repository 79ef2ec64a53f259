//! What the sources report.

use crate::clock::{Nanos, Window};
use crate::observations::TransactionId;
use crate::stats;
use crate::stats::Tally;
use vstd::prelude::*;

verus! {

/// What one of the two sources reports.
pub enum Event {
    /// The source is ready.
    Ready(usize),
    /// A transaction came from the source.
    Transaction {
        /// The source.
        source: usize,
        /// The transaction.
        id: TransactionId,
        /// When it came.
        received_at: Nanos,
    },
    /// The source has nothing more to report.
    Finished(usize),
    /// The source has failed.
    Error {
        /// The source.
        source: usize,
        /// What went wrong.
        message: String,
    },
}

/// What a source reports, in terms of mathematics.
pub enum Report {
    /// The source is ready.
    Ready(int),
    /// A transaction came from the source.
    Transaction {
        /// The source.
        source: int,
        /// The transaction.
        id: Seq<u8>,
        /// When it came.
        received_at: Nanos,
    },
    /// The source has nothing more to report.
    Finished(int),
    /// The source has failed.
    Error {
        /// The source.
        source: int,
        /// What went wrong.
        message: Seq<char>,
    },
}

impl View for Event {
    type V = Report;

    open spec fn view(&self) -> Report {
        match *self {
            Event::Ready(source) => Report::Ready(source as int),
            Event::Transaction { source, id, received_at } => Report::Transaction {
                source: source as int,
                id: id@,
                received_at,
            },
            Event::Finished(source) => Report::Finished(source as int),
            Event::Error { source, message } => Report::Error {
                source: source as int,
                message: message@,
            },
        }
    }
}

/// What the events report.
pub open spec fn reports(events: Seq<Event>) -> Seq<Report> {
    Seq::new(events.len(), |i: int| events[i]@)
}

/// What the statistics say after an event: transactions count if they came during the window.
pub open spec fn tally_after(tally: Tally, window: Window, event: Option<Event>) -> Tally {
    match event {
        Some(Event::Transaction { source, id, received_at }) => if window.holds(received_at) {
            tally.observed(source as int, id@, received_at)
        } else {
            tally
        },
        _ => tally,
    }
}

/// What the statistics say after some events.
pub open spec fn tally_after_all(tally: Tally, window: Window, events: Seq<Event>) -> Tally
    decreases events.len(),
{
    if events.len() == 0 {
        tally
    } else {
        tally_after(
            tally_after_all(tally, window, events.drop_last()),
            window,
            Some(events.last()),
        )
    }
}

/// Whether an event can be counted: a transaction of the window came from one of the two sources.
pub open spec fn is_countable(window: Window, event: Option<Event>) -> bool {
    event matches Some(Event::Transaction { source, received_at, .. }) ==> window.holds(received_at)
        ==> source < 2
}

/// Whether every arrival lies in the window, and no lead is longer than it.
pub open spec fn lies_within(tally: Tally, window: Window) -> bool {
    &&& forall|id: Seq<u8>, source: int|
        tally.observations.dom().contains(id) && 0 <= source < 2
            && #[trigger] tally.observations[id][source] is Some ==> window.holds(
            tally.observations[id][source]->0,
        )
    &&& forall|source: int, i: int|
        0 <= source < 2 && 0 <= i < tally.leads[source].len() ==> (
        #[trigger] tally.leads[source][i]) <= window.cutoff - window.start
}

proof fn lemma_step_within(tally: Tally, window: Window, event: Option<Event>)
    requires
        tally.consistent(),
        lies_within(tally, window),
        is_countable(window, event),
    ensures
        tally_after(tally, window, event).consistent(),
        lies_within(tally_after(tally, window, event), window),
{
    if let Some(Event::Transaction { source, id, received_at }) = event {
        if window.holds(received_at) {
            stats::lemma_observed_consistent(tally, source as int, id@, received_at);
            let arrivals = tally.arrivals(id@);
            let after = tally_after(tally, window, event);
            assert(arrivals.len() == 2);
            assert forall|x: Seq<u8>, s: int|
                after.observations.dom().contains(x) && 0 <= s < 2
                    && #[trigger] after.observations[x][s] is Some implies window.holds(
                after.observations[x][s]->0,
            ) by {
                if x == id@ {
                    if tally.observations.dom().contains(x) {
                        assert(tally.observations[x][s] == arrivals[s]);
                    }
                } else {
                    assert(after.observations[x][s] == tally.observations[x][s]);
                }
            }
            assert forall|s: int, i: int|
                0 <= s < 2 && 0 <= i < after.leads[s].len() implies (#[trigger] after.leads[s][i])
                <= window.cutoff - window.start by {
                if i < tally.leads[s].len() {
                    assert(after.leads[s][i] == tally.leads[s][i]);
                }
            }
        }
    }
}

/// Whatever the sources report, no arrival outside the window is counted, and no lead is longer
/// than the window.
pub proof fn lemma_only_the_window_counts(tally: Tally, window: Window, events: Seq<Event>)
    requires
        tally.consistent(),
        lies_within(tally, window),
        forall|i: int| 0 <= i < events.len() ==> is_countable(window, Some(#[trigger] events[i])),
    ensures
        tally_after_all(tally, window, events).consistent(),
        lies_within(tally_after_all(tally, window, events), window),
    decreases events.len(),
{
    if events.len() > 0 {
        let front = events.drop_last();
        assert forall|i: int| 0 <= i < front.len() implies is_countable(
            window,
            Some(#[trigger] front[i]),
        ) by {
            assert(front[i] == events[i]);
        }
        lemma_only_the_window_counts(tally, window, front);
        assert(is_countable(window, Some(events[events.len() - 1])));
        lemma_step_within(tally_after_all(tally, window, front), window, Some(events.last()));
    }
}

/// Whether two events can be handled in either order.
pub open spec fn interchangeable(a: Event, b: Event) -> bool {
    match (a, b) {
        (
            Event::Transaction { source: source_a, id: id_a, received_at: at_a },
            Event::Transaction { source: source_b, id: id_b, received_at: at_b },
        ) => stats::interchangeable(
            source_a as int,
            id_a@,
            at_a,
            source_b as int,
            id_b@,
            at_b,
        ),
        _ => true,
    }
}

proof fn lemma_alike_after_all(left: Tally, right: Tally, window: Window, events: Seq<Event>)
    requires
        left.consistent(),
        right.consistent(),
        stats::alike(left, right),
        forall|i: int| 0 <= i < events.len() ==> is_countable(window, Some(#[trigger] events[i])),
    ensures
        tally_after_all(left, window, events).consistent(),
        tally_after_all(right, window, events).consistent(),
        stats::alike(
            tally_after_all(left, window, events),
            tally_after_all(right, window, events),
        ),
    decreases events.len(),
{
    if events.len() > 0 {
        let front = events.drop_last();
        assert forall|i: int| 0 <= i < front.len() implies is_countable(
            window,
            Some(#[trigger] front[i]),
        ) by {
            assert(front[i] == events[i]);
        }
        lemma_alike_after_all(left, right, window, front);
        assert(is_countable(window, Some(events[events.len() - 1])));
        if let Event::Transaction { source, id, received_at } = events.last() {
            if window.holds(received_at) {
                let left_front = tally_after_all(left, window, front);
                let right_front = tally_after_all(right, window, front);
                stats::lemma_alike_kept(
                    left_front,
                    right_front,
                    source as int,
                    id@,
                    received_at,
                );
                stats::lemma_observed_consistent(left_front, source as int, id@, received_at);
                stats::lemma_observed_consistent(right_front, source as int, id@, received_at);
            }
        }
    }
}

proof fn lemma_tally_after_both(tally: Tally, window: Window, first: Seq<Event>, second: Seq<Event>)
    ensures
        tally_after_all(tally, window, first + second) == tally_after_all(
            tally_after_all(tally, window, first),
            window,
            second,
        ),
    decreases second.len(),
{
    if second.len() == 0 {
        assert(first + second =~= first);
    } else {
        assert((first + second).drop_last() =~= first + second.drop_last());
        lemma_tally_after_both(tally, window, first, second.drop_last());
    }
}

/// A benchmark that is cut short ends as if it had been planned so: if everything that was collected
/// had come by the cutoff, the results are those of a window that ends there.
pub proof fn lemma_cut_short(
    tally: Tally,
    window: Window,
    cutoff: Nanos,
    collected: Seq<Event>,
    drained: Seq<Event>,
)
    requires
        cutoff <= window.cutoff,
        forall|i: int|
            0 <= i < collected.len() ==> (#[trigger] collected[i] matches Event::Transaction {
                received_at,
                ..
            } ==> received_at <= cutoff),
    ensures
        tally_after_all(
            tally_after_all(tally, window, collected),
            Window { cutoff, ..window },
            drained,
        ) == tally_after_all(tally, Window { cutoff, ..window }, collected + drained),
{
    lemma_shorter_window(tally, window, cutoff, collected);
    lemma_tally_after_both(tally, Window { cutoff, ..window }, collected, drained);
}

proof fn lemma_shorter_window(tally: Tally, window: Window, cutoff: Nanos, events: Seq<Event>)
    requires
        cutoff <= window.cutoff,
        forall|i: int|
            0 <= i < events.len() ==> (#[trigger] events[i] matches Event::Transaction {
                received_at,
                ..
            } ==> received_at <= cutoff),
    ensures
        tally_after_all(tally, window, events) == tally_after_all(
            tally,
            Window { cutoff, ..window },
            events,
        ),
    decreases events.len(),
{
    if events.len() > 0 {
        lemma_shorter_window(tally, window, cutoff, events.drop_last());
        assert(events[events.len() - 1] == events.last());
    }
}

/// Two neighbouring reports can be handled in either order: the results are the same but for the
/// order of the leads.
pub proof fn lemma_handling_order(
    tally: Tally,
    window: Window,
    before: Seq<Event>,
    a: Event,
    b: Event,
    after: Seq<Event>,
)
    requires
        tally.consistent(),
        interchangeable(a, b),
        is_countable(window, Some(a)),
        is_countable(window, Some(b)),
        forall|i: int| 0 <= i < before.len() ==> is_countable(window, Some(#[trigger] before[i])),
        forall|i: int| 0 <= i < after.len() ==> is_countable(window, Some(#[trigger] after[i])),
    ensures
        stats::alike(
            tally_after_all(tally, window, before + seq![a, b] + after),
            tally_after_all(tally, window, before + seq![b, a] + after),
        ),
{
    let start = tally_after_all(tally, window, before);
    lemma_alike_after_all(tally, tally, window, before);
    let ab = seq![a, b];
    let ba = seq![b, a];
    assert(ab.drop_last() =~= seq![a] && ba.drop_last() =~= seq![b]);
    assert(seq![a].drop_last() =~= Seq::<Event>::empty());
    assert(seq![b].drop_last() =~= Seq::<Event>::empty());
    reveal_with_fuel(tally_after_all, 3);
    let left = tally_after(tally_after(start, window, Some(a)), window, Some(b));
    let right = tally_after(tally_after(start, window, Some(b)), window, Some(a));
    assert(tally_after_all(start, window, ab) == left);
    assert(tally_after_all(start, window, ba) == right);
    lemma_alike_after_all(start, start, window, ab);
    lemma_alike_after_all(start, start, window, ba);
    match (a, b) {
        (
            Event::Transaction { source: source_a, id: id_a, received_at: at_a },
            Event::Transaction { source: source_b, id: id_b, received_at: at_b },
        ) => if window.holds(at_a) && window.holds(at_b) {
            stats::lemma_reports_interchangeable(
                start,
                source_a as int,
                id_a@,
                at_a,
                source_b as int,
                id_b@,
                at_b,
            );
        },
        _ => {},
    }
    lemma_tally_after_both(tally, window, before, ab);
    lemma_tally_after_both(tally, window, before, ba);
    lemma_tally_after_both(tally, window, before + ab, after);
    lemma_tally_after_both(tally, window, before + ba, after);
    lemma_alike_after_all(left, right, window, after);
}

/// The time at which an event says that a transaction came from a source, if it came neither before
/// the start of the window nor after its cutoff.
pub open spec fn arrival_in(
    event: Event,
    window: Window,
    source: int,
    id: Seq<u8>,
) -> Option<Nanos> {
    match event {
        Event::Transaction { source: of, id: reported, received_at } => if of == source && reported@
            == id && window.start <= received_at && received_at <= window.cutoff {
            Some(received_at)
        } else {
            None
        },
        _ => None,
    }
}

/// Whether one of the events says that the transaction came from the source during the window.
pub open spec fn has_arrived(
    events: Seq<Event>,
    window: Window,
    source: int,
    id: Seq<u8>,
) -> bool {
    exists|i: int|
        0 <= i < events.len() && arrival_in(#[trigger] events[i], window, source, id) is Some
}

/// Whether the arrival that the tally has for the transaction is that of the first event that says
/// so, and there is one if and only if some event does.
pub open spec fn has_first_arrival(
    tally: Tally,
    events: Seq<Event>,
    window: Window,
    source: int,
    id: Seq<u8>,
) -> bool {
    &&& (tally.observations.dom().contains(id) && tally.observations[id][source] is Some)
        <==> has_arrived(events, window, source, id)
    &&& forall|i: int|
        0 <= i < events.len() && arrival_in(#[trigger] events[i], window, source, id) is Some
            && !has_arrived(events.take(i), window, source, id) ==> tally.observations[id][source]
            == arrival_in(events[i], window, source, id)
}

proof fn lemma_arrived_one_more(
    events: Seq<Event>,
    window: Window,
    source: int,
    id: Seq<u8>,
)
    requires
        events.len() > 0,
    ensures
        has_arrived(events, window, source, id) <==> has_arrived(
            events.drop_last(),
            window,
            source,
            id,
        ) || arrival_in(events.last(), window, source, id) is Some,
{
    let front = events.drop_last();
    if has_arrived(front, window, source, id) {
        let i = choose|i: int|
            0 <= i < front.len() && arrival_in(#[trigger] front[i], window, source, id) is Some;
        assert(events[i] == front[i]);
    }
    if has_arrived(events, window, source, id) {
        let i = choose|i: int|
            0 <= i < events.len() && arrival_in(#[trigger] events[i], window, source, id) is Some;
        if i < front.len() {
            assert(front[i] == events[i]);
        }
    }
    assert(events[events.len() - 1] == events.last());
}

/// Whatever the sources report, and in whatever order, the statistics know a transaction from a
/// source if and only if an event of the window reports it, and then by the time of the first such
/// event.
pub proof fn lemma_first_report_counts(
    window: Window,
    events: Seq<Event>,
    source: int,
    id: Seq<u8>,
)
    requires
        0 <= source < 2,
        forall|i: int| 0 <= i < events.len() ==> is_countable(window, Some(#[trigger] events[i])),
    ensures
        has_first_arrival(
            tally_after_all(Tally::empty(), window, events),
            events,
            window,
            source,
            id,
        ),
        tally_after_all(Tally::empty(), window, events).consistent(),
    decreases events.len(),
{
    let tally = tally_after_all(Tally::empty(), window, events);
    if events.len() == 0 {
        stats::lemma_empty_consistent();
    } else {
        let front = events.drop_last();
        let before = tally_after_all(Tally::empty(), window, front);
        assert forall|i: int| 0 <= i < front.len() implies is_countable(
            window,
            Some(#[trigger] front[i]),
        ) by {
            assert(front[i] == events[i]);
        }
        lemma_first_report_counts(window, front, source, id);
        lemma_arrived_one_more(events, window, source, id);
        assert(is_countable(window, Some(events[events.len() - 1])));
        let last = events.last();
        if let Event::Transaction { source: of, id: reported, received_at } = last {
            if window.start <= received_at && received_at <= window.cutoff {
                stats::lemma_observed_consistent(before, of as int, reported@, received_at);
                assert(before.arrivals(reported@).len() == 2);
            }
        }
        assert forall|i: int|
            0 <= i < events.len() && arrival_in(#[trigger] events[i], window, source, id) is Some
                && !has_arrived(
                events.take(i),
                window,
                source,
                id,
            ) implies tally.observations[id][source] == arrival_in(events[i], window, source, id) by {
            if i < front.len() {
                assert(front[i] == events[i]);
                assert(front.take(i) =~= events.take(i));
                assert(has_arrived(front, window, source, id));
            } else {
                assert(events.take(i) =~= front);
            }
        }
    }
}

/// Each count is one of transactions: a source has as many as some event of the window reports from
/// it, and as many are matched as some event of the window reports from the one source and some
/// event from the other.
pub proof fn lemma_counts_follow_the_events(window: Window, events: Seq<Event>)
    requires
        forall|i: int| 0 <= i < events.len() ==> is_countable(window, Some(#[trigger] events[i])),
    ensures
        ({
            let tally = tally_after_all(Tally::empty(), window, events);
            &&& tally.unique[0] == Set::new(|id: Seq<u8>| has_arrived(events, window, 0, id)).len()
            &&& tally.unique[1] == Set::new(|id: Seq<u8>| has_arrived(events, window, 1, id)).len()
            &&& tally.matched == Set::new(
                |id: Seq<u8>|
                    has_arrived(events, window, 0, id) && has_arrived(events, window, 1, id),
            ).len()
            &&& tally.first[0] + tally.first[1] == tally.matched
            &&& tally.leads[0].len() == tally.first[0]
            &&& tally.leads[1].len() == tally.first[1]
        }),
{
    let tally = tally_after_all(Tally::empty(), window, events);
    lemma_first_report_counts(window, events, 0, Seq::empty());
    assert forall|id: Seq<u8>, source: int| 0 <= source < 2 implies #[trigger] tally.seen_by(
        source,
    ).contains(id) == has_arrived(events, window, source, id) by {
        lemma_first_report_counts(window, events, source, id);
    }
    assert(tally.unique[0] == tally.seen_by(0).len());
    assert(tally.unique[1] == tally.seen_by(1).len());
    assert(tally.leads[0].len() == tally.first[0]);
    assert(tally.leads[1].len() == tally.first[1]);
    assert(tally.seen_by(0) =~= Set::new(|id: Seq<u8>| has_arrived(events, window, 0, id)));
    assert(tally.seen_by(1) =~= Set::new(|id: Seq<u8>| has_arrived(events, window, 1, id)));
    assert forall|id: Seq<u8>| tally.seen_by_both().contains(id) == (has_arrived(
        events,
        window,
        0,
        id,
    ) && has_arrived(events, window, 1, id)) by {
        assert(tally.seen_by(0).contains(id) == has_arrived(events, window, 0, id));
        assert(tally.seen_by(1).contains(id) == has_arrived(events, window, 1, id));
    }
    assert(tally.seen_by_both() =~= Set::new(
        |id: Seq<u8>| has_arrived(events, window, 0, id) && has_arrived(events, window, 1, id),
    ));
}

/// Events report what they hold, one for one.
pub proof fn lemma_events_are_plain(events: Seq<Event>, i: int)
    requires
        0 <= i < events.len(),
    ensures
        reports(events).len() == events.len(),
        events[i] matches Event::Ready(source) ==> reports(events)[i] == Report::Ready(
            source as int,
        ),
        events[i] matches Event::Transaction { source, id, received_at } ==> reports(events)[i]
            == (Report::Transaction { source: source as int, id: id@, received_at }),
        events[i] matches Event::Finished(source) ==> reports(events)[i] == Report::Finished(
            source as int,
        ),
        events[i] matches Event::Error { source, message } ==> reports(events)[i]
            == (Report::Error { source: source as int, message: message@ }),
{
}

} // verus!
