//! What the benchmark does with what the sources report.

use crate::clock::{Nanos, Window};
use crate::config::MessageError;
use crate::event;
use crate::event::Event;
use crate::numeral;
use crate::numeral::to_decimal;
use crate::stats::Stats;
use vstd::prelude::*;
use vstd::string::*;

verus! {

/// Why the benchmark, while it collects, wakes up.
pub enum Wakeup {
    /// The window has ended.
    Deadline,
    /// The user asks to stop, or cannot be listened to.
    Interrupt {
        /// What went wrong with listening to the user, if something did.
        outcome: Result<(), String>,
        /// When that was.
        now: Nanos,
    },
    /// It is time to report the progress.
    Tick {
        /// When that was.
        now: Nanos,
    },
    /// A source reports something, or both have closed.
    Received(Option<Event>),
}

/// What the benchmark, while it collects, does next.
pub enum CollectStep {
    /// It goes on.
    Continue,
    /// It reports the progress and goes on.
    Report {
        /// How long it has been running.
        elapsed: Nanos,
        /// How many transactions each source has reported.
        unique: [u64; 2],
    },
    /// It stops; arrivals count up to the time given.
    Finish(Result<Nanos, MessageError>),
}

/// How long the benchmark has been running, at `now`.
pub open spec fn elapsed_at(window: Window, duration: Nanos, now: Nanos) -> Nanos {
    let passed = if now >= window.start {
        (now - window.start) as Nanos
    } else {
        0
    };
    if passed <= duration {
        passed
    } else {
        duration
    }
}

/// Whether a step is the end, with this reason.
pub open spec fn fails_with(step: CollectStep, reason: Seq<char>) -> bool {
    step matches CollectStep::Finish(Err(error)) && error.0@ == reason
}

/// Whether `step` is what follows on `wakeup`.
pub open spec fn follows(
    window: Window,
    duration: Nanos,
    visible: bool,
    unique: [u64; 2],
    wakeup: Wakeup,
    step: CollectStep,
) -> bool {
    match wakeup {
        Wakeup::Deadline => step == CollectStep::Finish(Ok(window.cutoff)),
        Wakeup::Interrupt { outcome: Ok(_), now } => step == CollectStep::Finish(Ok(now)),
        Wakeup::Interrupt { outcome: Err(reason), now } => fails_with(
            step,
            "failed to listen for Ctrl+C: "@ + reason@,
        ),
        Wakeup::Tick { now } => if visible {
            step == (CollectStep::Report { elapsed: elapsed_at(window, duration, now), unique })
        } else {
            step is Continue
        },
        Wakeup::Received(Some(Event::Error { source, message })) => fails_with(
            step,
            "S"@ + numeral::decimal((source + 1) as nat) + ": "@ + message@,
        ),
        Wakeup::Received(Some(_)) => step is Continue,
        Wakeup::Received(None) => fails_with(step, "both source streams closed"@),
    }
}

/// The event of a wakeup.
pub open spec fn event_of(wakeup: Wakeup) -> Option<Event> {
    match wakeup {
        Wakeup::Received(received) => received,
        _ => None,
    }
}

/// Handles a wakeup while the benchmark collects, and says what to do next. The progress is
/// reported if it is `visible`.
pub fn collect_until(
    window: &Window,
    duration: Nanos,
    visible: bool,
    stats: &mut Stats,
    wakeup: Wakeup,
) -> (step: CollectStep)
    requires
        old(stats).wf(),
        event::is_countable(*window, event_of(wakeup)),
        wakeup matches Wakeup::Received(Some(Event::Error { source, .. })) ==> source < usize::MAX,
    ensures
        final(stats).wf(),
        final(stats)@ == event::tally_after(old(stats)@, *window, event_of(wakeup)),
        follows(*window, duration, visible, old(stats).unique, wakeup, step),
{
    match wakeup {
        Wakeup::Deadline => CollectStep::Finish(Ok(window.cutoff)),
        Wakeup::Interrupt { outcome, now } => match outcome {
            Ok(_) => CollectStep::Finish(Ok(now)),
            Err(reason) => {
                let mut message = "failed to listen for Ctrl+C: ".to_owned();
                message.append(reason.as_str());
                CollectStep::Finish(Err(MessageError(message)))
            },
        },
        Wakeup::Tick { now } => if visible {
            let passed: Nanos = if now >= window.start {
                now - window.start
            } else {
                0
            };
            let elapsed: Nanos = if passed <= duration {
                passed
            } else {
                duration
            };
            CollectStep::Report { elapsed, unique: stats.unique }
        } else {
            CollectStep::Continue
        },
        Wakeup::Received(received) => match received {
            Some(Event::Transaction { source, id, received_at }) => {
                if window.contains(received_at) {
                    stats.observe(source, id, received_at);
                }
                CollectStep::Continue
            },
            Some(Event::Error { source, message: reason }) => {
                let mut message = "S".to_owned();
                message.append(to_decimal((source + 1) as u64).as_str());
                message.append(": ");
                message.append(reason.as_str());
                CollectStep::Finish(Err(MessageError(message)))
            },
            Some(Event::Ready(_)) => CollectStep::Continue,
            Some(Event::Finished(_)) => CollectStep::Continue,
            None => CollectStep::Finish(Err(MessageError("both source streams closed".to_owned()))),
        },
    }
}

/// The reason for which a source has failed, with the name of the source.
pub open spec fn named_reason(name: Seq<char>, reason: Seq<char>) -> Seq<char> {
    name + ": "@ + reason
}

/// The error for the failure of a source.
fn source_error(name: &str, reason: &str) -> (error: MessageError)
    ensures
        error.0@ == named_reason(name@, reason@),
{
    let mut message = name.to_owned();
    message.append(": ");
    message.append(reason);
    MessageError(message)
}

/// Whether the source of an event is one of the two, if it matters which one it is: `marks` says
/// whether the event marks its source.
pub open spec fn source_known(event: Option<Event>, marks: spec_fn(Event) -> Option<usize>) -> bool {
    match event {
        Some(Event::Error { source, .. }) => source < 2,
        Some(event) => marks(event) matches Some(source) ==> source < 2,
        None => true,
    }
}

/// The source that an event says is ready.
pub open spec fn ready_source(event: Event) -> Option<usize> {
    match event {
        Event::Ready(source) => Some(source),
        _ => None,
    }
}

/// The source that an event says is finished.
pub open spec fn finished_source(event: Event) -> Option<usize> {
    match event {
        Event::Finished(source) => Some(source),
        _ => None,
    }
}

/// The marks after an event.
pub open spec fn marked(
    marks: Seq<bool>,
    event: Option<Event>,
    source_of: spec_fn(Event) -> Option<usize>,
) -> Seq<bool> {
    match event {
        Some(event) => match source_of(event) {
            Some(source) => marks.update(source as int, true),
            None => marks,
        },
        None => marks,
    }
}

/// Whether `outcome` is that of waiting for both marks: whether both are set, or why they will not
/// be.
pub open spec fn waits(
    outcome: Result<bool, MessageError>,
    marks: Seq<bool>,
    event: Option<Event>,
    names: Seq<String>,
    closed: Seq<char>,
) -> bool {
    match event {
        Some(Event::Error { source, message }) => outcome matches Err(error) && error.0@
            == named_reason(names[source as int]@, message@),
        Some(_) => outcome == Ok::<bool, MessageError>(marks[0] && marks[1]),
        None => outcome matches Err(error) && error.0@ == closed,
    }
}

/// Handles an event while the benchmark waits for the sources, and says whether both are ready.
pub fn wait_for_ready(
    ready: &mut [bool; 2],
    event: Option<Event>,
    names: &[String; 2],
) -> (outcome: Result<bool, MessageError>)
    requires
        source_known(event, |event: Event| ready_source(event)),
    ensures
        final(ready)@ == marked(old(ready)@, event, |event: Event| ready_source(event)),
        forall|source: usize|
            source < 2 ==> #[trigger] final(ready)@[source as int] == (old(ready)@[source as int]
                || event == Some(Event::Ready(source))),
        outcome == Ok::<bool, MessageError>(true) ==> final(ready)@[0] && final(ready)@[1],
        outcome == Ok::<bool, MessageError>(false) ==> !final(ready)@[0] || !final(ready)@[1],
        outcome is Err <==> event is None || event->0 is Error,
        waits(outcome, final(ready)@, event, names@, "both source streams closed"@),
{
    match event {
        Some(Event::Ready(source)) => {
            ready[source] = true;
            Ok(ready[0] && ready[1])
        },
        Some(Event::Error { source, message }) => Err(
            source_error(names[source].as_str(), message.as_str()),
        ),
        Some(Event::Transaction { .. }) => Ok(ready[0] && ready[1]),
        Some(Event::Finished(_)) => Ok(ready[0] && ready[1]),
        None => Err(MessageError("both source streams closed".to_owned())),
    }
}

/// Handles an event after the benchmark has been told to stop, and says whether both sources are
/// finished. What came before the cutoff still counts.
pub fn drain_until_finished(
    finished: &mut [bool; 2],
    event: Option<Event>,
    window: &Window,
    stats: &mut Stats,
    names: &[String; 2],
) -> (outcome: Result<bool, MessageError>)
    requires
        old(stats).wf(),
        event::is_countable(*window, event),
        source_known(event, |event: Event| finished_source(event)),
    ensures
        final(stats).wf(),
        final(stats)@ == event::tally_after(old(stats)@, *window, event),
        final(finished)@ == marked(old(finished)@, event, |event: Event| finished_source(event)),
        forall|source: usize|
            source < 2 ==> #[trigger] final(finished)@[source as int] == (
            old(finished)@[source as int] || event == Some(Event::Finished(source))),
        outcome == Ok::<bool, MessageError>(true) ==> final(finished)@[0] && final(finished)@[1],
        outcome == Ok::<bool, MessageError>(false) ==> !final(finished)@[0] || !final(finished)@[1],
        outcome is Err <==> event is None || event->0 is Error,
        waits(outcome, final(finished)@, event, names@, "source streams closed before draining"@),
{
    match event {
        Some(Event::Transaction { source, id, received_at }) => {
            if window.contains(received_at) {
                stats.observe(source, id, received_at);
            }
            Ok(finished[0] && finished[1])
        },
        Some(Event::Finished(source)) => {
            finished[source] = true;
            Ok(finished[0] && finished[1])
        },
        Some(Event::Error { source, message }) => Err(
            source_error(names[source].as_str(), message.as_str()),
        ),
        Some(Event::Ready(_)) => Ok(finished[0] && finished[1]),
        None => Err(MessageError("source streams closed before draining".to_owned())),
    }
}

/// The marks that some events leave.
pub open spec fn marked_by_all(
    events: Seq<Event>,
    source_of: spec_fn(Event) -> Option<usize>,
) -> Seq<bool>
    decreases events.len(),
{
    if events.len() == 0 {
        seq![false, false]
    } else {
        marked(marked_by_all(events.drop_last(), source_of), Some(events.last()), source_of)
    }
}

/// A source is marked if one of the events marks it, and only then: the benchmark starts when both
/// sources have said that they are ready, and ends when both have said that they are finished.
pub proof fn lemma_waits_for_each(
    events: Seq<Event>,
    source_of: spec_fn(Event) -> Option<usize>,
    source: usize,
)
    requires
        source < 2,
        forall|i: int|
            0 <= i < events.len() ==> (source_of(#[trigger] events[i]) matches Some(marked)
                ==> marked < 2),
    ensures
        marked_by_all(events, source_of).len() == 2,
        marked_by_all(events, source_of)[source as int] <==> exists|i: int|
            0 <= i < events.len() && source_of(#[trigger] events[i]) == Some(source),
    decreases events.len(),
{
    if events.len() > 0 {
        let front = events.drop_last();
        let last = events.len() - 1;
        assert forall|i: int| 0 <= i < front.len() implies (source_of(
            #[trigger] front[i],
        ) matches Some(marked) ==> marked < 2) by {
            assert(front[i] == events[i]);
        }
        lemma_waits_for_each(front, source_of, source);
        assert(source_of(events[last]) matches Some(marked) ==> marked < 2);
        if exists|i: int| 0 <= i < front.len() && source_of(#[trigger] front[i]) == Some(source) {
            let i = choose|i: int|
                0 <= i < front.len() && source_of(#[trigger] front[i]) == Some(source);
            assert(source_of(events[i]) == Some(source));
        }
        if exists|i: int| 0 <= i < events.len() && source_of(#[trigger] events[i]) == Some(source) {
            let i = choose|i: int|
                0 <= i < events.len() && source_of(#[trigger] events[i]) == Some(source);
            if i < last {
                assert(source_of(front[i]) == Some(source));
            }
        }
    }
}

/// Over a series of events in which no source fails, waiting for the sources is over if and only if
/// the one has said that it is ready, and the other has said so too.
pub proof fn lemma_starts_when_both_are_ready(
    events: Seq<Event>,
    outcome: Result<bool, MessageError>,
    names: Seq<String>,
    closed: Seq<char>,
)
    requires
        events.len() > 0,
        forall|i: int|
            0 <= i < events.len() ==> !(#[trigger] events[i] is Error) && (
            events[i] matches Event::Ready(source) ==> source < 2),
        waits(
            outcome,
            marked_by_all(events, |event: Event| ready_source(event)),
            Some(events.last()),
            names,
            closed,
        ),
    ensures
        outcome is Ok,
        outcome == Ok::<bool, MessageError>(true) <==> {
            &&& exists|i: int| 0 <= i < events.len() && #[trigger] events[i] == Event::Ready(0)
            &&& exists|i: int| 0 <= i < events.len() && #[trigger] events[i] == Event::Ready(1)
        },
{
    let source_of = |event: Event| ready_source(event);
    assert(!(events[events.len() - 1] is Error));
    lemma_waits_for_each(events, source_of, 0);
    lemma_waits_for_each(events, source_of, 1);
    lemma_same_witness(events, source_of, 0, Event::Ready(0));
    lemma_same_witness(events, source_of, 1, Event::Ready(1));
}

/// Over a series of events in which no source fails, draining is over if and only if the one source
/// has said that it is finished, and the other has said so too.
pub proof fn lemma_ends_when_both_are_finished(
    events: Seq<Event>,
    outcome: Result<bool, MessageError>,
    names: Seq<String>,
    closed: Seq<char>,
)
    requires
        events.len() > 0,
        forall|i: int|
            0 <= i < events.len() ==> !(#[trigger] events[i] is Error) && (
            events[i] matches Event::Finished(source) ==> source < 2),
        waits(
            outcome,
            marked_by_all(events, |event: Event| finished_source(event)),
            Some(events.last()),
            names,
            closed,
        ),
    ensures
        outcome is Ok,
        outcome == Ok::<bool, MessageError>(true) <==> {
            &&& exists|i: int| 0 <= i < events.len() && #[trigger] events[i] == Event::Finished(0)
            &&& exists|i: int| 0 <= i < events.len() && #[trigger] events[i] == Event::Finished(1)
        },
{
    let source_of = |event: Event| finished_source(event);
    assert(!(events[events.len() - 1] is Error));
    lemma_waits_for_each(events, source_of, 0);
    lemma_waits_for_each(events, source_of, 1);
    lemma_same_witness(events, source_of, 0, Event::Finished(0));
    lemma_same_witness(events, source_of, 1, Event::Finished(1));
}

proof fn lemma_same_witness(
    events: Seq<Event>,
    source_of: spec_fn(Event) -> Option<usize>,
    source: usize,
    mark: Event,
)
    requires
        forall|i: int|
            0 <= i < events.len() ==> (source_of(#[trigger] events[i]) == Some(source)
                <==> events[i] == mark),
    ensures
        (exists|i: int| 0 <= i < events.len() && source_of(#[trigger] events[i]) == Some(source))
            <==> (exists|i: int| 0 <= i < events.len() && #[trigger] events[i] == mark),
{
    if exists|i: int| 0 <= i < events.len() && #[trigger] events[i] == mark {
        let i = choose|i: int| 0 <= i < events.len() && #[trigger] events[i] == mark;
        assert(source_of(events[i]) == Some(source));
    }
}

/// While a benchmark waits or drains, the failure of a source ends it with the name of that source
/// and the reason, and so does the end of all reports, with the reason for that.
pub proof fn lemma_waiting_fails_for_a_reason(
    outcome: Result<bool, MessageError>,
    marks: Seq<bool>,
    event: Option<Event>,
    names: Seq<String>,
    closed: Seq<char>,
)
    requires
        waits(outcome, marks, event, names, closed),
    ensures
        event is None ==> outcome is Err && outcome->Err_0.0@ == closed,
        event matches Some(Event::Error { source, message }) ==> outcome is Err
            && outcome->Err_0.0@ == names[source as int]@ + ": "@ + message@,
        outcome is Err ==> event is None || event->0 is Error,
{
}

/// A visible tick reports the counts and the time since the start of the window: none before the
/// start, and no more than the duration after it.
pub proof fn lemma_tick_tells_the_time(
    window: Window,
    duration: Nanos,
    unique: [u64; 2],
    now: Nanos,
    step: CollectStep,
)
    requires
        follows(window, duration, true, unique, Wakeup::Tick { now }, step),
    ensures
        step matches CollectStep::Report { elapsed, unique: counted } && {
            &&& counted == unique
            &&& now <= window.start ==> elapsed == 0
            &&& window.start <= now <= window.start + duration ==> window.start + elapsed == now
            &&& window.start + duration <= now ==> elapsed == duration
        },
{
}

/// The time that is reported never runs backwards.
pub proof fn lemma_time_goes_on(
    window: Window,
    duration: Nanos,
    unique: [u64; 2],
    earlier: Nanos,
    later: Nanos,
    step: CollectStep,
    next: CollectStep,
)
    requires
        earlier <= later,
        follows(window, duration, true, unique, Wakeup::Tick { now: earlier }, step),
        follows(window, duration, true, unique, Wakeup::Tick { now: later }, next),
    ensures
        step is Report && next is Report,
        step->elapsed <= next->elapsed,
        next->elapsed - step->elapsed <= later - earlier,
{
}

/// Collecting ends at the cutoff of the window, at the time at which the user asks to stop, or with
/// the reason of a failure, and for nothing else.
pub proof fn lemma_collecting_ends_for_a_reason(
    window: Window,
    duration: Nanos,
    visible: bool,
    unique: [u64; 2],
    wakeup: Wakeup,
    step: CollectStep,
)
    requires
        follows(window, duration, visible, unique, wakeup, step),
    ensures
        wakeup is Deadline ==> step == CollectStep::Finish(Ok(window.cutoff)),
        wakeup matches Wakeup::Interrupt { outcome: Ok(_), now } ==> step == CollectStep::Finish(
            Ok(now),
        ),
        wakeup matches Wakeup::Interrupt { outcome: Err(reason), .. } ==> step is Finish
            && step->Finish_0 is Err && step->Finish_0->Err_0.0@ == "failed to listen for Ctrl+C: "@
            + reason@,
        wakeup matches Wakeup::Received(Some(Event::Error { source, message })) ==> step is Finish
            && step->Finish_0 is Err && step->Finish_0->Err_0.0@ == "S"@ + numeral::decimal(
            source as nat + 1,
        ) + ": "@ + message@,
        wakeup matches Wakeup::Received(None) ==> step is Finish && step->Finish_0 is Err
            && step->Finish_0->Err_0.0@ == "both source streams closed"@,
        step is Finish ==> {
            ||| wakeup is Deadline
            ||| wakeup is Interrupt
            ||| wakeup == Wakeup::Received(None)
            ||| wakeup is Received && wakeup->Received_0->0 is Error
        },
        step is Report <==> visible && wakeup is Tick,
{
}

} // verus!
