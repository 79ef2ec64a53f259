//! How the reports of a source come about.

use crate::clock::{Nanos, Window, NANOS_PER_SECOND};
use crate::entries;
use crate::entries::{decode_entries, transaction_ids, Entry};
use crate::event;
use crate::event::{Event, Report};
use vstd::prelude::*;
use vstd::string::*;

verus! {

/// How often a connection to a source is tried.
pub const ATTEMPTS: u32 = 20;

/// How long to rest after a connection has failed.
pub const RETRY_DELAY: Nanos = 250_000_000;

/// What a receiver is doing.
#[derive(Clone, Copy, Debug, PartialEq, Eq, Structural)]
pub enum Phase {
    /// It tries to connect to the source and to subscribe to its entries.
    Connecting,
    /// It rests after it has failed to.
    Resting,
    /// It gets entries from the source.
    Streaming,
    /// It has stopped.
    Stopped,
}

/// What happens to a receiver.
pub enum Signal {
    /// The source could not be reached.
    ConnectionFailed(String),
    /// The source did not accept the subscription.
    SubscriptionFailed(String),
    /// The source accepted the subscription.
    Subscribed,
    /// The rest is over.
    Rested,
    /// The window was set.
    ControlChanged,
    /// No more entries are wanted.
    ControlClosed,
    /// Entries came from the source.
    Message {
        /// When they came.
        received_at: Nanos,
        /// The window, once it is set.
        window: Option<Window>,
        /// The bytes of the entries.
        entries: Vec<u8>,
    },
    /// The source has closed the stream.
    StreamClosed,
    /// The stream has failed.
    StreamFailed(String),
    /// Nobody takes the reports any more.
    ListenerGone,
}

/// What happens to a receiver, in terms of mathematics. The bytes of the entries are decoded.
pub enum Happening {
    /// The source could not be reached.
    ConnectionFailed(Seq<char>),
    /// The source did not accept the subscription.
    SubscriptionFailed(Seq<char>),
    /// The source accepted the subscription.
    Subscribed,
    /// The rest is over.
    Rested,
    /// The window was set.
    ControlChanged,
    /// No more entries are wanted.
    ControlClosed,
    /// Entries came from the source.
    Message {
        /// When they came.
        received_at: Nanos,
        /// The window, once it is set.
        window: Option<Window>,
        /// The entries, or the reason for which the bytes are not those of entries.
        decoded: Result<Seq<Seq<Seq<Seq<u8>>>>, Seq<char>>,
    },
    /// The source has closed the stream.
    StreamClosed,
    /// The stream has failed.
    StreamFailed(Seq<char>),
    /// Nobody takes the reports any more.
    ListenerGone,
}

/// Whether `happening` is what `signal` says.
pub open spec fn says(signal: Signal, happening: Happening) -> bool {
    match signal {
        Signal::ConnectionFailed(reason) => happening == Happening::ConnectionFailed(reason@),
        Signal::SubscriptionFailed(reason) => happening == Happening::SubscriptionFailed(reason@),
        Signal::Subscribed => happening == Happening::Subscribed,
        Signal::Rested => happening == Happening::Rested,
        Signal::ControlChanged => happening == Happening::ControlChanged,
        Signal::ControlClosed => happening == Happening::ControlClosed,
        Signal::Message { received_at, window, entries: bytes } => {
            &&& happening matches Happening::Message { received_at: at, window: during, decoded }
            &&& at == received_at
            &&& during == window
            &&& entries::is_decoding(bytes@, decoded)
        },
        Signal::StreamClosed => happening == Happening::StreamClosed,
        Signal::StreamFailed(reason) => happening == Happening::StreamFailed(reason@),
        Signal::ListenerGone => happening == Happening::ListenerGone,
    }
}

/// What a receiver knows, in terms of mathematics.
#[verifier::ext_equal]
pub struct Reception {
    /// The source.
    pub source: int,
    /// Where the source is reached.
    pub url: Seq<char>,
    /// How often a connection has failed.
    pub failures: nat,
    /// Why it failed the last time.
    pub last_error: Seq<char>,
    /// What the receiver is doing.
    pub phase: Phase,
}

impl Reception {
    /// Before the first try.
    pub open spec fn begun(source: int, url: Seq<char>) -> Reception {
        Reception { source, url, failures: 0, last_error: Seq::empty(), phase: Phase::Connecting }
    }

    /// Whether no more tries were made than are allowed.
    pub open spec fn wf(self) -> bool {
        &&& self.failures <= ATTEMPTS
        &&& self.phase == Phase::Connecting ==> self.failures < ATTEMPTS
    }

    /// After a try that failed.
    pub open spec fn failed(self, reason: Seq<char>) -> Reception {
        Reception {
            failures: self.failures + 1,
            last_error: reason,
            phase: Phase::Resting,
            ..self
        }
    }

    /// After the end.
    pub open spec fn stopped(self) -> Reception {
        Reception { phase: Phase::Stopped, ..self }
    }

    /// The end, with the report of a failure.
    pub open spec fn stopped_by(self, reason: Seq<char>) -> (Reception, Seq<Report>) {
        (self.stopped(), seq![Report::Error { source: self.source, message: reason }])
    }

    /// The reports of the transactions of the entries, in their order.
    pub open spec fn transaction_reports(
        self,
        received_at: Nanos,
        entries: Seq<Seq<Seq<Seq<u8>>>>,
    ) -> Seq<Report> {
        entries::ids_of_entries(entries).map_values(
            |id: Seq<u8>| Report::Transaction { source: self.source, id, received_at },
        )
    }

    /// What follows when entries came during the window: a report for each transaction, or the end
    /// if the bytes are not those of entries.
    pub open spec fn after_entries(
        self,
        received_at: Nanos,
        decoded: Result<Seq<Seq<Seq<Seq<u8>>>>, Seq<char>>,
    ) -> (Reception, Seq<Report>) {
        match decoded {
            Ok(entries) => (self, self.transaction_reports(received_at, entries)),
            Err(reason) => self.stopped_by("invalid entry data: "@ + reason),
        }
    }

    /// What follows on what happens, and the reports that are made of it. What does not fit what
    /// the receiver is doing changes nothing.
    pub open spec fn after(self, happening: Happening) -> (Reception, Seq<Report>) {
        let unchanged = (self, Seq::<Report>::empty());
        match (self.phase, happening) {
            (Phase::Stopped, _) => unchanged,
            (_, Happening::ListenerGone) => (self.stopped(), Seq::empty()),
            (Phase::Connecting, Happening::ConnectionFailed(reason)) => (
                self.failed("connection failed: "@ + reason),
                Seq::empty(),
            ),
            (Phase::Connecting, Happening::SubscriptionFailed(reason)) => (
                self.failed("subscription failed: "@ + reason),
                Seq::empty(),
            ),
            (Phase::Connecting, Happening::Subscribed) => (
                Reception { phase: Phase::Streaming, ..self },
                seq![Report::Ready(self.source)],
            ),
            (Phase::Resting, Happening::Rested) => if self.failures < ATTEMPTS {
                (Reception { phase: Phase::Connecting, ..self }, Seq::empty())
            } else {
                self.stopped_by(self.last_error + " ("@ + self.url + ")"@)
            },
            (Phase::Streaming, Happening::ControlClosed) => (
                self.stopped(),
                seq![Report::Finished(self.source)],
            ),
            (Phase::Streaming, Happening::Message { received_at, window, decoded }) => match window {
                Some(window) => if window.holds(received_at) {
                    self.after_entries(received_at, decoded)
                } else {
                    unchanged
                },
                None => unchanged,
            },
            (Phase::Streaming, Happening::StreamClosed) => self.stopped_by("stream closed"@),
            (Phase::Streaming, Happening::StreamFailed(reason)) => self.stopped_by(
                "stream error: "@ + reason,
            ),
            _ => unchanged,
        }
    }
}

/// What turns the entries of a source into reports.
pub struct Receiver {
    /// The source.
    pub source: usize,
    /// Where the source is reached.
    pub url: String,
    /// How often a connection has failed.
    pub failures: u32,
    /// Why it failed the last time.
    pub last_error: String,
    /// What the receiver is doing.
    pub phase: Phase,
}

impl View for Receiver {
    type V = Reception;

    open spec fn view(&self) -> Reception {
        Reception {
            source: self.source as int,
            url: self.url@,
            failures: self.failures as nat,
            last_error: self.last_error@,
            phase: self.phase,
        }
    }
}

/// `front` with `back` after it.
fn concatenated(front: &str, back: &str) -> (text: String)
    ensures
        text@ == front@ + back@,
{
    let mut text = front.to_owned();
    text.append(back);
    text
}

impl Receiver {
    /// A receiver that has not tried to connect yet.
    pub fn new(source: usize, url: String) -> (receiver: Receiver)
        ensures
            receiver@.wf(),
            receiver@ == Reception::begun(source as int, url@),
    {
        Receiver {
            source,
            url,
            failures: 0,
            last_error: String::new(),
            phase: Phase::Connecting,
        }
    }

    /// Stops, with the report of a failure.
    fn stop_with(&mut self, message: String) -> (events: Vec<Event>)
        ensures
            (final(self)@, event::reports(events@)) == old(self)@.stopped_by(message@),
    {
        self.phase = Phase::Stopped;
        let mut events: Vec<Event> = Vec::new();
        events.push(Event::Error { source: self.source, message });
        assert(event::reports(events@) =~= old(self)@.stopped_by(message@).1);
        events
    }

    /// Notes that a try has failed.
    fn fail(&mut self, reason: String)
        requires
            old(self).failures < ATTEMPTS,
        ensures
            final(self)@ == old(self)@.failed(reason@),
    {
        self.failures = self.failures + 1;
        self.last_error = reason;
        self.phase = Phase::Resting;
    }

    /// Handles entries that came during the window: reports each transaction, or stops if the bytes
    /// were not those of entries.
    pub fn receive_entries(
        &mut self,
        received_at: Nanos,
        decoded: Result<Vec<Entry>, String>,
    ) -> (events: Vec<Event>)
        ensures
            (final(self)@, event::reports(events@)) == old(self)@.after_entries(
                received_at,
                entries::decoding_of(decoded),
            ),
    {
        match decoded {
            Ok(list) => {
                let ids = transaction_ids(&list);
                let ghost expected = self@.transaction_reports(
                    received_at,
                    entries::entries_of(list@),
                );
                assert(entries::id_bytes(ids@).len() == ids@.len());
                let mut events: Vec<Event> = Vec::new();
                let mut reported: usize = 0;
                while reported < ids.len()
                    invariant
                        *self == *old(self),
                        entries::id_bytes(ids@) == entries::ids_of_entries(
                            entries::entries_of(list@),
                        ),
                        expected == self@.transaction_reports(
                            received_at,
                            entries::entries_of(list@),
                        ),
                        expected.len() == ids.len(),
                        reported <= ids.len(),
                        event::reports(events@) == expected.take(reported as int),
                    decreases ids.len() - reported,
                {
                    let ghost before = events@;
                    assert(entries::id_bytes(ids@)[reported as int] == ids@[reported as int]@);
                    events.push(
                        Event::Transaction { source: self.source, id: ids[reported], received_at },
                    );
                    assert(event::reports(events@) =~= event::reports(before).push(
                        expected[reported as int],
                    ));
                    assert(expected.take(reported + 1) =~= expected.take(reported as int).push(
                        expected[reported as int],
                    ));
                    reported += 1;
                }
                assert(expected.take(reported as int) =~= expected);
                events
            },
            Err(reason) => self.stop_with(concatenated("invalid entry data: ", reason.as_str())),
        }
    }

    /// Handles what happens to the receiver, and returns the reports that are to be made of it, in
    /// their order. The phase then says what the receiver does next. Entries that come during the
    /// window are decoded, and what that comes to is handled, with the words of a failure as they
    /// are.
    pub fn receive(&mut self, signal: Signal) -> (events: Vec<Event>)
        requires
            old(self)@.wf(),
        ensures
            final(self)@.wf(),
            exists|happening: Happening| #[trigger]
                says(signal, happening) && (final(self)@, event::reports(events@)) == old(
                    self,
                )@.after(happening),
            old(self).phase == Phase::Streaming ==> (signal matches Signal::Message {
                received_at,
                window: Some(window),
                entries: bytes,
            } ==> window.holds(received_at) ==> exists|decoded: Result<Vec<Entry>, String>|
                #[trigger] entries::came_of(bytes@, decoded) && (
                    final(self)@,
                    event::reports(events@),
                ) == old(self)@.after_entries(received_at, entries::decoding_of(decoded))),
    {
        let mut events: Vec<Event> = Vec::new();
        let ghost mut happening = Happening::ListenerGone;
        match signal {
            Signal::ConnectionFailed(reason) => {
                proof {
                    happening = Happening::ConnectionFailed(reason@);
                }
                if self.phase == Phase::Connecting {
                    self.fail(concatenated("connection failed: ", reason.as_str()));
                }
            },
            Signal::SubscriptionFailed(reason) => {
                proof {
                    happening = Happening::SubscriptionFailed(reason@);
                }
                if self.phase == Phase::Connecting {
                    self.fail(concatenated("subscription failed: ", reason.as_str()));
                }
            },
            Signal::Subscribed => {
                proof {
                    happening = Happening::Subscribed;
                }
                if self.phase == Phase::Connecting {
                    self.phase = Phase::Streaming;
                    events.push(Event::Ready(self.source));
                }
            },
            Signal::Rested => {
                proof {
                    happening = Happening::Rested;
                }
                if self.phase == Phase::Resting {
                    if self.failures < ATTEMPTS {
                        self.phase = Phase::Connecting;
                    } else {
                        let mut message = concatenated(self.last_error.as_str(), " (");
                        message.append(self.url.as_str());
                        message.append(")");
                        events = self.stop_with(message);
                    }
                }
            },
            Signal::ControlChanged => {
                proof {
                    happening = Happening::ControlChanged;
                }
            },
            Signal::ControlClosed => {
                proof {
                    happening = Happening::ControlClosed;
                }
                if self.phase == Phase::Streaming {
                    self.phase = Phase::Stopped;
                    events.push(Event::Finished(self.source));
                }
            },
            Signal::Message { received_at, window, entries: bytes } => {
                let ghost some_decoding: Result<Seq<Seq<Seq<Seq<u8>>>>, Seq<char>> =
                    match entries::decoded_entries(bytes@) {
                    Some(list) => Ok(list),
                    None => Err(Seq::empty()),
                };
                proof {
                    happening = Happening::Message { received_at, window, decoded: some_decoding };
                }
                if self.phase == Phase::Streaming {
                    if let Some(during) = window {
                        if during.contains(received_at) {
                            let slice = bytes.as_slice();
                            let decoded = decode_entries(slice);
                            proof {
                                entries::lemma_came_of(slice, decoded);
                                happening =
                                Happening::Message {
                                    received_at,
                                    window,
                                    decoded: entries::decoding_of(decoded),
                                };
                            }
                            events = self.receive_entries(received_at, decoded);
                        }
                    }
                }
            },
            Signal::StreamClosed => {
                proof {
                    happening = Happening::StreamClosed;
                }
                if self.phase == Phase::Streaming {
                    events = self.stop_with("stream closed".to_owned());
                }
            },
            Signal::StreamFailed(reason) => {
                proof {
                    happening = Happening::StreamFailed(reason@);
                }
                if self.phase == Phase::Streaming {
                    events = self.stop_with(concatenated("stream error: ", reason.as_str()));
                }
            },
            Signal::ListenerGone => {
                self.phase = Phase::Stopped;
            },
        }
        assert(says(signal, happening));
        assert(self@ =~= old(self)@.after(happening).0);
        assert(event::reports(events@) =~= old(self)@.after(happening).1);
        events
    }
}

/// What follows on a series of happenings, and all the reports that are made of them.
pub open spec fn heard(start: Reception, happenings: Seq<Happening>) -> (Reception, Seq<Report>)
    decreases happenings.len(),
{
    if happenings.len() == 0 {
        (start, Seq::empty())
    } else {
        let (reception, reports) = heard(start, happenings.drop_last());
        let (next, more) = reception.after(happenings.last());
        (next, reports + more)
    }
}

/// Whether a receiver that is in this phase can have made these reports: first that the source is
/// ready, then transactions, and at the very end that the source is finished or has failed. A
/// source that was never ready can only fail.
pub open spec fn in_order(source: int, phase: Phase, reports: Seq<Report>) -> bool {
    &&& phase == Phase::Connecting || phase == Phase::Resting ==> reports.len() == 0
    &&& phase == Phase::Streaming ==> reports.len() > 0 && reports[0] is Ready
    &&& forall|i: int|
        0 <= i < reports.len() ==> match #[trigger] reports[i] {
            Report::Ready(of) => of == source && i == 0,
            Report::Transaction { source: of, .. } => of == source && i > 0,
            Report::Finished(of) => {
                &&& of == source
                &&& phase == Phase::Stopped
                &&& 0 < i == reports.len() - 1
            },
            Report::Error { source: of, .. } => {
                &&& of == source
                &&& phase == Phase::Stopped
                &&& i == reports.len() - 1
            },
        }
}

/// Whatever happens to a receiver, it makes its reports in order, and it does not try to connect
/// more often than it may.
pub proof fn lemma_reports_in_order(source: int, url: Seq<char>, happenings: Seq<Happening>)
    ensures
        ({
            let (reception, reports) = heard(Reception::begun(source, url), happenings);
            &&& reception.wf()
            &&& reception.source == source
            &&& reception.url == url
            &&& in_order(source, reception.phase, reports)
        }),
    decreases happenings.len(),
{
    if happenings.len() > 0 {
        let front = happenings.drop_last();
        lemma_reports_in_order(source, url, front);
        let (reception, reports) = heard(Reception::begun(source, url), front);
        let (next, more) = reception.after(happenings.last());
        let all = reports + more;
        assert forall|i: int| 0 <= i < reports.len() implies all[i] == #[trigger] reports[i] by {}
        assert forall|i: int| 0 <= i < more.len() implies all[reports.len() + i]
            == #[trigger] more[i] by {}
        assert(more.len() == 0 ==> all =~= reports);
        assert(in_order(source, next.phase, all));
    }
}

/// A receiver that has stopped reports nothing any more.
pub proof fn lemma_stopped_is_silent(reception: Reception, happenings: Seq<Happening>)
    requires
        reception.phase == Phase::Stopped,
    ensures
        heard(reception, happenings) == (reception, Seq::<Report>::empty()),
    decreases happenings.len(),
{
    if happenings.len() > 0 {
        lemma_stopped_is_silent(reception, happenings.drop_last());
        assert(Seq::<Report>::empty() + Seq::<Report>::empty() =~= Seq::<Report>::empty());
    }
}

/// A transaction is reported only if its entry came during the window, with the time at which the
/// entry came.
pub proof fn lemma_reports_lie_in_window(reception: Reception, happening: Happening, i: int)
    requires
        0 <= i < reception.after(happening).1.len(),
    ensures
        reception.after(happening).1[i] matches Report::Transaction { received_at, .. } ==> {
            &&& happening matches Happening::Message { received_at: at, window: Some(window), .. }
            &&& received_at == at
            &&& window.holds(at)
            &&& window.start <= at <= window.cutoff
        },
{
}

/// The reason that is kept of a try that failed; none if it did not fail.
pub open spec fn failure_of(happening: Happening) -> Option<Seq<char>> {
    match happening {
        Happening::ConnectionFailed(reason) => Some("connection failed: "@ + reason),
        Happening::SubscriptionFailed(reason) => Some("subscription failed: "@ + reason),
        _ => None,
    }
}

/// The tries, each one with a rest after it.
pub open spec fn with_rests(tries: Seq<Happening>) -> Seq<Happening> {
    Seq::new(
        2 * tries.len(),
        |i: int|
            if i % 2 == 0 {
                tries[i / 2]
            } else {
                Happening::Rested
            },
    )
}

proof fn lemma_failing_tries(source: int, url: Seq<char>, tries: Seq<Happening>)
    requires
        0 < tries.len() <= ATTEMPTS,
        forall|i: int| 0 <= i < tries.len() ==> failure_of(#[trigger] tries[i]) is Some,
    ensures
        heard(Reception::begun(source, url), with_rests(tries).drop_last()) == (
            Reception {
                failures: tries.len(),
                last_error: failure_of(tries.last())->0,
                phase: Phase::Resting,
                ..Reception::begun(source, url)
            },
            Seq::<Report>::empty(),
        ),
    decreases tries.len(),
{
    let start = Reception::begun(source, url);
    let front = tries.drop_last();
    let all = with_rests(tries).drop_last();
    let nothing = Seq::<Report>::empty();
    assert(nothing + nothing =~= nothing);
    assert(failure_of(tries[tries.len() - 1]) is Some);
    assert(all.last() == tries.last());
    assert(all.drop_last() =~= with_rests(front));
    if front.len() == 0 {
        assert(heard(start, with_rests(front)) == (start, nothing));
    } else {
        assert forall|i: int| 0 <= i < front.len() implies failure_of(
            #[trigger] front[i],
        ) is Some by {
            assert(front[i] == tries[i]);
        }
        lemma_failing_tries(source, url, front);
        assert(with_rests(front).last() == Happening::Rested);
        let resting = heard(start, with_rests(front).drop_last()).0;
        assert(heard(start, with_rests(front)) == (
            Reception { phase: Phase::Connecting, ..resting },
            nothing,
        ));
    }
}

/// A source that cannot be reached, or does not accept the subscription, is given up after the last
/// try that is allowed, with the reason for which that one failed and the address at which the
/// source was sought.
pub proof fn lemma_gives_up(source: int, url: Seq<char>, tries: Seq<Happening>)
    requires
        tries.len() == ATTEMPTS,
        forall|i: int| 0 <= i < tries.len() ==> failure_of(#[trigger] tries[i]) is Some,
    ensures
        heard(Reception::begun(source, url), with_rests(tries)).0.phase == Phase::Stopped,
        heard(Reception::begun(source, url), with_rests(tries)).1 == seq![
            Report::Error {
                source,
                message: failure_of(tries.last())->0 + " ("@ + url + ")"@,
            },
        ],
{
    lemma_failing_tries(source, url, tries);
    assert(with_rests(tries).last() == Happening::Rested);
    let reports = heard(Reception::begun(source, url), with_rests(tries)).1;
    assert(reports =~= seq![reports[0]]);
}

/// A signal is taken for what it says, with the words and times in it as they are.
pub proof fn lemma_signals_are_plain(signal: Signal, happening: Happening)
    requires
        says(signal, happening),
    ensures
        signal matches Signal::ConnectionFailed(reason) ==> happening
            == Happening::ConnectionFailed(reason@),
        signal matches Signal::SubscriptionFailed(reason) ==> happening
            == Happening::SubscriptionFailed(reason@),
        signal is Subscribed ==> happening is Subscribed,
        signal is Rested ==> happening is Rested,
        signal is ControlChanged ==> happening is ControlChanged,
        signal is ControlClosed ==> happening is ControlClosed,
        signal matches Signal::Message { received_at, window, entries: bytes } ==> (
        happening matches Happening::Message { received_at: at, window: during, decoded } && {
            &&& at == received_at
            &&& during == window
            &&& decoded is Ok ==> entries::decoded_entries(bytes@) == Some(decoded->Ok_0)
            &&& decoded is Err ==> entries::decoded_entries(bytes@) is None
        }),
        signal is StreamClosed ==> happening is StreamClosed,
        signal matches Signal::StreamFailed(reason) ==> happening == Happening::StreamFailed(
            reason@,
        ),
        signal is ListenerGone ==> happening is ListenerGone,
{
}

/// A receiver that tries to connect reports that the source is ready when it is, and otherwise rests
/// and keeps the reason; after a rest it tries again, or gives up after twenty tries, with the
/// reason that it has kept and the address.
pub proof fn lemma_connecting_in_words(reception: Reception, happening: Happening)
    ensures
        ({
            let (next, reports) = reception.after(happening);
            let connecting = reception.phase == Phase::Connecting;
            let rested = reception.phase == Phase::Resting && happening is Rested;
            &&& next.source == reception.source && next.url == reception.url
            &&& connecting && happening is Subscribed ==> {
                &&& next.phase == Phase::Streaming
                &&& next.failures == reception.failures
                &&& reports.len() == 1 && reports[0] == Report::Ready(reception.source)
            }
            &&& connecting ==> (happening matches Happening::ConnectionFailed(reason) ==> {
                &&& next.phase == Phase::Resting
                &&& next.failures == reception.failures + 1
                &&& next.last_error == "connection failed: "@ + reason
                &&& reports.len() == 0
            })
            &&& connecting ==> (happening matches Happening::SubscriptionFailed(reason) ==> {
                &&& next.phase == Phase::Resting
                &&& next.failures == reception.failures + 1
                &&& next.last_error == "subscription failed: "@ + reason
                &&& reports.len() == 0
            })
            &&& rested && reception.failures < 20 ==> {
                &&& next.phase == Phase::Connecting
                &&& next.failures == reception.failures
                &&& next.last_error == reception.last_error
                &&& reports.len() == 0
            }
            &&& rested && reception.failures >= 20 ==> {
                &&& next.phase == Phase::Stopped
                &&& reports.len() == 1 && reports[0] == (Report::Error {
                    source: reception.source,
                    message: reception.last_error + " ("@ + reception.url + ")"@,
                })
            }
        }),
{
}

/// A receiver that gets entries reports, of those that come neither before the start of the window
/// nor after its cutoff, each identifier with the time at which it came, and goes on; of others it
/// reports nothing. It stops when no more entries are wanted, or with the reason of a failure.
pub proof fn lemma_streaming_in_words(reception: Reception, happening: Happening)
    requires
        reception.phase == Phase::Streaming,
    ensures
        ({
            let (next, reports) = reception.after(happening);
            let failed = |reason: Seq<char>| {
                &&& next.phase == Phase::Stopped
                &&& reports.len() == 1
                &&& reports[0] == (Report::Error { source: reception.source, message: reason })
            };
            &&& happening matches Happening::Message { received_at, window, decoded } ==> {
                let counts = window is Some && window->0.start <= received_at && received_at
                    <= window->0.cutoff;
                &&& !counts ==> next == reception && reports.len() == 0
                &&& counts ==> (decoded matches Ok(list) ==> {
                    let ids = entries::ids_of_entries(list);
                    &&& next == reception
                    &&& reports.len() == ids.len()
                    &&& forall|i: int|
                        0 <= i < ids.len() ==> #[trigger] reports[i] == (Report::Transaction {
                            source: reception.source,
                            id: ids[i],
                            received_at,
                        })
                })
                &&& counts ==> (decoded matches Err(reason) ==> failed(
                    "invalid entry data: "@ + reason,
                ))
            }
            &&& happening is ControlChanged ==> next == reception && reports.len() == 0
            &&& happening is ControlClosed ==> {
                &&& next.phase == Phase::Stopped
                &&& reports.len() == 1 && reports[0] == Report::Finished(reception.source)
            }
            &&& happening is StreamClosed ==> failed("stream closed"@)
            &&& happening matches Happening::StreamFailed(reason) ==> failed(
                "stream error: "@ + reason,
            )
            &&& happening is ListenerGone ==> next.phase == Phase::Stopped && reports.len() == 0
        }),
{
}

/// What does not fit what a receiver is doing changes nothing and is not reported.
pub proof fn lemma_what_does_not_fit_is_ignored(reception: Reception, happening: Happening)
    requires
        ({
            ||| reception.phase == Phase::Stopped
            ||| reception.phase == Phase::Connecting && !(happening is ConnectionFailed)
                && !(happening is SubscriptionFailed) && !(happening is Subscribed) && !(
            happening is ListenerGone)
            ||| reception.phase == Phase::Resting && !(happening is Rested) && !(
            happening is ListenerGone)
            ||| reception.phase == Phase::Streaming && (happening is ConnectionFailed
                || happening is SubscriptionFailed || happening is Subscribed || happening is Rested)
        }),
    ensures
        reception.after(happening).0 == reception,
        reception.after(happening).1.len() == 0,
{
}

/// A receiver starts by trying to connect to the address that it is given, and knows what it holds.
pub proof fn lemma_receiver_is_plain(receiver: Receiver, source: int, url: Seq<char>)
    ensures
        receiver@.source == receiver.source,
        receiver@.url == receiver.url@,
        receiver@.failures == receiver.failures,
        receiver@.last_error == receiver.last_error@,
        receiver@.phase == receiver.phase,
        Reception::begun(source, url).source == source,
        Reception::begun(source, url).url == url,
        Reception::begun(source, url).failures == 0,
        Reception::begun(source, url).last_error.len() == 0,
        Reception::begun(source, url).phase == Phase::Connecting,
{
}

/// Between two tries a quarter of a second passes, so that all rests together take five seconds.
pub proof fn lemma_rests_take_five_seconds()
    ensures
        4 * RETRY_DELAY == NANOS_PER_SECOND,
        ATTEMPTS * RETRY_DELAY == 5 * NANOS_PER_SECOND,
        NANOS_PER_SECOND == 1_000 * 1_000 * 1_000,
{
}

} // verus!
