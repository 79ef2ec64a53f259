//! Which source was first, how often and by how much.

use crate::clock::Nanos;
use crate::observations;
use crate::observations::{Observations, TransactionId};
use vstd::prelude::*;

verus! {

/// What the statistics say, in terms of mathematics.
#[verifier::ext_equal]
pub struct Tally {
    /// The arrivals of each transaction that a source has reported.
    pub observations: Map<Seq<u8>, Seq<Option<Nanos>>>,
    /// How many transactions each source has reported.
    pub unique: Seq<nat>,
    /// How many of the transactions that both sources have reported came first from each of them.
    pub first: Seq<nat>,
    /// By how much each source was ahead, each time that it was first.
    pub leads: Seq<Seq<Nanos>>,
    /// How many transactions both sources have reported.
    pub matched: nat,
}

/// The source that was first if the transaction came from `source` at `at` and had come from the
/// other source at `other_at`. Of two arrivals at one time, the one noted before counts as first.
pub open spec fn winner(source: int, at: Nanos, other_at: Nanos) -> int {
    if at < other_at {
        source
    } else {
        1 - source
    }
}

/// The time between two arrivals.
pub open spec fn lead(at: Nanos, other_at: Nanos) -> Nanos {
    if at < other_at {
        (other_at - at) as Nanos
    } else {
        (at - other_at) as Nanos
    }
}

impl Tally {
    /// Nothing has been reported.
    pub open spec fn empty() -> Tally {
        Tally {
            observations: Map::empty(),
            unique: seq![0, 0],
            first: seq![0, 0],
            leads: seq![Seq::empty(), Seq::empty()],
            matched: 0,
        }
    }

    /// The arrivals of a transaction.
    pub open spec fn arrivals(self, id: Seq<u8>) -> Seq<Option<Nanos>> {
        observations::arrivals_of(self.observations, id)
    }

    /// What the statistics say after the transaction came from `source` at `at`. Only the first
    /// arrival of a transaction from a source counts.
    pub open spec fn observed(self, source: int, id: Seq<u8>, at: Nanos) -> Tally {
        let arrivals = self.arrivals(id);
        if arrivals[source] is Some {
            self
        } else {
            let noted = Tally {
                observations: self.observations.insert(id, arrivals.update(source, Some(at))),
                unique: self.unique.update(source, self.unique[source] + 1),
                ..self
            };
            match arrivals[1 - source] {
                None => noted,
                Some(other_at) => {
                    let first = winner(source, at, other_at);
                    Tally {
                        matched: self.matched + 1,
                        first: self.first.update(first, self.first[first] + 1),
                        leads: self.leads.update(
                            first,
                            self.leads[first].push(lead(at, other_at)),
                        ),
                        ..noted
                    }
                },
            }
        }
    }

    /// The transactions that a source has reported.
    pub open spec fn seen_by(self, source: int) -> Set<Seq<u8>> {
        self.observations.dom().filter(|id: Seq<u8>| self.observations[id][source] is Some)
    }

    /// The transactions that both sources have reported.
    pub open spec fn seen_by_both(self) -> Set<Seq<u8>> {
        self.observations.dom().filter(
            |id: Seq<u8>| self.observations[id][0] is Some && self.observations[id][1] is Some,
        )
    }

    /// The transactions that both sources have reported, and that came from `source` at an earlier
    /// time than from the other.
    pub open spec fn earlier_from(self, source: int) -> Set<Seq<u8>> {
        self.observations.dom().filter(
            |id: Seq<u8>|
                self.observations[id][0] is Some && self.observations[id][1] is Some
                    && self.observations[id][source]->0 < self.observations[id][1 - source]->0,
        )
    }

    /// The transactions that came from `source` earlier than from the other, by `gap`.
    pub open spec fn earlier_by(self, source: int, gap: Nanos) -> Set<Seq<u8>> {
        self.observations.dom().filter(
            |id: Seq<u8>|
                self.observations[id][0] is Some && self.observations[id][1] is Some
                    && self.observations[id][1 - source]->0 - self.observations[id][source]->0
                    == gap,
        )
    }

    /// Whether the numbers agree with the arrivals.
    pub open spec fn consistent(self) -> bool {
        &&& self.observations.dom().finite()
        &&& forall|id: Seq<u8>|
            self.observations.dom().contains(id) ==> (#[trigger] self.observations[id]).len() == 2
        &&& self.unique.len() == 2
        &&& self.first.len() == 2
        &&& self.leads.len() == 2
        &&& forall|source: int|
            0 <= source < 2 ==> (#[trigger] self.unique[source]) == self.seen_by(source).len()
        &&& forall|source: int|
            0 <= source < 2 ==> (#[trigger] self.leads[source]).len() == self.first[source]
        &&& self.matched == self.seen_by_both().len()
        &&& self.first[0] + self.first[1] == self.matched
        &&& forall|source: int|
            0 <= source < 2 ==> (#[trigger] self.earlier_from(source)).len() <= self.first[source]
        &&& forall|source: int, gap: Nanos|
            0 <= source < 2 && gap > 0 ==> (#[trigger] self.earlier_by(source, gap)).len()
                == self.leads[source].to_multiset().count(gap)
    }
}

/// A set of reported transactions is not larger than the set of all of them.
proof fn lemma_part_of_all(tally: Tally, part: Set<Seq<u8>>)
    requires
        tally.observations.dom().finite(),
        part.subset_of(tally.observations.dom()),
    ensures
        part.finite(),
        part.len() <= tally.observations.dom().len(),
{
    vstd::set_lib::lemma_len_subset(part, tally.observations.dom());
}

/// Nothing reported is consistent.
pub proof fn lemma_empty_consistent()
    ensures
        Tally::empty().consistent(),
{
    broadcast use vstd::seq_lib::group_to_multiset_ensures;

    let tally = Tally::empty();
    assert(tally.seen_by(0) =~= Set::empty());
    assert(tally.seen_by(1) =~= Set::empty());
    assert(tally.seen_by_both() =~= Set::empty());
    assert(tally.earlier_from(0) =~= Set::empty());
    assert(tally.earlier_from(1) =~= Set::empty());
    assert forall|source: int, gap: Nanos| 0 <= source < 2 && gap > 0 implies (
    #[trigger] tally.earlier_by(source, gap)).len() == tally.leads[source].to_multiset().count(
        gap,
    ) by {
        assert(tally.earlier_by(source, gap) =~= Set::empty());
        assert(tally.leads[source].to_multiset().len() == 0);
    }
}

/// Every report leaves the numbers in agreement with the arrivals: each source's count is the
/// number of transactions that it has reported, the matched count is the number of those that both
/// have, every matched transaction was won by one of the two, a source wins each transaction that
/// came from it at an earlier time, and its leads, but for those of no time at all, are the times by
/// which these transactions were earlier, each as often as it occurred.
pub proof fn lemma_observed_consistent(tally: Tally, source: int, id: Seq<u8>, at: Nanos)
    requires
        tally.consistent(),
        0 <= source < 2,
    ensures
        tally.observed(source, id, at).consistent(),
{
    let arrivals = tally.arrivals(id);
    let after = tally.observed(source, id, at);
    if arrivals[source] is None {
        let other = 1 - source;
        assert(arrivals.len() == 2);
        lemma_part_of_all(tally, tally.seen_by(source));
        lemma_part_of_all(tally, tally.seen_by(other));
        lemma_part_of_all(tally, tally.seen_by_both());
        lemma_part_of_all(tally, tally.earlier_from(0));
        lemma_part_of_all(tally, tally.earlier_from(1));
        assert(after.seen_by(source) =~= tally.seen_by(source).insert(id));
        assert(after.seen_by(other) =~= tally.seen_by(other));
        assert(tally.leads[source].len() == tally.first[source]);
        assert(tally.leads[other].len() == tally.first[other]);
        assert(tally.unique[source] == tally.seen_by(source).len());
        assert(tally.unique[other] == tally.seen_by(other).len());
        match arrivals[other] {
            None => {
                assert(after.seen_by_both() =~= tally.seen_by_both());
                assert(after.earlier_from(0) =~= tally.earlier_from(0));
                assert(after.earlier_from(1) =~= tally.earlier_from(1));
            },
            Some(other_at) => {
                assert(after.seen_by_both() =~= tally.seen_by_both().insert(id));
                let first = winner(source, at, other_at);
                let second = 1 - first;
                assert(after.earlier_from(second) =~= tally.earlier_from(second));
                if at == other_at {
                    assert(after.earlier_from(first) =~= tally.earlier_from(first));
                } else {
                    assert(after.earlier_from(first) =~= tally.earlier_from(first).insert(id));
                }
            },
        }
        assert forall|s: int, gap: Nanos| 0 <= s < 2 && gap > 0 implies (
        #[trigger] after.earlier_by(s, gap)).len() == after.leads[s].to_multiset().count(gap) by {
            lemma_leads_counted(tally, source, id, at, s, gap);
        }
    }
}

proof fn lemma_leads_counted(
    tally: Tally,
    source: int,
    id: Seq<u8>,
    at: Nanos,
    leader: int,
    gap: Nanos,
)
    requires
        tally.consistent(),
        0 <= source < 2,
        tally.arrivals(id)[source] is None,
        0 <= leader < 2,
        gap > 0,
    ensures
        tally.observed(source, id, at).earlier_by(leader, gap).len() == tally.observed(
            source,
            id,
            at,
        ).leads[leader].to_multiset().count(gap),
{
    broadcast use vstd::seq_lib::group_to_multiset_ensures;

    let after = tally.observed(source, id, at);
    let known = tally.earlier_by(leader, gap);
    assert(tally.arrivals(id).len() == 2);
    assert(tally.leads[leader].len() == tally.first[leader]);
    lemma_part_of_all(tally, known);
    assert(!known.contains(id));
    match tally.arrivals(id)[1 - source] {
        Some(other_at) if winner(source, at, other_at) == leader && lead(at, other_at) == gap => {
            assert(after.earlier_by(leader, gap) =~= known.insert(id));
        },
        _ => {
            assert(after.earlier_by(leader, gap) =~= known);
        },
    }
}

/// The statistics of a benchmark.
pub struct Stats {
    /// When each transaction arrived from each source.
    pub observations: Observations,
    /// How many transactions each source has reported.
    pub unique: [u64; 2],
    /// How many of the matched transactions came first from each source.
    pub first: [u64; 2],
    /// By how much each source was ahead, each time that it was first.
    pub leads_ns: [Vec<Nanos>; 2],
    /// How many transactions both sources have reported.
    pub matched: u64,
}

impl View for Stats {
    type V = Tally;

    open spec fn view(&self) -> Tally {
        Tally {
            observations: self.observations@,
            unique: self.unique@.map_values(|count: u64| count as nat),
            first: self.first@.map_values(|count: u64| count as nat),
            leads: self.leads_ns@.map_values(|leads: Vec<Nanos>| leads@),
            matched: self.matched as nat,
        }
    }
}

impl Default for Stats {
    fn default() -> (stats: Stats)
        ensures
            stats.wf(),
            stats@ == Tally::empty(),
    {
        let stats = Stats {
            observations: Observations::new(),
            unique: [0, 0],
            first: [0, 0],
            leads_ns: [Vec::new(), Vec::new()],
            matched: 0,
        };
        proof {
            lemma_empty_consistent();
            assert(stats@ =~= Tally::empty());
            assert(stats@.leads =~= Tally::empty().leads);
        }
        stats
    }
}

impl Stats {
    /// Whether the numbers agree with the arrivals.
    pub open spec fn wf(&self) -> bool {
        &&& self.observations.wf()
        &&& self@.consistent()
    }

    /// Notes that a source has reported a transaction.
    pub fn observe(&mut self, source: usize, id: TransactionId, received_at: Nanos)
        requires
            old(self).wf(),
            source < 2,
        ensures
            final(self).wf(),
            final(self)@ == old(self)@.observed(source as int, id@, received_at),
    {
        let ghost before = self@;
        let ghost after = before.observed(source as int, id@, received_at);
        proof {
            lemma_observed_consistent(before, source as int, id@, received_at);
        }
        let place: usize = self.observations.place(id);
        let arrivals = self.observations.arrivals_at(place, Ghost(id@));
        assert(arrivals@ == before.arrivals(id@));
        if arrivals[source].is_some() {
            assert(self.observations@ =~= before.observations);
            return;
        }
        self.observations.note(place, source, received_at, Ghost(id@));
        assert(self.observations@ =~= after.observations);
        proof {
            self.observations.lemma_countable();
            lemma_part_of_all(after, after.seen_by(source as int));
            lemma_part_of_all(after, after.seen_by_both());
            assert(after.unique[source as int] == after.seen_by(source as int).len());
        }
        self.unique[source] = self.unique[source] + 1;
        let other: usize = 1 - source;
        if let Some(other_at) = arrivals[other] {
            self.matched = self.matched + 1;
            let first: usize;
            let ahead: Nanos;
            if received_at < other_at {
                first = source;
                ahead = other_at - received_at;
            } else {
                first = other;
                ahead = received_at - other_at;
            }
            self.first[first] = self.first[first] + 1;
            self.leads_ns[first].push(ahead);
        }
        assert(self@ =~~= after);
    }
}

/// Only the first arrival of a transaction from a source counts.
pub proof fn lemma_repeat_ignored(tally: Tally, source: int, id: Seq<u8>, at: Nanos, again: Nanos)
    requires
        tally.consistent(),
        0 <= source < 2,
    ensures
        tally.observed(source, id, at).observed(source, id, again) == tally.observed(
            source,
            id,
            at,
        ),
{
    assert(tally.arrivals(id).len() == 2);
}

/// It does not matter from which source the report of a transaction is handled first, if it came
/// from the two at different times: the source from which it came at the earlier time wins.
pub proof fn lemma_out_of_order(tally: Tally, id: Seq<u8>, at_0: Nanos, at_1: Nanos)
    requires
        tally.consistent(),
        !tally.observations.dom().contains(id),
        at_0 != at_1,
    ensures
        tally.observed(0, id, at_0).observed(1, id, at_1) == tally.observed(1, id, at_1).observed(
            0,
            id,
            at_0,
        ),
        ({
            let first: int = if at_0 < at_1 { 0 } else { 1 };
            let after = tally.observed(0, id, at_0).observed(1, id, at_1);
            &&& after.matched == tally.matched + 1
            &&& after.first[first] == tally.first[first] + 1
            &&& after.first[1 - first] == tally.first[1 - first]
            &&& after.leads[first] == tally.leads[first].push(lead(at_0, at_1))
            &&& after.leads[1 - first] == tally.leads[1 - first]
        }),
{
    let left = tally.observed(0, id, at_0).observed(1, id, at_1);
    let right = tally.observed(1, id, at_1).observed(0, id, at_0);
    assert(observations::unseen().update(0, Some(at_0)).update(1, Some(at_1))
        =~= observations::unseen().update(1, Some(at_1)).update(0, Some(at_0)));
    assert(left.observations =~= right.observations);
    assert(left =~~= right);
}

/// Whether the numbers of two tallies differ at most in the order of the leads.
pub open spec fn agree(left: Tally, right: Tally) -> bool {
    &&& left.unique == right.unique
    &&& left.first == right.first
    &&& left.matched == right.matched
    &&& left.leads.len() == right.leads.len()
    &&& forall|source: int|
        0 <= source < left.leads.len() ==> (#[trigger] left.leads[source]).to_multiset()
            == right.leads[source].to_multiset()
}

/// Whether two tallies differ at most in the order of the leads.
pub open spec fn alike(left: Tally, right: Tally) -> bool {
    left.observations == right.observations && agree(left, right)
}

/// Whether two reports can be handled in either order: they are of two transactions, or of one that
/// came from the two sources at different times.
pub open spec fn interchangeable(
    source_a: int,
    id_a: Seq<u8>,
    at_a: Nanos,
    source_b: int,
    id_b: Seq<u8>,
    at_b: Nanos,
) -> bool {
    id_a != id_b || (source_a != source_b && at_a != at_b)
}

/// It does not matter in which order two such reports are handled, but for the order of the leads.
pub proof fn lemma_reports_interchangeable(
    tally: Tally,
    source_a: int,
    id_a: Seq<u8>,
    at_a: Nanos,
    source_b: int,
    id_b: Seq<u8>,
    at_b: Nanos,
)
    requires
        tally.consistent(),
        0 <= source_a < 2,
        0 <= source_b < 2,
        interchangeable(source_a, id_a, at_a, source_b, id_b, at_b),
    ensures
        alike(
            tally.observed(source_a, id_a, at_a).observed(source_b, id_b, at_b),
            tally.observed(source_b, id_b, at_b).observed(source_a, id_a, at_a),
        ),
{
    broadcast use vstd::seq_lib::group_to_multiset_ensures;

    let after_a = tally.observed(source_a, id_a, at_a);
    let after_b = tally.observed(source_b, id_b, at_b);
    let left = after_a.observed(source_b, id_b, at_b);
    let right = after_b.observed(source_a, id_a, at_a);
    assert(tally.arrivals(id_a).len() == 2);
    assert(tally.arrivals(id_b).len() == 2);
    if id_a == id_b {
        assert(tally.arrivals(id_a).update(source_a, Some(at_a)).update(source_b, Some(at_b))
            =~= tally.arrivals(id_a).update(source_b, Some(at_b)).update(source_a, Some(at_a)));
    } else {
        assert(after_a.arrivals(id_b) == tally.arrivals(id_b));
        assert(after_b.arrivals(id_a) == tally.arrivals(id_a));
    }
    assert(left.observations =~= right.observations);
    assert(left.unique =~= right.unique);
    assert(left.first =~= right.first);
    assert forall|source: int| 0 <= source < left.leads.len() implies (
    #[trigger] left.leads[source]).to_multiset() == right.leads[source].to_multiset() by {
        assert(left.leads[source].to_multiset() =~= right.leads[source].to_multiset());
    }
}

/// Tallies that differ at most in the order of the leads still do so after a report.
pub proof fn lemma_alike_kept(left: Tally, right: Tally, source: int, id: Seq<u8>, at: Nanos)
    requires
        left.consistent(),
        right.consistent(),
        alike(left, right),
        0 <= source < 2,
    ensures
        alike(left.observed(source, id, at), right.observed(source, id, at)),
{
    broadcast use vstd::seq_lib::group_to_multiset_ensures;

    let left_after = left.observed(source, id, at);
    let right_after = right.observed(source, id, at);
    assert(left.leads[0].to_multiset() == right.leads[0].to_multiset());
    assert(left.leads[1].to_multiset() == right.leads[1].to_multiset());
    assert forall|s: int| 0 <= s < left_after.leads.len() implies (
    #[trigger] left_after.leads[s]).to_multiset() == right_after.leads[s].to_multiset() by {
        assert(left_after.leads[s].to_multiset() =~= right_after.leads[s].to_multiset());
    }
}

/// A source has reported at least the matched transactions, and the rest of what it has reported
/// only came from it.
pub proof fn lemma_only_from(tally: Tally, source: int)
    requires
        tally.consistent(),
        0 <= source < 2,
    ensures
        tally.matched <= tally.unique[source],
        tally.seen_by(source).difference(tally.seen_by(1 - source)).len() == tally.unique[source]
            - tally.matched,
{
    let seen = tally.seen_by(source);
    let both = tally.seen_by_both();
    let only = seen.difference(tally.seen_by(1 - source));
    lemma_part_of_all(tally, seen);
    lemma_part_of_all(tally, both);
    lemma_part_of_all(tally, only);
    assert(only + both =~= seen);
    assert(only.disjoint(both));
    vstd::set_lib::lemma_set_disjoint_lens(only, both);
}

/// A transaction that comes from a source before the other has reported it is noted for that source
/// and decides nothing yet.
pub proof fn lemma_first_arrival_is_noted(tally: Tally, source: int, id: Seq<u8>, at: Nanos)
    requires
        0 <= source < 2,
        tally.unique.len() == 2,
        !tally.observations.dom().contains(id),
    ensures
        ({
            let after = tally.observed(source, id, at);
            &&& after.observations.dom() == tally.observations.dom().insert(id)
            &&& after.observations[id].len() == 2
            &&& after.observations[id][source] == Some(at)
            &&& after.observations[id][1 - source] is None
            &&& forall|other: Seq<u8>| other != id ==> #[trigger] after.observations[other]
                == tally.observations[other]
            &&& after.unique.len() == 2
            &&& after.unique[source] == tally.unique[source] + 1
            &&& after.unique[1 - source] == tally.unique[1 - source]
            &&& after.first == tally.first
            &&& after.leads == tally.leads
            &&& after.matched == tally.matched
        }),
{
}

/// A transaction that comes from a source when the other has reported it is matched. The source
/// from which it came at the earlier time was first, by the whole time that passed between the two
/// arrivals; if no time passed, the source that reported it before was first, by nothing.
pub proof fn lemma_second_arrival_decides(
    tally: Tally,
    source: int,
    id: Seq<u8>,
    at: Nanos,
    other_at: Nanos,
)
    requires
        0 <= source < 2,
        tally.unique.len() == 2,
        tally.first.len() == 2,
        tally.leads.len() == 2,
        tally.observations.dom().contains(id),
        tally.observations[id].len() == 2,
        tally.observations[id][source] is None,
        tally.observations[id][1 - source] == Some(other_at),
    ensures
        ({
            let after = tally.observed(source, id, at);
            let other = 1 - source;
            &&& after.observations.dom() == tally.observations.dom()
            &&& after.observations[id].len() == 2
            &&& after.observations[id][source] == Some(at)
            &&& after.observations[id][other] == Some(other_at)
            &&& forall|x: Seq<u8>| x != id ==> #[trigger] after.observations[x]
                == tally.observations[x]
            &&& after.unique.len() == 2
            &&& after.unique[source] == tally.unique[source] + 1
            &&& after.unique[other] == tally.unique[other]
            &&& after.matched == tally.matched + 1
            &&& after.first.len() == 2
            &&& after.leads.len() == 2
            &&& at < other_at ==> {
                &&& after.first[source] == tally.first[source] + 1
                &&& after.first[other] == tally.first[other]
                &&& after.leads[source].len() == tally.leads[source].len() + 1
                &&& after.leads[source].drop_last() == tally.leads[source]
                &&& at + after.leads[source].last() == other_at
                &&& after.leads[other] == tally.leads[other]
            }
            &&& at >= other_at ==> {
                &&& after.first[other] == tally.first[other] + 1
                &&& after.first[source] == tally.first[source]
                &&& after.leads[other].len() == tally.leads[other].len() + 1
                &&& after.leads[other].drop_last() == tally.leads[other]
                &&& other_at + after.leads[other].last() == at
                &&& after.leads[source] == tally.leads[source]
            }
        }),
{
    let after = tally.observed(source, id, at);
    assert(after.observations.dom() =~= tally.observations.dom());
    if at < other_at {
        assert(after.leads[source].drop_last() =~= tally.leads[source]);
    } else {
        assert(after.leads[1 - source].drop_last() =~= tally.leads[1 - source]);
    }
}

/// A transaction that comes again from a source that has reported it changes nothing.
pub proof fn lemma_known_arrival_ignored(tally: Tally, source: int, id: Seq<u8>, at: Nanos)
    requires
        tally.observations.dom().contains(id),
        tally.observations[id][source] is Some,
    ensures
        tally.observed(source, id, at) == tally,
{
}

/// What statistics say is what they hold, number for number.
pub proof fn lemma_stats_are_plain(stats: Stats, source: int)
    requires
        0 <= source < 2,
    ensures
        stats@.observations == stats.observations@,
        stats@.unique[source] == stats.unique@[source],
        stats@.first[source] == stats.first@[source],
        stats@.leads[source] == stats.leads_ns@[source]@,
        stats@.matched == stats.matched,
{
}

} // verus!
