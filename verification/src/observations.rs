//! When each transaction arrived from each source.

use crate::clock::Nanos;
use std::collections::HashMap;
use vstd::prelude::*;

verus! {

/// What tells a transaction from all others: its first signature.
pub type TransactionId = [u8; 64];

/// The arrivals of a transaction, one from each source.
pub type Arrivals = [Option<Nanos>; 2];

/// The arrivals of a transaction that no source has reported.
pub open spec fn unseen() -> Seq<Option<Nanos>> {
    seq![None, None]
}

/// The arrivals recorded for a transaction.
pub open spec fn arrivals_of(
    observations: Map<Seq<u8>, Seq<Option<Nanos>>>,
    id: Seq<u8>,
) -> Seq<Option<Nanos>> {
    if observations.dom().contains(id) {
        observations[id]
    } else {
        unseen()
    }
}

/// A transaction and its arrivals.
struct Record {
    id: TransactionId,
    arrivals: Arrivals,
}

/// The arrivals of all transactions. The records stand in the order in which the transactions were
/// first seen; the index leads from the first eight bytes of an identifier to the records of the
/// transactions whose identifiers start with them.
pub struct Observations {
    records: Vec<Record>,
    index: HashMap<u64, Vec<usize>>,
}

/// The identifiers of the records.
spec fn ids(records: Seq<Record>) -> Seq<Seq<u8>> {
    Seq::new(records.len(), |i: int| records[i].id@)
}

/// The number that the first eight bytes of an identifier make.
spec fn prefix(id: Seq<u8>) -> u64 {
    (id[0] * 0x100_0000_0000_0000 + id[1] * 0x1_0000_0000_0000 + id[2] * 0x100_0000_0000 + id[3]
        * 0x1_0000_0000 + id[4] * 0x100_0000 + id[5] * 0x1_0000 + id[6] * 0x100 + id[7]) as u64
}

/// Whether every record can be found through the index.
spec fn indexed(records: Seq<Record>, index: Map<u64, Vec<usize>>) -> bool {
    &&& forall|i: int|
        #![trigger records[i]]
        0 <= i < records.len() ==> index.dom().contains(prefix(records[i].id@))
            && index[prefix(records[i].id@)]@.contains(i as usize)
    &&& forall|key: u64, j: int|
        index.dom().contains(key) && 0 <= j < index[key]@.len() ==> (#[trigger] index[key]@[j])
            < records.len()
}

impl View for Observations {
    type V = Map<Seq<u8>, Seq<Option<Nanos>>>;

    closed spec fn view(&self) -> Map<Seq<u8>, Seq<Option<Nanos>>> {
        let known = ids(self.records@);
        Map::new(
            |id: Seq<u8>| known.contains(id),
            |id: Seq<u8>| self.records@[known.index_of(id)].arrivals@,
        )
    }
}

proof fn lemma_position(known: Seq<Seq<u8>>, position: int)
    requires
        known.no_duplicates(),
        0 <= position < known.len(),
    ensures
        known.contains(known[position]),
        known.index_of(known[position]) == position,
{
    let found = known.index_of(known[position]);
    assert(0 <= found < known.len() && known[found] == known[position]);
}

/// Whether two identifiers are the same.
fn same_id(left: &TransactionId, right: &TransactionId) -> (same: bool)
    ensures
        same == (left@ == right@),
{
    let mut compared: usize = 0;
    while compared < 64
        invariant
            compared <= 64,
            forall|i: int| 0 <= i < compared ==> left@[i] == right@[i],
        decreases 64 - compared,
    {
        if left[compared] != right[compared] {
            return false;
        }
        compared += 1;
    }
    assert(left@ =~= right@);
    true
}

/// The number that the first eight bytes of an identifier make.
fn id_prefix(id: &TransactionId) -> (key: u64)
    ensures
        key == prefix(id@),
{
    id[0] as u64 * 0x100_0000_0000_0000 + id[1] as u64 * 0x1_0000_0000_0000 + id[2] as u64
        * 0x100_0000_0000 + id[3] as u64 * 0x1_0000_0000 + id[4] as u64 * 0x100_0000 + id[5] as u64
        * 0x1_0000 + id[6] as u64 * 0x100 + id[7] as u64
}

impl Observations {
    /// Whether each transaction has one record, which the index leads to.
    pub closed spec fn wf(&self) -> bool {
        &&& ids(self.records@).no_duplicates()
        &&& indexed(self.records@, self.index@)
    }

    /// Whether the record of the transaction stands at `place`.
    pub closed spec fn holds(&self, place: usize, id: Seq<u8>) -> bool {
        place < self.records.len() && self.records@[place as int].id@ == id
    }

    /// No arrivals at all.
    pub(crate) fn new() -> (observations: Observations)
        ensures
            observations.wf(),
            observations@ == Map::<Seq<u8>, Seq<Option<Nanos>>>::empty(),
    {
        broadcast use vstd::std_specs::hash::group_hash_axioms;

        let observations = Observations { records: Vec::new(), index: HashMap::new() };
        assert(observations@ =~= Map::<Seq<u8>, Seq<Option<Nanos>>>::empty());
        observations
    }

    /// No more transactions are recorded than a machine word can count.
    pub proof fn lemma_countable(&self)
        requires
            self.wf(),
        ensures
            self@.dom().finite(),
            self@.dom().len() <= usize::MAX,
    {
        let known = ids(self.records@);
        known.unique_seq_to_set();
        vstd::seq_lib::seq_to_set_is_finite(known);
        assert(self@.dom() =~= known.to_set());
        assert(known.len() == self.records.len());
    }

    /// The record of a transaction, if it has one.
    fn find(&self, id: &TransactionId) -> (place: Option<usize>)
        requires
            self.wf(),
        ensures
            match place {
                Some(place) => self.holds(place, id@) && self@.dom().contains(id@),
                None => !self@.dom().contains(id@),
            },
    {
        broadcast use vstd::std_specs::hash::group_hash_axioms;

        let ghost known = ids(self.records@);
        match self.index.get(&id_prefix(id)) {
            Some(places) => {
                let mut tried: usize = 0;
                while tried < places.len()
                    invariant
                        self.wf(),
                        known == ids(self.records@),
                        self.index@.dom().contains(prefix(id@)),
                        self.index@[prefix(id@)] == *places,
                        tried <= places.len(),
                        forall|j: int|
                            0 <= j < tried ==> self.records@[(#[trigger] places@[j]) as int].id@
                                != id@,
                    decreases places.len() - tried,
                {
                    let place: usize = places[tried];
                    assert(self.index@[prefix(id@)]@[tried as int] == place);
                    if same_id(&self.records[place].id, id) {
                        assert(known[place as int] == id@);
                        return Some(place);
                    }
                    tried += 1;
                }
                proof {
                    if known.contains(id@) {
                        let position = known.index_of(id@);
                        assert(position < self.records.len());
                        assert(self.records@[position].id@ == id@);
                        let j = places@.index_of(position as usize);
                        assert(places@[j] == position);
                    }
                }
                None
            },
            None => {
                proof {
                    if known.contains(id@) {
                        let position = known.index_of(id@);
                        assert(self.records@[position].id@ == id@);
                    }
                }
                None
            },
        }
    }

    /// Adds the record of a transaction that has none.
    fn add_unseen(&mut self, id: TransactionId) -> (place: usize)
        requires
            old(self).wf(),
            !old(self)@.dom().contains(id@),
        ensures
            final(self).wf(),
            final(self).holds(place, id@),
            final(self)@ == old(self)@.insert(id@, unseen()),
    {
        broadcast use vstd::std_specs::hash::group_hash_axioms;

        let place: usize = self.records.len();
        let key: u64 = id_prefix(&id);
        let ghost records_before = self.records@;
        let ghost index_before = self.index@;
        let mut places = match self.index.remove(&key) {
            Some(places) => places,
            None => Vec::new(),
        };
        let ghost places_before = places@;
        places.push(place);
        self.index.insert(key, places);
        self.records.push(Record { id, arrivals: [None, None] });
        proof {
            let before = ids(records_before);
            let after = ids(self.records@);
            assert(after =~= before.push(id@));
            assert(!before.contains(id@));
            assert(after.no_duplicates());
            assert forall|i: int| 0 <= i < self.records@.len() implies self.index@.dom().contains(
                prefix((#[trigger] self.records@[i]).id@),
            ) && self.index@[prefix(self.records@[i].id@)]@.contains(i as usize) by {
                if i < place {
                    assert(self.records@[i] == records_before[i]);
                    let k = prefix(records_before[i].id@);
                    assert(index_before[k]@.contains(i as usize));
                    if k == key {
                        let j = places_before.index_of(i as usize);
                        assert(places@[j] == i as usize);
                    }
                } else {
                    assert(places@[places@.len() - 1] == place);
                }
            }
            assert forall|k: u64, j: int|
                self.index@.dom().contains(k) && 0 <= j < self.index@[k]@.len() implies (
            #[trigger] self.index@[k]@[j]) < self.records@.len() by {
                if k == key {
                    if j < places_before.len() {
                        assert(places@[j] == places_before[j]);
                        assert(index_before[k]@[j] == places_before[j]);
                    }
                } else {
                    assert(index_before[k]@[j] == self.index@[k]@[j]);
                }
            }
            assert forall|x: Seq<u8>| before.contains(x) implies #[trigger] self@[x] == old(
                self,
            )@[x] by {
                let i = before.index_of(x);
                assert(before[i] == x && after[i] == x);
                lemma_position(before, i);
                lemma_position(after, i);
            }
            assert forall|x: Seq<u8>| after.contains(x) <==> (before.contains(x) || x == id@) by {
                if before.contains(x) {
                    assert(after[before.index_of(x)] == x);
                }
                assert(after[place as int] == id@);
            }
            lemma_position(after, place as int);
            assert(self.records@[place as int].arrivals@ =~= unseen());
            assert(self@ =~= old(self)@.insert(id@, unseen()));
        }
        place
    }

    /// The place of the record of a transaction, which is added if the transaction has none yet.
    pub(crate) fn place(&mut self, id: TransactionId) -> (place: usize)
        requires
            old(self).wf(),
        ensures
            final(self).wf(),
            final(self).holds(place, id@),
            final(self)@ == old(self)@.insert(id@, arrivals_of(old(self)@, id@)),
    {
        match self.find(&id) {
            Some(place) => {
                assert(self@ =~= old(self)@.insert(id@, arrivals_of(old(self)@, id@)));
                place
            },
            None => self.add_unseen(id),
        }
    }

    /// The arrivals in the record at `place`.
    pub(crate) fn arrivals_at(&self, place: usize, Ghost(id): Ghost<Seq<u8>>) -> (arrivals: Arrivals)
        requires
            self.wf(),
            self.holds(place, id),
        ensures
            self@.dom().contains(id),
            arrivals@ == self@[id],
    {
        proof {
            lemma_position(ids(self.records@), place as int);
        }
        self.records[place].arrivals
    }

    /// Notes in the record at `place` that the transaction arrived from `source`.
    pub(crate) fn note(&mut self, place: usize, source: usize, at: Nanos, Ghost(id): Ghost<Seq<u8>>)
        requires
            old(self).wf(),
            old(self).holds(place, id),
            source < 2,
        ensures
            final(self).wf(),
            final(self)@ == old(self)@.insert(id, old(self)@[id].update(source as int, Some(at))),
    {
        let mut arrivals = self.records[place].arrivals;
        arrivals[source] = Some(at);
        let ghost before = self.records@;
        let record = Record { id: self.records[place].id, arrivals };
        self.records.set(place, record);
        proof {
            let known = ids(before);
            assert(ids(self.records@) =~= known);
            assert forall|i: int| 0 <= i < self.records@.len() implies (
            #[trigger] self.records@[i]).id@ == before[i].id@ by {}
            assert(indexed(self.records@, self.index@));
            lemma_position(known, place as int);
            assert forall|x: Seq<u8>| known.contains(x) && x != id implies #[trigger] self@[x]
                == old(self)@[x] by {
                let i = known.index_of(x);
                assert(known[i] == x);
                assert(i != place);
            }
            assert(self@ =~= old(self)@.insert(id, old(self)@[id].update(source as int, Some(at))));
        }
    }
}

} // verus!
