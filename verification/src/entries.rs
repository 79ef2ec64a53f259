//! The ledger entries that a source sends, and the transactions in them.

use crate::observations::TransactionId;
use solana_transaction::versioned::VersionedTransaction;
use vstd::prelude::*;

verus! {

/// A transaction, as far as the benchmark looks at it.
pub struct Transaction {
    /// The signatures, the first of which tells the transaction from all others.
    pub signatures: Vec<TransactionId>,
}

/// A ledger entry, as far as the benchmark looks at it.
pub struct Entry {
    /// The transactions, in their order.
    pub transactions: Vec<Transaction>,
}

/// The signatures of a transaction.
pub open spec fn signatures_of(transaction: Transaction) -> Seq<Seq<u8>> {
    Seq::new(transaction.signatures@.len(), |i: int| transaction.signatures@[i]@)
}

/// The transactions of an entry, each one given by its signatures.
pub open spec fn transactions_of(entry: Entry) -> Seq<Seq<Seq<u8>>> {
    Seq::new(entry.transactions@.len(), |i: int| signatures_of(entry.transactions@[i]))
}

/// The entries, each one given by its transactions.
pub open spec fn entries_of(entries: Seq<Entry>) -> Seq<Seq<Seq<Seq<u8>>>> {
    Seq::new(entries.len(), |i: int| transactions_of(entries[i]))
}

/// The entries that `bincode::deserialize` reads from `bytes`, each one given by its transactions
/// and each transaction by its signatures; none if the bytes are not those of a list of entries.
pub uninterp spec fn decoded_entries(bytes: Seq<u8>) -> Option<Seq<Seq<Seq<Seq<u8>>>>>;

/// Whether `decoded` can be what comes of decoding `bytes`. The reason for a failure is left open.
pub open spec fn is_decoding(
    bytes: Seq<u8>,
    decoded: Result<Seq<Seq<Seq<Seq<u8>>>>, Seq<char>>,
) -> bool {
    match decoded {
        Ok(entries) => decoded_entries(bytes) == Some(entries),
        Err(_) => decoded_entries(bytes) is None,
    }
}

/// The result of a decoding.
pub open spec fn decoding_of(
    decoded: Result<Vec<Entry>, String>,
) -> Result<Seq<Seq<Seq<Seq<u8>>>>, Seq<char>> {
    match decoded {
        Ok(entries) => Ok(entries_of(entries@)),
        Err(reason) => Err(reason@),
    }
}

/// Calls `bincode::deserialize` on the bytes of a list of entries, each one a number of hashes, a
/// hash and a list of transactions, and takes the signatures of the transactions out of what it
/// reads. What it reads depends on the bytes alone, and so does whether it fails; nothing is claimed
/// of the words in which a failure is reported, some of which depend on the machine.
#[verifier::external_body]
pub(crate) fn decode_entries(bytes: &[u8]) -> (decoded: Result<Vec<Entry>, String>)
    ensures
        match decoded {
            Ok(entries) => decoded_entries(bytes@) == Some(entries_of(entries@)),
            Err(_) => decoded_entries(bytes@) is None,
        },
{
    bincode::deserialize(bytes).map_err(|error: bincode::Error| error.to_string()).map(
        |list: Vec<(u64, solana_hash::Hash, Vec<VersionedTransaction>)>|
            list.into_iter().map(|entry| Entry {
                transactions: entry.2.into_iter().map(|transaction| Transaction {
                    signatures: transaction.signatures.into_iter().map(|s| s.into()).collect(),
                }).collect(),
            }).collect(),
    )
}

/// Whether decoding `bytes` can have come to `decoded`, down to the words of a failure.
pub closed spec fn came_of(bytes: Seq<u8>, decoded: Result<Vec<Entry>, String>) -> bool {
    exists|slice: &[u8]|
        slice@ == bytes && #[trigger] call_ensures(decode_entries, (slice,), decoded)
}

/// What decoding came to, it came to for the bytes that were decoded.
pub(crate) proof fn lemma_came_of(slice: &[u8], decoded: Result<Vec<Entry>, String>)
    requires
        call_ensures(decode_entries, (slice,), decoded),
    ensures
        came_of(slice@, decoded),
{
}

/// The entries that decoding comes to depend on the bytes alone, and so does whether it fails.
pub proof fn lemma_decoding_is_fixed(bytes: Seq<u8>, decoded: Result<Vec<Entry>, String>)
    requires
        came_of(bytes, decoded),
    ensures
        is_decoding(bytes, decoding_of(decoded)),
{
}

/// The first signature of a transaction, if it has one.
pub open spec fn first_signature(signatures: Seq<Seq<u8>>) -> Option<Seq<u8>> {
    if signatures.len() > 0 {
        Some(signatures[0])
    } else {
        None
    }
}

/// The identifiers of the transactions: their first signatures. A transaction without signatures
/// has none.
pub open spec fn ids_of_transactions(transactions: Seq<Seq<Seq<u8>>>) -> Seq<Seq<u8>> {
    transactions.filter_map(|signatures: Seq<Seq<u8>>| first_signature(signatures))
}

/// The identifiers of all transactions of the entries, in their order.
pub open spec fn ids_of_entries(entries: Seq<Seq<Seq<Seq<u8>>>>) -> Seq<Seq<u8>> {
    entries.flat_map(|transactions: Seq<Seq<Seq<u8>>>| ids_of_transactions(transactions))
}

/// The identifiers, as sequences of bytes.
pub open spec fn id_bytes(ids: Seq<TransactionId>) -> Seq<Seq<u8>> {
    Seq::new(ids.len(), |i: int| ids[i]@)
}

/// Appends the identifiers of the transactions to `ids`.
fn push_transaction_ids(transactions: &Vec<Transaction>, ids: &mut Vec<TransactionId>)
    ensures
        id_bytes(final(ids)@) == id_bytes(old(ids)@) + ids_of_transactions(
            Seq::new(transactions@.len(), |i: int| signatures_of(transactions@[i])),
        ),
{
    let ghost all = Seq::new(transactions@.len(), |i: int| signatures_of(transactions@[i]));
    let mut seen: usize = 0;
    assert(id_bytes(ids@) =~= id_bytes(old(ids)@) + ids_of_transactions(all.take(0)));
    while seen < transactions.len()
        invariant
            all == Seq::new(transactions@.len(), |i: int| signatures_of(transactions@[i])),
            seen <= transactions.len(),
            id_bytes(ids@) == id_bytes(old(ids)@) + ids_of_transactions(all.take(seen as int)),
        decreases transactions.len() - seen,
    {
        let signatures = &transactions[seen].signatures;
        let ghost before = ids@;
        proof {
            all.lemma_filter_map_take_succ(
                |signatures: Seq<Seq<u8>>| first_signature(signatures),
                seen as int,
            );
            assert(all[seen as int].len() == signatures@.len());
        }
        if signatures.len() > 0 {
            ids.push(signatures[0]);
            assert(id_bytes(ids@) =~= id_bytes(before).push(signatures@[0]@));
            assert(all[seen as int][0] == signatures@[0]@);
        }
        seen += 1;
        assert(id_bytes(ids@) =~= id_bytes(old(ids)@) + ids_of_transactions(
            all.take(seen as int),
        ));
    }
    assert(all.take(seen as int) =~= all);
}

/// The identifiers of all transactions of the entries, in their order.
pub fn transaction_ids(entries: &Vec<Entry>) -> (ids: Vec<TransactionId>)
    ensures
        id_bytes(ids@) == ids_of_entries(entries_of(entries@)),
{
    let ghost all = entries_of(entries@);
    let mut ids: Vec<TransactionId> = Vec::new();
    let mut seen: usize = 0;
    assert(id_bytes(ids@) =~= ids_of_entries(all.take(0)));
    while seen < entries.len()
        invariant
            all == entries_of(entries@),
            seen <= entries.len(),
            id_bytes(ids@) == ids_of_entries(all.take(seen as int)),
        decreases entries.len() - seen,
    {
        push_transaction_ids(&entries[seen].transactions, &mut ids);
        proof {
            all.lemma_flat_map_take_append(
                |transactions: Seq<Seq<Seq<u8>>>| ids_of_transactions(transactions),
                seen as int,
            );
            assert(all[seen as int] == transactions_of(entries@[seen as int]));
        }
        seen += 1;
    }
    assert(all.take(seen as int) =~= all);
    ids
}

/// Identifiers are taken entry by entry and transaction by transaction, in their order: the first
/// signature of each transaction that has one, and nothing of one that has none.
pub proof fn lemma_ids_one_by_one(
    entries: Seq<Seq<Seq<Seq<u8>>>>,
    transactions: Seq<Seq<Seq<u8>>>,
    signatures: Seq<Seq<u8>>,
)
    ensures
        ids_of_entries(Seq::empty()) == Seq::<Seq<u8>>::empty(),
        ids_of_entries(entries.push(transactions)) == ids_of_entries(entries)
            + ids_of_transactions(transactions),
        ids_of_transactions(Seq::empty()) == Seq::<Seq<u8>>::empty(),
        signatures.len() > 0 ==> ids_of_transactions(transactions.push(signatures))
            == ids_of_transactions(transactions).push(signatures[0]),
        signatures.len() == 0 ==> ids_of_transactions(transactions.push(signatures))
            == ids_of_transactions(transactions),
{
    let take = |transactions: Seq<Seq<Seq<u8>>>| ids_of_transactions(transactions);
    assert(Seq::<Seq<Seq<Seq<u8>>>>::empty().flat_map(take) =~= Seq::empty());
    entries.lemma_flat_map_push(take, transactions);
    assert(transactions.push(signatures).drop_last() =~= transactions);
    assert(ids_of_transactions(transactions) + seq![signatures[0]] =~= ids_of_transactions(
        transactions,
    ).push(signatures[0]));
}

/// Entries say what they hold, signature for signature.
pub proof fn lemma_entries_are_plain(entries: Seq<Entry>, entry: int, transaction: int, place: int)
    requires
        0 <= entry < entries.len(),
        0 <= transaction < entries[entry].transactions@.len(),
        0 <= place < entries[entry].transactions@[transaction].signatures@.len(),
    ensures
        entries_of(entries).len() == entries.len(),
        entries_of(entries)[entry].len() == entries[entry].transactions@.len(),
        entries_of(entries)[entry][transaction].len()
            == entries[entry].transactions@[transaction].signatures@.len(),
        entries_of(entries)[entry][transaction][place]
            == entries[entry].transactions@[transaction].signatures@[place]@,
{
}

/// Transactions without signatures, entries without transactions and lists without entries stay
/// such.
pub proof fn lemma_empty_entries_are_plain(entries: Seq<Entry>, entry: Entry, transaction: Transaction)
    ensures
        entries_of(entries).len() == entries.len(),
        transactions_of(entry).len() == entry.transactions@.len(),
        signatures_of(transaction).len() == transaction.signatures@.len(),
{
}

/// What decoding comes to is taken as it is.
pub proof fn lemma_decoding_is_plain(decoded: Result<Vec<Entry>, String>, bytes: Seq<u8>)
    ensures
        decoded matches Ok(entries) ==> decoding_of(decoded) == Ok::<
            Seq<Seq<Seq<Seq<u8>>>>,
            Seq<char>,
        >(entries_of(entries@)),
        decoded matches Err(reason) ==> decoding_of(decoded) == Err::<
            Seq<Seq<Seq<Seq<u8>>>>,
            Seq<char>,
        >(reason@),
        is_decoding(bytes, decoding_of(decoded)) <==> match decoded {
            Ok(entries) => decoded_entries(bytes) == Some(entries_of(entries@)),
            Err(_) => decoded_entries(bytes) is None,
        },
{
}

/// Identifiers are the bytes that they hold, one for one.
pub proof fn lemma_ids_are_plain(ids: Seq<TransactionId>)
    ensures
        id_bytes(ids).len() == ids.len(),
        forall|i: int| 0 <= i < ids.len() ==> #[trigger] id_bytes(ids)[i] == ids[i]@,
{
}

} // verus!
