//! What the cache holds, as maps and sets, and how watching a script and
//! caching a transaction change it.

use crate::accumulator::AccumulatorState;
use crate::chain::{
    is_id_of, is_merkle_block, lemma_txid_text_injective, lemma_txid_text_round_trip,
    merkle_block_hashes, merkle_block_of, script_hash_of, txid_from_text, txid_text, Block,
    TransactionView, TxOutView,
};
use crate::hex;
use crate::keyed::{distinct_keys, has_key, lemma_entry, lemma_keys, lemma_prepend, to_map};
use crate::error::Error;
use crate::record::{
    decoded_address, encoded_address, lemma_address_round_trip, valid_address, valid_transaction,
    AddressRecord, TransactionRecord,
};
use vstd::prelude::*;

verus! {

/// The contents of the cache.
#[verifier::ext_equal]
pub struct CacheState {
    /// Every watched address, under its script hash.
    pub addresses: Map<Seq<u8>, AddressRecord>,
    /// The watched scripts.
    pub scripts: Set<Seq<u8>>,
    /// For a transaction id, the script hash of an address that holds the
    /// transaction, and where in that address's history it stands.
    pub index: Map<Seq<u8>, (Seq<u8>, nat)>,
    /// The accumulator after the last block applied.
    pub accumulator: AccumulatorState,
}

/// The transaction id that a cached transaction carries.
pub open spec fn record_txid(record: TransactionRecord) -> Option<Seq<u8>> {
    txid_from_text(record.hash)
}

/// Whether the index entry of `txid` points at a cached transaction with that id.
pub open spec fn entry_is_sound(s: CacheState, txid: Seq<u8>) -> bool {
    let (hash, position) = s.index[txid];
    &&& s.addresses.contains_key(hash)
    &&& position < s.addresses[hash].transactions.len()
    &&& record_txid(s.addresses[hash].transactions[position as int]) == Some(txid)
}

/// Whether some watched address has the script `script`.
pub open spec fn is_watched(s: CacheState, script: Seq<u8>) -> bool {
    exists|hash: Seq<u8>| #[trigger]
        s.addresses.contains_key(hash) && s.addresses[hash].script == script
}

/// Whether the three indices agree: every address stands under its own
/// script hash, every index entry points at a cached transaction with that
/// id, and the watched scripts are those of the addresses.
pub open spec fn consistent(s: CacheState) -> bool {
    &&& forall|hash: Seq<u8>| #[trigger]
        s.addresses.contains_key(hash) ==> s.addresses[hash].script_hash == hash
    &&& forall|txid: Seq<u8>| #[trigger] s.index.contains_key(txid) ==> entry_is_sound(s, txid)
    &&& forall|script: Seq<u8>| #[trigger] s.scripts.contains(script) <==> is_watched(s, script)
}

/// An address that was just begun to be watched.
pub open spec fn new_address(script: Seq<u8>, transactions: Seq<TransactionRecord>) -> AddressRecord {
    AddressRecord { script_hash: script_hash_of(script), balance: 0, transactions, script }
}

/// The cache after `script` is watched: unchanged where its hash is watched
/// already, else with a new address without history.
pub open spec fn watched(s: CacheState, script: Seq<u8>) -> CacheState {
    let hash = script_hash_of(script);
    if s.addresses.contains_key(hash) {
        s
    } else {
        CacheState {
            addresses: s.addresses.insert(hash, new_address(script, Seq::empty())),
            scripts: s.scripts.insert(script),
            ..s
        }
    }
}

/// The record under which a transaction found in a block is cached.
pub open spec fn transaction_record(
    transaction: TransactionView,
    height: u32,
    merkle_block: Seq<u8>,
    position: u32,
) -> TransactionRecord {
    TransactionRecord {
        tx_hex: hex::encoded(transaction.raw),
        height,
        merkle_block: Some(merkle_block),
        hash: txid_text(transaction.txid),
        position,
    }
}

/// The cache after the transaction `record` with id `txid` is cached for `script`.
///
/// Where the script's hash is not watched, a new address with this one
/// transaction is added, and the index is left alone. Where it is watched
/// and holds an equal record, nothing changes. Else the record is added at
/// the end of the address's history, and the index entry of `txid` points at it.
pub open spec fn cached(
    s: CacheState,
    record: TransactionRecord,
    txid: Seq<u8>,
    script: Seq<u8>,
) -> CacheState {
    let hash = script_hash_of(script);
    if !s.addresses.contains_key(hash) {
        CacheState {
            addresses: s.addresses.insert(hash, new_address(script, seq![record])),
            scripts: s.scripts.insert(script),
            ..s
        }
    } else if s.addresses[hash].transactions.contains(record) {
        s
    } else {
        let address = s.addresses[hash];
        CacheState {
            addresses: s.addresses.insert(
                hash,
                AddressRecord { transactions: address.transactions.push(record), ..address },
            ),
            index: s.index.insert(txid, (hash, address.transactions.len())),
            ..s
        }
    }
}

/// The history of the address under `hash`: empty where it is not watched.
pub open spec fn history(s: CacheState, hash: Seq<u8>) -> Seq<TransactionRecord> {
    if s.addresses.contains_key(hash) {
        s.addresses[hash].transactions
    } else {
        Seq::empty()
    }
}

/// Watching a script keeps the indices in agreement.
pub proof fn lemma_watched_is_consistent(s: CacheState, script: Seq<u8>)
    requires
        consistent(s),
    ensures
        consistent(watched(s, script)),
{
    let hash = script_hash_of(script);
    let after = watched(s, script);
    if !s.addresses.contains_key(hash) {
        lemma_scripts_follow(s, after, hash, script);
        assert forall|txid: Seq<u8>| #[trigger] after.index.contains_key(txid) implies entry_is_sound(
            after,
            txid,
        ) by {
            assert(entry_is_sound(s, txid));
        }
    }
}

/// Caching a transaction under the text of its own id keeps the indices in
/// agreement: every index entry still points at a cached transaction with
/// that id.
pub proof fn lemma_cached_is_consistent(
    s: CacheState,
    record: TransactionRecord,
    txid: Seq<u8>,
    script: Seq<u8>,
)
    requires
        consistent(s),
        record_txid(record) == Some(txid),
    ensures
        consistent(cached(s, record, txid, script)),
{
    let hash = script_hash_of(script);
    let after = cached(s, record, txid, script);
    if !s.addresses.contains_key(hash) {
        lemma_scripts_follow(s, after, hash, script);
        assert forall|t: Seq<u8>| #[trigger] after.index.contains_key(t) implies entry_is_sound(
            after,
            t,
        ) by {
            assert(entry_is_sound(s, t));
        }
    } else if !s.addresses[hash].transactions.contains(record) {
        let address = s.addresses[hash];
        assert forall|t: Seq<u8>| #[trigger] after.index.contains_key(t) implies entry_is_sound(
            after,
            t,
        ) by {
            if t != txid {
                assert(entry_is_sound(s, t));
            }
        }
        assert forall|other: Seq<u8>| #[trigger] after.scripts.contains(other) <==> is_watched(
            after,
            other,
        ) by {
            if is_watched(s, other) {
                let h = choose|h: Seq<u8>| #[trigger]
                    s.addresses.contains_key(h) && s.addresses[h].script == other;
                assert(after.addresses.contains_key(h) && after.addresses[h].script == other);
            }
            if is_watched(after, other) {
                let h = choose|h: Seq<u8>| #[trigger]
                    after.addresses.contains_key(h) && after.addresses[h].script == other;
                assert(s.addresses.contains_key(h) && s.addresses[h].script == other);
            }
        }
    }
}

/// Adding an address for `script` under a hash that was not watched adds
/// exactly `script` to the scripts that are watched.
proof fn lemma_scripts_follow(s: CacheState, after: CacheState, hash: Seq<u8>, script: Seq<u8>)
    requires
        consistent(s),
        !s.addresses.contains_key(hash),
        after.addresses.dom() == s.addresses.dom().insert(hash),
        after.addresses[hash].script == script,
        forall|h: Seq<u8>| #[trigger]
            s.addresses.contains_key(h) ==> after.addresses[h] == s.addresses[h],
        after.scripts == s.scripts.insert(script),
    ensures
        forall|other: Seq<u8>| #[trigger] after.scripts.contains(other) <==> is_watched(after, other),
{
    assert forall|other: Seq<u8>| #[trigger] after.scripts.contains(other) <==> is_watched(
        after,
        other,
    ) by {
        if other == script {
            assert(after.addresses.contains_key(hash) && after.addresses[hash].script == other);
        }
        if is_watched(s, other) {
            let h = choose|h: Seq<u8>| #[trigger]
                s.addresses.contains_key(h) && s.addresses[h].script == other;
            assert(after.addresses.contains_key(h) && after.addresses[h].script == other);
        }
        if is_watched(after, other) && other != script {
            let h = choose|h: Seq<u8>| #[trigger]
                after.addresses.contains_key(h) && after.addresses[h].script == other;
            assert(s.addresses.contains_key(h) && s.addresses[h].script == other);
        }
    }
}

/// Caching the same transaction for the same script a second time changes
/// nothing: the address's history is as long as after the first time.
pub proof fn lemma_cached_twice(
    s: CacheState,
    record: TransactionRecord,
    txid: Seq<u8>,
    script: Seq<u8>,
)
    ensures
        cached(cached(s, record, txid, script), record, txid, script) == cached(
            s,
            record,
            txid,
            script,
        ),
        history(cached(cached(s, record, txid, script), record, txid, script), script_hash_of(script)).len()
            == history(cached(s, record, txid, script), script_hash_of(script)).len(),
{
    let hash = script_hash_of(script);
    let once = cached(s, record, txid, script);
    assert(once.addresses.contains_key(hash));
    if !s.addresses.contains_key(hash) {
        assert(seq![record][0] == record);
    } else if !s.addresses[hash].transactions.contains(record) {
        let before = s.addresses[hash].transactions;
        assert(before.push(record)[before.len() as int] == record);
    }
    assert(once.addresses[hash].transactions.contains(record));
}

/// Caching a transaction for a script whose hash is not watched begins to
/// watch it: the addresses gain exactly that hash, with a history of this one
/// transaction, and the scripts gain the script. Where the script was not
/// among the watched scripts, both grow by exactly one.
pub proof fn lemma_cached_subscribes(
    s: CacheState,
    record: TransactionRecord,
    txid: Seq<u8>,
    script: Seq<u8>,
)
    requires
        !s.addresses.contains_key(script_hash_of(script)),
        s.addresses.dom().finite(),
        s.scripts.finite(),
    ensures
        ({
            let after = cached(s, record, txid, script);
            let hash = script_hash_of(script);
            &&& after.addresses.dom() == s.addresses.dom().insert(hash)
            &&& after.addresses.dom().len() == s.addresses.dom().len() + 1
            &&& forall|h: Seq<u8>| #[trigger]
                s.addresses.contains_key(h) ==> after.addresses[h] == s.addresses[h]
            &&& after.addresses[hash].script == script
            &&& after.addresses[hash].transactions == seq![record]
            &&& history(after, hash).len() == 1
            &&& after.scripts == s.scripts.insert(script)
            &&& !s.scripts.contains(script) ==> after.scripts.len() == s.scripts.len() + 1
            &&& after.index == s.index
        }),
{
}

/// The text of a 32-byte transaction id names that id, so a transaction
/// cached from a block carries its own id.
pub proof fn lemma_transaction_record_txid(
    transaction: TransactionView,
    height: u32,
    merkle_block: Seq<u8>,
    position: u32,
)
    requires
        transaction.txid.len() == 32,
    ensures
        record_txid(transaction_record(transaction, height, merkle_block, position)) == Some(
            transaction.txid,
        ),
{
    lemma_txid_text_round_trip(transaction.txid);
}

/// The addresses, each under its script hash.
pub open spec fn keyed_addresses(addresses: Seq<AddressRecord>) -> Seq<(Seq<u8>, AddressRecord)> {
    addresses.map_values(|a: AddressRecord| (a.script_hash, a))
}

/// The scripts of the addresses.
pub open spec fn scripts_of(addresses: Seq<AddressRecord>) -> Seq<Seq<u8>> {
    addresses.map_values(|a: AddressRecord| a.script)
}

/// Whether every transaction carries the text of a transaction id.
pub open spec fn ids_readable(transactions: Seq<TransactionRecord>) -> bool {
    forall|i: int| 0 <= i < transactions.len() ==> record_txid(#[trigger] transactions[i]) is Some
}

/// Whether every address that the cache holds is one that reading a record
/// can give.
pub open spec fn valid_state(s: CacheState) -> bool {
    forall|hash: Seq<u8>| #[trigger]
        s.addresses.contains_key(hash) ==> valid_address(s.addresses[hash])
}

/// Whether every one of the addresses is one that reading a record can give.
pub open spec fn readable(addresses: Seq<AddressRecord>) -> bool {
    forall|i: int| 0 <= i < addresses.len() ==> valid_address(#[trigger] addresses[i])
}

/// Whether one of the addresses has the script hash `hash`.
pub open spec fn has_hash(addresses: Seq<AddressRecord>, hash: Seq<u8>) -> bool {
    exists|i: int| 0 <= i < addresses.len() && (#[trigger] addresses[i]).script_hash == hash
}

/// The addresses from the one at `from` on, in order, without those whose
/// script hash a later one has: of two addresses with one script hash the
/// later one stays.
pub open spec fn surviving_from(addresses: Seq<AddressRecord>, from: int) -> Seq<AddressRecord>
    decreases addresses.len() - from,
{
    if from < 0 || from >= addresses.len() {
        Seq::empty()
    } else {
        let later = surviving_from(addresses, from + 1);
        if has_hash(later, addresses[from].script_hash) {
            later
        } else {
            seq![addresses[from]] + later
        }
    }
}

/// The addresses, in order, without those that a later one replaces.
pub open spec fn surviving(addresses: Seq<AddressRecord>) -> Seq<AddressRecord> {
    surviving_from(addresses, 0)
}

/// Where no two addresses have the same script hash, all of them stay.
pub proof fn lemma_distinct_survive(addresses: Seq<AddressRecord>, from: int)
    requires
        distinct_keys(keyed_addresses(addresses)),
        0 <= from <= addresses.len(),
    ensures
        surviving_from(addresses, from) == addresses.skip(from),
    decreases addresses.len() - from,
{
    if from < addresses.len() {
        lemma_distinct_survive(addresses, from + 1);
        let later = addresses.skip(from + 1);
        let keyed = keyed_addresses(addresses);
        if has_hash(later, addresses[from].script_hash) {
            let i = choose|i: int|
                0 <= i < later.len() && (#[trigger] later[i]).script_hash
                    == addresses[from].script_hash;
            assert(keyed[from].0 == keyed[from + 1 + i].0);
        }
        assert(seq![addresses[from]] + later =~= addresses.skip(from));
    } else {
        assert(addresses.skip(from) =~= Seq::<AddressRecord>::empty());
    }
}

/// The addresses that stay stand under their script hashes as all of them
/// do where a later one counts for an earlier one with the same hash.
pub proof fn lemma_surviving_map(addresses: Seq<AddressRecord>, from: int)
    requires
        0 <= from <= addresses.len(),
    ensures
        to_map(keyed_addresses(surviving_from(addresses, from))) == to_map(
            keyed_addresses(addresses.skip(from)),
        ),
    decreases addresses.len() - from,
{
    if from < addresses.len() {
        lemma_surviving_map(addresses, from + 1);
        let first = addresses[from];
        let later = surviving_from(addresses, from + 1);
        let rest = addresses.skip(from + 1);
        lemma_keys(keyed_addresses(later));
        lemma_keys(keyed_addresses(rest));
        lemma_prepend(first.script_hash, first, keyed_addresses(rest));
        lemma_prepend(first.script_hash, first, keyed_addresses(later));
        assert(keyed_addresses(addresses.skip(from)) =~= seq![(first.script_hash, first)]
            + keyed_addresses(rest));
        assert(keyed_addresses(seq![first] + later) =~= seq![(first.script_hash, first)]
            + keyed_addresses(later));
        if has_hash(later, first.script_hash) {
            let i = choose|i: int|
                0 <= i < later.len() && (#[trigger] later[i]).script_hash == first.script_hash;
            assert(keyed_addresses(later)[i].0 == first.script_hash);
            assert(has_key(keyed_addresses(later), first.script_hash));
        } else {
            if has_key(keyed_addresses(later), first.script_hash) {
                let i = choose|i: int|
                    0 <= i < keyed_addresses(later).len() && (#[trigger] keyed_addresses(
                        later,
                    )[i]).0 == first.script_hash;
                assert(later[i].script_hash == first.script_hash);
            }
        }
    } else {
        assert(addresses.skip(from) =~= Seq::<AddressRecord>::empty());
    }
}

/// Whether a cache can be built of the addresses as they are: no two of them
/// have the same script hash, and each is one that reading a record can give.
pub open spec fn loadable(addresses: Seq<AddressRecord>) -> bool {
    &&& distinct_keys(keyed_addresses(addresses))
    &&& forall|i: int| 0 <= i < addresses.len() ==> valid_address(#[trigger] addresses[i])
}

/// A valid transaction carries the text of its id.
pub proof fn lemma_valid_is_readable(t: TransactionRecord)
    requires
        valid_transaction(t),
    ensures
        record_txid(t) == Some(transaction_id_of(t)),
{
    lemma_txid_text_round_trip(transaction_id_of(t));
}

/// The id of the transaction that a record holds.
pub open spec fn transaction_id_of(t: TransactionRecord) -> Seq<u8> {
    crate::chain::transaction_id(hex::decoded(t.tx_hex)->0)->0
}

/// Every transaction of a valid address carries the text of an id.
pub proof fn lemma_valid_ids_readable(address: AddressRecord)
    requires
        valid_address(address),
    ensures
        ids_readable(address.transactions),
{
    assert forall|i: int| 0 <= i < address.transactions.len() implies record_txid(
        #[trigger] address.transactions[i],
    ) is Some by {
        lemma_valid_is_readable(address.transactions[i]);
    }
}

/// `index` with every one of the transactions indexed under `hash`, in order.
pub open spec fn with_transactions(
    index: Map<Seq<u8>, (Seq<u8>, nat)>,
    hash: Seq<u8>,
    transactions: Seq<TransactionRecord>,
) -> Map<Seq<u8>, (Seq<u8>, nat)>
    decreases transactions.len(),
{
    if transactions.len() == 0 {
        index
    } else {
        with_transactions(index, hash, transactions.drop_last()).insert(
            record_txid(transactions.last())->0,
            (hash, (transactions.len() - 1) as nat),
        )
    }
}

/// The index of the transactions of the addresses: of two transactions with
/// one id, the later one is indexed.
pub open spec fn index_of(addresses: Seq<AddressRecord>) -> Map<Seq<u8>, (Seq<u8>, nat)>
    decreases addresses.len(),
{
    if addresses.len() == 0 {
        Map::empty()
    } else {
        with_transactions(
            index_of(addresses.drop_last()),
            addresses.last().script_hash,
            addresses.last().transactions,
        )
    }
}

/// The cache built of the addresses and the accumulator.
pub open spec fn loaded(addresses: Seq<AddressRecord>, accumulator: AccumulatorState) -> CacheState {
    CacheState {
        addresses: to_map(keyed_addresses(addresses)),
        scripts: scripts_of(addresses).to_set(),
        index: index_of(addresses),
        accumulator,
    }
}

/// Whether every entry of `index` points at a transaction with that id in
/// one of the addresses.
pub open spec fn points_into(
    index: Map<Seq<u8>, (Seq<u8>, nat)>,
    addresses: Seq<AddressRecord>,
) -> bool {
    forall|txid: Seq<u8>| #[trigger]
        index.contains_key(txid) ==> exists|i: int|
            0 <= i < addresses.len() && points_at(index[txid], #[trigger] addresses[i], txid)
}

/// Whether `entry` points at a transaction with the id `txid` in `address`.
pub open spec fn points_at(entry: (Seq<u8>, nat), address: AddressRecord, txid: Seq<u8>) -> bool {
    &&& entry.0 == address.script_hash
    &&& entry.1 < address.transactions.len()
    &&& record_txid(address.transactions[entry.1 as int]) == Some(txid)
}

/// Indexing the first `n` transactions of one of the addresses keeps every
/// entry pointing into the addresses.
proof fn lemma_with_transactions_points(
    index: Map<Seq<u8>, (Seq<u8>, nat)>,
    addresses: Seq<AddressRecord>,
    k: int,
    n: int,
)
    requires
        points_into(index, addresses),
        0 <= k < addresses.len(),
        0 <= n <= addresses[k].transactions.len(),
        ids_readable(addresses[k].transactions),
    ensures
        points_into(
            with_transactions(index, addresses[k].script_hash, addresses[k].transactions.take(n)),
            addresses,
        ),
    decreases n,
{
    let transactions = addresses[k].transactions;
    if n > 0 {
        lemma_with_transactions_points(index, addresses, k, n - 1);
        assert(transactions.take(n).drop_last() =~= transactions.take(n - 1));
        let before = with_transactions(index, addresses[k].script_hash, transactions.take(n - 1));
        let after = with_transactions(index, addresses[k].script_hash, transactions.take(n));
        let id = record_txid(transactions[n - 1])->0;
        assert(transactions.take(n).last() == transactions[n - 1]);
        assert(after == before.insert(id, (addresses[k].script_hash, (n - 1) as nat)));
        assert forall|txid: Seq<u8>| #[trigger] after.contains_key(txid) implies exists|i: int|
            0 <= i < addresses.len() && points_at(after[txid], #[trigger] addresses[i], txid) by {
            if txid == id {
                assert(points_at(after[txid], addresses[k], txid));
            } else {
                assert(before.contains_key(txid));
            }
        }
    } else {
        assert(transactions.take(0) =~= Seq::<TransactionRecord>::empty());
    }
}

/// Every entry of the index of the first `n` addresses points into the addresses.
proof fn lemma_index_points(addresses: Seq<AddressRecord>, n: int)
    requires
        0 <= n <= addresses.len(),
        forall|i: int| 0 <= i < addresses.len() ==> ids_readable((#[trigger] addresses[i]).transactions),
    ensures
        points_into(index_of(addresses.take(n)), addresses),
    decreases n,
{
    if n > 0 {
        lemma_index_points(addresses, n - 1);
        assert(addresses.take(n).drop_last() =~= addresses.take(n - 1));
        assert(addresses.take(n).last() == addresses[n - 1]);
        let transactions = addresses[n - 1].transactions;
        lemma_with_transactions_points(
            index_of(addresses.take(n - 1)),
            addresses,
            n - 1,
            transactions.len() as int,
        );
        assert(transactions.take(transactions.len() as int) =~= transactions);
    } else {
        assert(addresses.take(0) =~= Seq::<AddressRecord>::empty());
    }
}

/// In a cache built of addresses, the indices agree.
pub proof fn lemma_loaded_is_consistent(addresses: Seq<AddressRecord>, accumulator: AccumulatorState)
    requires
        loadable(addresses),
    ensures
        consistent(loaded(addresses, accumulator)),
{
    let s = loaded(addresses, accumulator);
    let keyed = keyed_addresses(addresses);
    lemma_keys(keyed);
    assert forall|hash: Seq<u8>| #[trigger] s.addresses.contains_key(hash) implies s.addresses[hash].script_hash
        == hash by {
        assert(has_key(keyed, hash));
        let i = choose|i: int| 0 <= i < keyed.len() && (#[trigger] keyed[i]).0 == hash;
        lemma_entry(keyed, i);
    }
    assert forall|i: int| 0 <= i < addresses.len() implies ids_readable(
        (#[trigger] addresses[i]).transactions,
    ) by {
        assert(valid_address(addresses[i]));
        lemma_valid_ids_readable(addresses[i]);
    }
    lemma_index_points(addresses, addresses.len() as int);
    assert(addresses.take(addresses.len() as int) =~= addresses);
    assert forall|txid: Seq<u8>| #[trigger] s.index.contains_key(txid) implies entry_is_sound(
        s,
        txid,
    ) by {
        let i = choose|i: int|
            0 <= i < addresses.len() && points_at(s.index[txid], #[trigger] addresses[i], txid);
        lemma_entry(keyed, i);
        assert(keyed[i].0 == addresses[i].script_hash);
    }
    assert forall|script: Seq<u8>| #[trigger] s.scripts.contains(script) <==> is_watched(
        s,
        script,
    ) by {
        if s.scripts.contains(script) {
            let i = choose|i: int|
                0 <= i < scripts_of(addresses).len() && scripts_of(addresses)[i] == script;
            lemma_entry(keyed, i);
            assert(s.addresses.contains_key(keyed[i].0) && s.addresses[keyed[i].0].script == script);
        }
        if is_watched(s, script) {
            let h = choose|h: Seq<u8>| #[trigger]
                s.addresses.contains_key(h) && s.addresses[h].script == script;
            assert(has_key(keyed, h));
            let i = choose|i: int| 0 <= i < keyed.len() && (#[trigger] keyed[i]).0 == h;
            lemma_entry(keyed, i);
            assert(scripts_of(addresses)[i] == script);
        }
    }
}

/// The cached transaction that the index gives for `txid`, if it gives one.
pub open spec fn cached_transaction(s: CacheState, txid: Seq<u8>) -> Option<TransactionRecord> {
    if s.index.contains_key(txid) && s.addresses.contains_key(s.index[txid].0) && s.index[txid].1
        < s.addresses[s.index[txid].0].transactions.len() {
        Some(s.addresses[s.index[txid].0].transactions[s.index[txid].1 as int])
    } else {
        None
    }
}

/// The balance kept for the address under `hash`: 0 where it is not watched.
pub open spec fn balance(s: CacheState, hash: Seq<u8>) -> u64 {
    if s.addresses.contains_key(hash) {
        s.addresses[hash].balance
    } else {
        0
    }
}

/// The texts of the hashes of a merkle proof, in order, without those that
/// are the id `txid` itself.
pub open spec fn siblings(hashes: Seq<Seq<u8>>, txid: Seq<u8>) -> Seq<Seq<u8>>
    decreases hashes.len(),
{
    if hashes.len() == 0 {
        Seq::empty()
    } else if hashes.last() == txid {
        siblings(hashes.drop_last(), txid)
    } else {
        siblings(hashes.drop_last(), txid).push(txid_text(hashes.last()))
    }
}

/// The merkle proof of the transaction `txid`: the sibling hashes as texts,
/// and the transaction's position in its block. There is none where the
/// transaction is not cached, was cached without a proof, or its proof is
/// no merkle block.
pub open spec fn merkle_proof(s: CacheState, txid: Seq<u8>) -> Option<(Seq<Seq<u8>>, u32)> {
    match cached_transaction(s, txid) {
        None => None,
        Some(record) => match record.merkle_block {
            None => None,
            Some(block) => match merkle_block_hashes(block) {
                None => None,
                Some(hashes) => Some((siblings(hashes, txid), record.position)),
            },
        },
    }
}

/// The sibling hashes of a transaction never hold the transaction's own id.
pub proof fn lemma_siblings_exclude(hashes: Seq<Seq<u8>>, txid: Seq<u8>)
    requires
        txid.len() == 32,
        forall|i: int| 0 <= i < hashes.len() ==> (#[trigger] hashes[i]).len() == 32,
    ensures
        forall|i: int|
            0 <= i < siblings(hashes, txid).len() ==> (#[trigger] siblings(hashes, txid)[i])
                != txid_text(txid),
    decreases hashes.len(),
{
    if hashes.len() > 0 {
        let front = hashes.drop_last();
        assert forall|i: int| 0 <= i < front.len() implies (#[trigger] front[i]).len() == 32 by {
            assert(front[i] == hashes[i]);
        }
        lemma_siblings_exclude(front, txid);
        let earlier = siblings(front, txid);
        let all = siblings(hashes, txid);
        if hashes.last() != txid {
            assert(hashes[hashes.len() - 1].len() == 32);
            if txid_text(hashes.last()) == txid_text(txid) {
                lemma_txid_text_injective(hashes.last(), txid);
            }
            assert forall|i: int| 0 <= i < all.len() implies (#[trigger] all[i]) != txid_text(
                txid,
            ) by {
                if i < earlier.len() {
                    assert(all[i] == earlier[i]);
                }
            }
        }
    }
}

/// The record under which the transaction at `position` of a block is cached.
pub open spec fn block_record(block: Block, height: u32, position: int) -> TransactionRecord {
    transaction_record(
        block.txdata@[position]@,
        height,
        merkle_block_of(block.header@, block.txids(), position),
        position as u32,
    )
}

/// The cache after the outputs of one transaction are scanned: where the
/// transaction can be cached, it is cached for every output whose script is
/// watched, in order.
pub open spec fn scan_outputs(
    s: CacheState,
    record: TransactionRecord,
    txid: Seq<u8>,
    cacheable: bool,
    outputs: Seq<TxOutView>,
) -> CacheState
    decreases outputs.len(),
{
    if outputs.len() == 0 {
        s
    } else {
        let before = scan_outputs(s, record, txid, cacheable, outputs.drop_last());
        if cacheable && before.scripts.contains(outputs.last().script_pubkey) {
            cached(before, record, txid, outputs.last().script_pubkey)
        } else {
            before
        }
    }
}

/// Whether the transaction at `position` of a block can be cached: its id is
/// that of its serialized bytes, and the merkle block built for it is one.
pub open spec fn block_cacheable(block: Block, position: int) -> bool {
    &&& block.txdata@[position].valid()
    &&& is_merkle_block(merkle_block_of(block.header@, block.txids(), position))
}

/// The cache after the first `n` transactions of a block are scanned.
pub open spec fn scan_block(s: CacheState, block: Block, height: u32, n: nat) -> CacheState
    decreases n,
{
    if n == 0 {
        s
    } else {
        scan_outputs(
            scan_block(s, block, height, (n - 1) as nat),
            block_record(block, height, n - 1),
            block.txdata@[n - 1].txid@,
            block_cacheable(block, n - 1),
            block.txdata@[n - 1]@.output,
        )
    }
}

/// The cache after a block is applied: the accumulator is the one that the
/// block led to, and every transaction of the block that can be cached is
/// cached for every one of its outputs whose script is watched.
pub open spec fn applied(
    s: CacheState,
    block: Block,
    height: u32,
    accumulator: AccumulatorState,
) -> CacheState {
    scan_block(CacheState { accumulator, ..s }, block, height, block.txdata@.len())
}

/// The first `n` outputs of a transaction whose scripts are watched, each
/// with the transaction.
pub open spec fn matching_outputs(
    scripts: Set<Seq<u8>>,
    transaction: TransactionView,
    n: nat,
) -> Seq<(TransactionView, TxOutView)>
    decreases n,
{
    if n == 0 {
        Seq::empty()
    } else {
        let before = matching_outputs(scripts, transaction, (n - 1) as nat);
        if scripts.contains(transaction.output[n - 1].script_pubkey) {
            before.push((transaction, transaction.output[n - 1]))
        } else {
            before
        }
    }
}

/// The outputs of the first `n` transactions of a block whose scripts are
/// watched, each with its transaction, in the block's order.
pub open spec fn matching(scripts: Set<Seq<u8>>, block: Block, n: nat) -> Seq<
    (TransactionView, TxOutView),
>
    decreases n,
{
    if n == 0 {
        Seq::empty()
    } else {
        matching(scripts, block, (n - 1) as nat) + matching_outputs(
            scripts,
            block.txdata@[n - 1]@,
            block.txdata@[n - 1]@.output.len(),
        )
    }
}

/// Caching a transaction for a watched script leaves the watched scripts as they are.
pub proof fn lemma_cached_keeps_scripts(
    s: CacheState,
    record: TransactionRecord,
    txid: Seq<u8>,
    script: Seq<u8>,
)
    requires
        s.scripts.contains(script),
    ensures
        cached(s, record, txid, script).scripts == s.scripts,
        cached(s, record, txid, script).accumulator == s.accumulator,
{
    assert(s.scripts.insert(script) =~= s.scripts);
}

/// Whether the indices agree does not depend on the accumulator.
pub proof fn lemma_accumulator_is_independent(s: CacheState, accumulator: AccumulatorState)
    requires
        consistent(s),
    ensures
        consistent(CacheState { accumulator, ..s }),
{
    let after = CacheState { accumulator, ..s };
    assert forall|txid: Seq<u8>| #[trigger] after.index.contains_key(txid) implies entry_is_sound(
        after,
        txid,
    ) by {
        assert(entry_is_sound(s, txid));
    }
    assert forall|script: Seq<u8>| #[trigger] after.scripts.contains(script) <==> is_watched(
        after,
        script,
    ) by {
        if is_watched(s, script) {
            let h = choose|h: Seq<u8>| #[trigger]
                s.addresses.contains_key(h) && s.addresses[h].script == script;
            assert(after.addresses.contains_key(h) && after.addresses[h].script == script);
        }
        if is_watched(after, script) {
            let h = choose|h: Seq<u8>| #[trigger]
                after.addresses.contains_key(h) && after.addresses[h].script == script;
            assert(s.addresses.contains_key(h) && s.addresses[h].script == script);
        }
    }
}

/// The record under which a valid transaction is cached with a merkle block
/// is a valid one.
pub proof fn lemma_transaction_record_is_valid(
    transaction: TransactionView,
    height: u32,
    merkle_block: Seq<u8>,
    position: u32,
)
    requires
        is_id_of(transaction.txid, transaction.raw),
        transaction.txid.len() == 32,
        is_merkle_block(merkle_block),
    ensures
        valid_transaction(transaction_record(transaction, height, merkle_block, position)),
{
    hex::lemma_decode_encode(transaction.raw);
}

/// Watching a script keeps every address one that reading a record can give.
pub proof fn lemma_watched_is_valid(s: CacheState, script: Seq<u8>)
    requires
        valid_state(s),
        script_hash_of(script).len() == 32,
    ensures
        valid_state(watched(s, script)),
{
    let after = watched(s, script);
    assert forall|hash: Seq<u8>| #[trigger] after.addresses.contains_key(hash) implies valid_address(
        after.addresses[hash],
    ) by {
        if hash != script_hash_of(script) {
            assert(s.addresses.contains_key(hash));
        } else if s.addresses.contains_key(hash) {
        } else {
            assert(valid_address(new_address(script, Seq::empty())));
        }
    }
}

/// Caching a valid transaction keeps every address one that reading a record
/// can give.
pub proof fn lemma_cached_is_valid(
    s: CacheState,
    record: TransactionRecord,
    txid: Seq<u8>,
    script: Seq<u8>,
)
    requires
        valid_state(s),
        valid_transaction(record),
        script_hash_of(script).len() == 32,
    ensures
        valid_state(cached(s, record, txid, script)),
{
    let after = cached(s, record, txid, script);
    let target = script_hash_of(script);
    assert forall|hash: Seq<u8>| #[trigger] after.addresses.contains_key(hash) implies valid_address(
        after.addresses[hash],
    ) by {
        if hash != target {
            assert(s.addresses.contains_key(hash));
        } else if !s.addresses.contains_key(target) {
            let address = new_address(script, seq![record]);
            assert forall|i: int| 0 <= i < address.transactions.len() implies valid_transaction(
                #[trigger] address.transactions[i],
            ) by {}
        } else if !s.addresses[target].transactions.contains(record) {
            let before = s.addresses[target];
            let address = after.addresses[target];
            assert(valid_address(before));
            assert forall|i: int| 0 <= i < address.transactions.len() implies valid_transaction(
                #[trigger] address.transactions[i],
            ) by {
                if i < before.transactions.len() {
                    assert(address.transactions[i] == before.transactions[i]);
                }
            }
        }
    }
}

/// In a cache built of addresses, every address is one that reading a record
/// can give.
pub proof fn lemma_loaded_is_valid(addresses: Seq<AddressRecord>, accumulator: AccumulatorState)
    requires
        loadable(addresses),
    ensures
        valid_state(loaded(addresses, accumulator)),
{
    let s = loaded(addresses, accumulator);
    let keyed = keyed_addresses(addresses);
    lemma_keys(keyed);
    assert forall|hash: Seq<u8>| #[trigger] s.addresses.contains_key(hash) implies valid_address(
        s.addresses[hash],
    ) by {
        assert(has_key(keyed, hash));
        let i = choose|i: int| 0 <= i < keyed.len() && (#[trigger] keyed[i]).0 == hash;
        lemma_entry(keyed, i);
        assert(valid_address(addresses[i]));
    }
}

/// Whether the validity of what the cache holds does not depend on the accumulator.
pub proof fn lemma_validity_is_independent(s: CacheState, accumulator: AccumulatorState)
    requires
        valid_state(s),
    ensures
        valid_state(CacheState { accumulator, ..s }),
{
    let after = CacheState { accumulator, ..s };
    assert forall|hash: Seq<u8>| #[trigger] after.addresses.contains_key(hash) implies valid_address(
        after.addresses[hash],
    ) by {
        assert(s.addresses.contains_key(hash));
    }
}

/// A cache that is built again of what it held holds the same addresses and
/// watches the same scripts.
///
/// `addresses` lists what a cache in the state `s` holds, each address once:
/// what its database has once every change was written through. Then every
/// one of them is read back from its text as it is, a cache can be built of
/// them, and that cache has the addresses and the scripts of `s`.
pub proof fn lemma_reopened(
    s: CacheState,
    addresses: Seq<AddressRecord>,
    accumulator: AccumulatorState,
)
    requires
        consistent(s),
        valid_state(s),
        distinct_keys(keyed_addresses(addresses)),
        to_map(keyed_addresses(addresses)) == s.addresses,
    ensures
        forall|i: int|
            0 <= i < addresses.len() ==> decoded_address(
                encoded_address(#[trigger] addresses[i]),
            ) == Ok::<AddressRecord, Error>(addresses[i]),
        loadable(addresses),
        loaded(addresses, accumulator).addresses == s.addresses,
        loaded(addresses, accumulator).scripts == s.scripts,
{
    let keyed = keyed_addresses(addresses);
    lemma_keys(keyed);
    assert forall|i: int| 0 <= i < addresses.len() implies valid_address(#[trigger] addresses[i])
        && decoded_address(encoded_address(addresses[i])) == Ok::<AddressRecord, Error>(
        addresses[i],
    ) by {
        lemma_entry(keyed, i);
        assert(s.addresses.contains_key(keyed[i].0));
        assert(s.addresses[keyed[i].0] == addresses[i]);
        lemma_address_round_trip(addresses[i]);
    }
    let again = loaded(addresses, accumulator);
    assert forall|script: Seq<u8>| again.scripts.contains(script) <==> s.scripts.contains(
        script,
    ) by {
        if again.scripts.contains(script) {
            let i = choose|i: int|
                0 <= i < scripts_of(addresses).len() && scripts_of(addresses)[i] == script;
            lemma_entry(keyed, i);
            assert(s.addresses.contains_key(keyed[i].0) && s.addresses[keyed[i].0].script == script);
            assert(is_watched(s, script));
        }
        if s.scripts.contains(script) {
            assert(is_watched(s, script));
            let h = choose|h: Seq<u8>| #[trigger]
                s.addresses.contains_key(h) && s.addresses[h].script == script;
            assert(has_key(keyed, h));
            let i = choose|i: int| 0 <= i < keyed.len() && (#[trigger] keyed[i]).0 == h;
            lemma_entry(keyed, i);
            assert(scripts_of(addresses)[i] == script);
        }
    }
    assert(again.scripts =~= s.scripts);
}

} // verus!
