//! The address cache: the watched addresses with their transactions, the
//! watched scripts, the index from transaction ids to cached transactions,
//! and the accumulator, kept in agreement while blocks are applied.

use crate::accumulator::{restored, stored_bytes, AccumulatorSnapshot, AccumulatorState};
use crate::chain::{
    hash_views, script_hash_of, txid_text, Block, MerkleBlock, Script, ScriptHash, Transaction,
    TxOut, Txid,
};
use crate::database::{AddressCacheDatabase, ChainStore};
use crate::error::Error;
use crate::hex;
use crate::keyed::{
    distinct_keys, lemma_absent, lemma_count, lemma_entry, lemma_keys, lemma_push, lemma_update,
    to_map,
};
use crate::record::{
    address_records, copy_transactions, lemma_hex_is_ascii, records, valid_address,
    valid_transaction, AddressRecord, CachedAddress, CachedTransaction, TransactionRecord,
};
use crate::state::{
    applied, balance, block_record, cached, cached_transaction, consistent, history, index_of,
    keyed_addresses, lemma_cached_is_consistent, lemma_cached_keeps_scripts,
    lemma_loaded_is_consistent, lemma_siblings_exclude, lemma_transaction_record_txid,
    lemma_watched_is_consistent, loadable, loaded, matching, matching_outputs, merkle_proof,
    scan_block, scan_outputs, scripts_of, siblings, transaction_record, watched, readable,
    surviving, surviving_from, valid_state, with_transactions, CacheState,
};
use crate::text::{as_bytes, ascii_string, bytes_of};
use std::ops::RangeInclusive;
use vstd::prelude::*;

verus! {

/// Where a transaction is cached: the script hash of an address, and the
/// position in that address's history.
struct IndexEntry {
    txid: Txid,
    script_hash: ScriptHash,
    position: usize,
}

/// The addresses of a list, each under its script hash.
spec fn address_entries(addresses: Seq<CachedAddress>) -> Seq<(Seq<u8>, AddressRecord)> {
    addresses.map_values(|a: CachedAddress| (a.script_hash@, a@))
}

/// The entries of a list, each under its transaction id.
spec fn index_entries(index: Seq<IndexEntry>) -> Seq<(Seq<u8>, (Seq<u8>, nat))> {
    index.map_values(|e: IndexEntry| (e.txid@, (e.script_hash@, e.position as nat)))
}

/// The bytes of the scripts of a list.
spec fn script_views(scripts: Seq<Script>) -> Seq<Seq<u8>> {
    scripts.map_values(|s: Script| s@)
}

/// Where in the list the address with the script hash `hash` stands.
fn find_address(addresses: &Vec<CachedAddress>, hash: &ScriptHash) -> (found: Option<usize>)
    ensures
        match found {
            Some(i) => i < addresses@.len() && addresses@[i as int].script_hash@ == hash@,
            None => forall|i: int|
                0 <= i < addresses@.len() ==> (#[trigger] addresses@[i]).script_hash@ != hash@,
        },
{
    let mut i: usize = 0;
    while i < addresses.len()
        invariant
            i <= addresses@.len(),
            forall|k: int| 0 <= k < i ==> (#[trigger] addresses@[k]).script_hash@ != hash@,
        decreases addresses@.len() - i,
    {
        if addresses[i].script_hash.same(hash) {
            return Some(i);
        }
        i = i + 1;
    }
    None
}

/// Whether `script` is in the list.
fn holds_script(scripts: &Vec<Script>, script: &Script) -> (found: bool)
    ensures
        found == script_views(scripts@).contains(script@),
{
    let mut i: usize = 0;
    while i < scripts.len()
        invariant
            i <= scripts@.len(),
            forall|k: int| 0 <= k < i ==> (#[trigger] scripts@[k])@ != script@,
        decreases scripts@.len() - i,
    {
        if scripts[i].same(script) {
            assert(script_views(scripts@)[i as int] == script@);
            return true;
        }
        i = i + 1;
    }
    assert forall|k: int| 0 <= k < script_views(scripts@).len() implies script_views(scripts@)[k]
        != script@ by {
        assert(scripts@[k]@ != script@);
    }
    false
}

/// Where in the list the entry of the transaction id `txid` stands.
fn find_entry(index: &Vec<IndexEntry>, txid: &Txid) -> (found: Option<usize>)
    ensures
        match found {
            Some(i) => i < index@.len() && index@[i as int].txid@ == txid@,
            None => forall|i: int| 0 <= i < index@.len() ==> (#[trigger] index@[i]).txid@ != txid@,
        },
{
    let mut i: usize = 0;
    while i < index.len()
        invariant
            i <= index@.len(),
            forall|k: int| 0 <= k < i ==> (#[trigger] index@[k]).txid@ != txid@,
        decreases index@.len() - i,
    {
        if index[i].txid.same(txid) {
            return Some(i);
        }
        i = i + 1;
    }
    None
}

/// Makes the entry of `txid` point at `position` in the address under
/// `script_hash`, whether or not `txid` had an entry.
fn index_insert(index: &mut Vec<IndexEntry>, txid: Txid, script_hash: ScriptHash, position: usize)
    requires
        distinct_keys(index_entries(old(index)@)),
    ensures
        distinct_keys(index_entries(final(index)@)),
        to_map(index_entries(final(index)@)) == to_map(index_entries(old(index)@)).insert(
            txid@,
            (script_hash@, position as nat),
        ),
{
    let ghost before = index_entries(index@);
    match find_entry(index, &txid) {
        Some(i) => {
            index[i] = IndexEntry { txid, script_hash, position };
            proof {
                assert(before[i as int].0 == txid@);
                lemma_update(before, i as int, (script_hash@, position as nat));
                assert(index_entries(index@) =~= before.update(
                    i as int,
                    (txid@, (script_hash@, position as nat)),
                ));
            }
        },
        None => {
            index.push(IndexEntry { txid, script_hash, position });
            proof {
                let after = index_entries(index@);
                assert(after =~= before.push((txid@, (script_hash@, position as nat))));
                lemma_push(before, txid@, (script_hash@, position as nat));
                assert forall|a: int, b: int| 0 <= a < b < after.len() implies (#[trigger] after[a]).0
                    != (#[trigger] after[b]).0 by {
                    if b == before.len() {
                        assert(old(index)@[a].txid@ != txid@);
                    } else {
                        assert(before[a].0 != before[b].0);
                    }
                }
            }
        },
    }
}

/// The addresses without those whose script hash a later one has, in order;
/// `None` where one of them is not one that reading a record can give.
fn survivors(addresses: Vec<CachedAddress>) -> (res: Option<Vec<CachedAddress>>)
    ensures
        match res {
            Some(kept) => {
                &&& readable(address_records(addresses@))
                &&& address_records(kept@) == surviving(address_records(addresses@))
                &&& loadable(address_records(kept@))
            },
            None => !readable(address_records(addresses@)),
        },
{
    let ghost given = addresses@;
    let ghost all = address_records(addresses@);
    let mut rest: Vec<CachedAddress> = addresses;
    let mut reversed: Vec<CachedAddress> = Vec::new();
    proof {
        assert(given.take(given.len() as int) =~= given);
        assert(address_records(reversed@).reverse() =~= Seq::<AddressRecord>::empty());
    }
    while rest.len() > 0
        invariant
            rest@.len() <= given.len(),
            rest@ == given.take(rest@.len() as int),
            all == address_records(given),
            given == addresses@,
            address_records(reversed@).reverse() == surviving_from(all, rest@.len() as int),
            forall|a: int, b: int|
                0 <= a < b < reversed@.len() ==> (#[trigger] reversed@[a]).script_hash@ != (
                #[trigger] reversed@[b]).script_hash@,
            forall|k: int| 0 <= k < reversed@.len() ==> valid_address((#[trigger] reversed@[k])@),
            forall|k: int| rest@.len() <= k < given.len() ==> valid_address(#[trigger] all[k]),
        decreases rest@.len(),
    {
        let ghost n = rest@.len() - 1;
        let ghost later = address_records(reversed@).reverse();
        let ghost before = reversed@;
        let address: CachedAddress = match rest.pop() {
            Some(address) => address,
            None => {
                return None;
            },
        };
        proof {
            assert(rest@ =~= given.take(n));
            assert(address == given[n]);
            assert(all[n] == address@);
        }
        if !address.is_valid() {
            assert(!valid_address(all[n]));
            return None;
        }
        match find_address(&reversed, &address.script_hash) {
            Some(k) => {
                proof {
                    assert(later[before.len() - 1 - k].script_hash == address.script_hash@);
                    assert(crate::state::has_hash(later, all[n].script_hash));
                }
            },
            None => {
                proof {
                    assert forall|i: int| 0 <= i < later.len() implies (#[trigger] later[i]).script_hash
                        != address.script_hash@ by {
                        assert(later[i] == before[before.len() - 1 - i]@);
                    }
                    assert(!crate::state::has_hash(later, all[n].script_hash));
                }
                reversed.push(address);
                assert(address_records(reversed@).reverse() =~= seq![all[n]] + later);
            },
        }
    }
    let ghost target = surviving(all);
    proof {
        let last = address_records(reversed@);
        assert(target == last.reverse());
        let keyed = keyed_addresses(target);
        assert forall|a: int, b: int| 0 <= a < b < keyed.len() implies (#[trigger] keyed[a]).0 != (
        #[trigger] keyed[b]).0 by {
            assert(reversed@[last.len() - 1 - b].script_hash@ != reversed@[last.len() - 1
                - a].script_hash@);
        }
        assert forall|k: int| 0 <= k < target.len() implies valid_address(#[trigger] target[k]) by {
            assert(target[k] == reversed@[last.len() - 1 - k]@);
        }
        assert(loadable(target));
    }
    let mut ordered: Vec<CachedAddress> = Vec::new();
    proof {
        assert(address_records(ordered@) + address_records(reversed@).reverse() =~= target);
    }
    while reversed.len() > 0
        invariant
            address_records(ordered@) + address_records(reversed@).reverse() == target,
        decreases reversed@.len(),
    {
        let ghost front = address_records(ordered@);
        let ghost back = address_records(reversed@);
        match reversed.pop() {
            Some(address) => {
                ordered.push(address);
                proof {
                    assert(address_records(reversed@) =~= back.drop_last());
                    assert(address_records(ordered@) =~= front.push(back.last()));
                    assert(address_records(ordered@) + address_records(reversed@).reverse()
                        =~= front + back.reverse());
                }
            },
            None => {},
        }
    }
    proof {
        assert(address_records(reversed@).reverse() =~= Seq::<AddressRecord>::empty());
        assert(address_records(ordered@) =~= target);
    }
    Some(ordered)
}

/// Whether the database has taken `address`, by `save` or by `update`.
pub open spec fn persisted<D: AddressCacheDatabase>(database: D, address: AddressRecord) -> bool {
    database.saves(address) || database.updates(address)
}

/// Whether every change to an address was written through: every address
/// that `after` holds, and that `before` did not hold the same, was taken by
/// the database as `after` holds it.
pub open spec fn written_through<D: AddressCacheDatabase>(
    database: D,
    before: CacheState,
    after: CacheState,
) -> bool {
    forall|hash: Seq<u8>| #[trigger]
        after.addresses.contains_key(hash) && !(before.addresses.contains_key(hash)
            && before.addresses[hash] == after.addresses[hash]) ==> persisted(
            database,
            after.addresses[hash],
        )
}

/// Changes written through one after the other are written through as a whole.
pub proof fn lemma_written_through_twice<D: AddressCacheDatabase>(
    database: D,
    first: CacheState,
    second: CacheState,
    third: CacheState,
)
    requires
        written_through(database, first, second),
        written_through(database, second, third),
    ensures
        written_through(database, first, third),
{
    assert forall|hash: Seq<u8>| #[trigger]
        third.addresses.contains_key(hash) && !(first.addresses.contains_key(hash)
            && first.addresses[hash] == third.addresses[hash]) implies persisted(
        database,
        third.addresses[hash],
    ) by {
        if second.addresses.contains_key(hash) && second.addresses[hash] == third.addresses[hash] {
            assert(second.addresses.contains_key(hash));
        }
    }
}

/// Holds all watched addresses and their transactions, in memory and,
/// through a database, on disk.
pub struct AddressCache<D: AddressCacheDatabase, S: ChainStore> {
    /// Where the addresses, the cache height and the descriptor are persisted.
    database: D,
    /// The watched addresses; no script hash occurs twice.
    address_map: Vec<CachedAddress>,
    /// The watched scripts; none occurs twice.
    script_set: Vec<Script>,
    /// Where each known transaction is cached; no id occurs twice.
    tx_index: Vec<IndexEntry>,
    /// The accumulator after the last block applied.
    acc: AccumulatorSnapshot,
    /// Where the accumulator is persisted.
    chain_store: S,
}

impl<D: AddressCacheDatabase, S: ChainStore> View for AddressCache<D, S> {
    type V = CacheState;

    closed spec fn view(&self) -> CacheState {
        CacheState {
            addresses: to_map(address_entries(self.address_map@)),
            scripts: script_views(self.script_set@).to_set(),
            index: to_map(index_entries(self.tx_index@)),
            accumulator: self.acc@,
        }
    }
}

impl<D: AddressCacheDatabase, S: ChainStore> AddressCache<D, S> {
    /// The database that the cache persists to.
    pub closed spec fn database(&self) -> D {
        self.database
    }

    /// The chain store that the cache persists its accumulator to.
    pub closed spec fn chain_store(&self) -> S {
        self.chain_store
    }

    /// Whether `res` is what opening a cache over the two stores gives, where
    /// the database gave `addresses` and the chain store answered `roots`:
    /// the chain store's error, the error of reading the accumulator's text,
    /// `DbParseError` where one of the addresses is not one that reading a
    /// record can give, and else the cache built of them and of the
    /// accumulator, over the same stores. Of two addresses with one script
    /// hash the later one stays; where no two have the same, the cache holds
    /// every one of them.
    pub open spec fn opened(
        res: Result<Self, Error>,
        database: D,
        chain_store: S,
        addresses: Seq<AddressRecord>,
        roots: Result<Option<String>, Error>,
    ) -> bool {
        match roots {
            Err(e) => res matches Err(err) && err == e,
            Ok(stored) => match restored(stored_bytes(stored)) {
                Err(e) => res matches Err(err) && err == e,
                Ok(accumulator) => if readable(addresses) {
                    &&& res matches Ok(cache)
                    &&& cache@ == loaded(surviving(addresses), accumulator)
                    &&& cache@.addresses == to_map(keyed_addresses(addresses))
                    &&& distinct_keys(keyed_addresses(addresses)) ==> cache@ == loaded(
                        addresses,
                        accumulator,
                    )
                    &&& cache.wf()
                    &&& cache.database() == database
                    &&& cache.chain_store() == chain_store
                } else {
                    res matches Err(err) && err == Error::DbParseError
                },
            },
        }
    }

    /// Whether the cache is in order: no key occurs twice in its lists, and
    /// its indices agree.
    pub closed spec fn wf(&self) -> bool {
        &&& distinct_keys(address_entries(self.address_map@))
        &&& distinct_keys(index_entries(self.tx_index@))
        &&& script_views(self.script_set@).no_duplicates()
        &&& consistent(self@)
        &&& valid_state(self@)
    }

    /// In a cache that is in order the indices agree, every address is one
    /// that reading a record can give, and the addresses and scripts are
    /// finitely many.
    pub proof fn lemma_wf(&self)
        requires
            self.wf(),
        ensures
            consistent(self@),
            valid_state(self@),
            self@.addresses.dom().finite(),
            self@.index.dom().finite(),
            self@.scripts.finite(),
    {
        lemma_keys(address_entries(self.address_map@));
        lemma_keys(index_entries(self.tx_index@));
        vstd::seq_lib::seq_to_set_is_finite(script_views(self.script_set@));
    }

    /// Builds the cache of the addresses and the accumulator that were loaded.
    ///
    /// Of two addresses with one script hash the later one stays and the
    /// earlier one is left out, with its script and its transactions. Fails
    /// with `DbParseError` where an address is not one that reading a record
    /// can give: the `hash` of one of its transactions is not the text of
    /// the id of the transaction in `tx_hex`, or its proof is no merkle block.
    pub fn with_state(
        database: D,
        chain_store: S,
        addresses: Vec<CachedAddress>,
        acc: AccumulatorSnapshot,
    ) -> (res: Result<Self, Error>)
        ensures
            match res {
                Ok(cache) => {
                    &&& readable(address_records(addresses@))
                    &&& cache@ == loaded(surviving(address_records(addresses@)), acc@)
                    &&& cache@.addresses == to_map(keyed_addresses(address_records(addresses@)))
                    &&& distinct_keys(keyed_addresses(address_records(addresses@))) ==> cache@
                        == loaded(address_records(addresses@), acc@)
                    &&& cache.wf()
                    &&& cache.database() == database
                    &&& cache.chain_store() == chain_store
                },
                Err(e) => e == Error::DbParseError && !readable(address_records(addresses@)),
            },
    {
        let ghost all = address_records(addresses@);
        proof {
            assert(all.skip(0) =~= all);
            crate::state::lemma_surviving_map(all, 0);
            if distinct_keys(keyed_addresses(all)) {
                crate::state::lemma_distinct_survive(all, 0);
            }
        }
        match survivors(addresses) {
            Some(kept) => Self::build(database, chain_store, kept, acc),
            None => Err(Error::DbParseError),
        }
    }

    /// Builds the cache of addresses of which a cache can be built as they are.
    fn build(
        database: D,
        chain_store: S,
        addresses: Vec<CachedAddress>,
        acc: AccumulatorSnapshot,
    ) -> (res: Result<Self, Error>)
        requires
            loadable(address_records(addresses@)),
        ensures
            res matches Ok(cache) && cache@ == loaded(address_records(addresses@), acc@)
                && cache.wf() && cache.database() == database && cache.chain_store()
                == chain_store,
    {
        let ghost all = address_records(addresses@);
        let mut script_set: Vec<Script> = Vec::new();
        let mut tx_index: Vec<IndexEntry> = Vec::new();
        proof {
            assert(all.take(0) =~= Seq::<AddressRecord>::empty());
            assert(scripts_of(all.take(0)) =~= Seq::<Seq<u8>>::empty());
            assert(script_views(script_set@) =~= Seq::<Seq<u8>>::empty());
            assert(script_views(script_set@).to_set() =~= scripts_of(all.take(0)).to_set());
            assert(index_entries(tx_index@) =~= Seq::<(Seq<u8>, (Seq<u8>, nat))>::empty());
        }
        let mut i: usize = 0;
        while i < addresses.len()
            invariant
                i <= addresses@.len(),
                all == address_records(addresses@),
                loadable(all),
                script_views(script_set@).no_duplicates(),
                script_views(script_set@).to_set() == scripts_of(all.take(i as int)).to_set(),
                distinct_keys(index_entries(tx_index@)),
                to_map(index_entries(tx_index@)) == index_of(all.take(i as int)),
            decreases addresses@.len() - i,
        {
            let address: &CachedAddress = &addresses[i];
            let ghost done = all.take(i as int);
            let ghost next = all.take(i + 1);
            proof {
                assert(next.drop_last() =~= done);
                assert(next.last() == address@);
                assert(keyed_addresses(all)[i as int].0 == address.script_hash@);
            }
            let mut j: usize = 0;
            proof {
                assert(address@.transactions.take(0) =~= Seq::<TransactionRecord>::empty());
            }
            while j < address.transactions.len()
                invariant
                    j <= address.transactions@.len(),
                    i < addresses@.len(),
                    all == address_records(addresses@),
                    address == addresses@[i as int],
                    done == all.take(i as int),
                    distinct_keys(index_entries(tx_index@)),
                    loadable(all),
                    to_map(index_entries(tx_index@)) == with_transactions(
                        index_of(done),
                        address.script_hash@,
                        address@.transactions.take(j as int),
                    ),
                decreases address.transactions@.len() - j,
            {
                let transaction: &CachedTransaction = &address.transactions[j];
                let ghost indexed = address@.transactions.take(j + 1);
                proof {
                    assert(indexed.drop_last() =~= address@.transactions.take(j as int));
                    assert(indexed.last() == transaction@);
                    assert(address@.transactions[j as int] == transaction@);
                }
                proof {
                    assert(valid_address(all[i as int]));
                    assert(valid_transaction(all[i as int].transactions[j as int]));
                    crate::state::lemma_valid_is_readable(transaction@);
                }
                let txid: Txid = match Txid::from_hex(as_bytes(&transaction.hash)) {
                    Some(id) => id,
                    None => {
                        return Err(Error::DbParseError);
                    },
                };
                index_insert(&mut tx_index, txid, address.script_hash, j);
                j = j + 1;
            }
            if !holds_script(&script_set, &address.script) {
                let ghost before = script_views(script_set@);
                script_set.push(address.script.copy());
                proof {
                    assert(script_views(script_set@) =~= before.push(address.script@));
                    before.lemma_push_to_set_commute(address.script@);
                    assert forall|a: int, b: int|
                        0 <= a < script_views(script_set@).len() && 0 <= b < script_views(
                            script_set@,
                        ).len() && a != b implies script_views(script_set@)[a] != script_views(
                        script_set@,
                    )[b] by {
                        if a == before.len() {
                            assert(before[b] == script_views(script_set@)[b]);
                        } else if b == before.len() {
                            assert(before[a] == script_views(script_set@)[a]);
                        } else {
                            assert(before[a] != before[b]);
                        }
                    }
                }
            } else {
                proof {
                    let before = script_views(script_set@);
                    assert(before.to_set().insert(address.script@) =~= before.to_set());
                }
            }
            proof {
                assert(address@.transactions.take(j as int) =~= address@.transactions);
                assert(scripts_of(next) =~= scripts_of(done).push(address.script@));
                scripts_of(done).lemma_push_to_set_commute(address.script@);
            }
            i = i + 1;
        }
        proof {
            assert(all.take(i as int) =~= all);
            assert(address_entries(addresses@) =~= keyed_addresses(all));
            lemma_loaded_is_consistent(all, acc@);
            crate::state::lemma_loaded_is_valid(all, acc@);
        }
        let cache = AddressCache {
            database,
            chain_store,
            address_map: addresses,
            script_set,
            tx_index,
            acc,
        };
        assert(cache@ =~= loaded(all, acc@));
        Ok(cache)
    }

    /// Loads the addresses from the database and the accumulator from the
    /// chain store, and builds the cache of them.
    ///
    /// Where the database fails to load, its error is returned and the chain
    /// store is not asked. Else the result is what `opened` says of the
    /// addresses that the database gave and of the chain store's answer.
    pub fn new(database: D, chain_store: S) -> (res: Result<Self, Error>)
        ensures
            exists|answer: Result<Vec<CachedAddress>, Error>| #[trigger]
                database.loads(answer) && match answer {
                    Err(e) => res matches Err(err) && err == e,
                    Ok(addresses) => exists|roots: Result<Option<String>, Error>| #[trigger]
                        chain_store.loads(roots) && Self::opened(
                            res,
                            database,
                            chain_store,
                            address_records(addresses@),
                            roots,
                        ),
                },
            res matches Ok(cache) ==> cache.wf(),
    {
        let answer = database.load();
        let ghost given = answer;
        let addresses: Vec<CachedAddress> = match answer {
            Ok(addresses) => addresses,
            Err(e) => {
                return Err(e);
            },
        };
        let roots = chain_store.load_roots();
        let ghost given_roots = roots;
        let acc: AccumulatorSnapshot = match AccumulatorSnapshot::from_answer(roots) {
            Ok(acc) => acc,
            Err(e) => {
                proof {
                    assert(chain_store.loads(given_roots) && Self::opened(
                        Err(e),
                        database,
                        chain_store,
                        address_records(addresses@),
                        given_roots,
                    ));
                }
                return Err(e);
            },
        };
        let ghost records = address_records(addresses@);
        let res = Self::with_state(database, chain_store, addresses, acc);
        proof {
            assert(chain_store.loads(given_roots) && Self::opened(
                res,
                database,
                chain_store,
                records,
                given_roots,
            ));
        }
        res
    }

    /// Loads the accumulator from the chain store: the store's error where
    /// it fails, else the stored one, or a fresh one where none was stored.
    pub fn load_acc(chain_store: &S) -> (res: Result<AccumulatorSnapshot, Error>)
        ensures
            exists|answer: Result<Option<String>, Error>| #[trigger]
                chain_store.loads(answer) && match answer {
                    Err(e) => res == Err::<AccumulatorSnapshot, Error>(e),
                    Ok(stored) => match res {
                        Ok(a) => restored(stored_bytes(stored)) == Ok::<AccumulatorState, Error>(
                            a@,
                        ),
                        Err(e) => restored(stored_bytes(stored)) == Err::<AccumulatorState, Error>(
                            e,
                        ),
                    },
                },
    {
        AccumulatorSnapshot::from_answer(chain_store.load_roots())
    }

    /// The accumulator after the last block applied.
    pub fn accumulator(&self) -> (acc: &AccumulatorSnapshot)
        ensures
            acc@ == self@.accumulator,
    {
        &self.acc
    }

    /// How many addresses are watched.
    pub fn address_count(&self) -> (count: usize)
        requires
            self.wf(),
        ensures
            count == self@.addresses.dom().len(),
    {
        proof {
            lemma_count(address_entries(self.address_map@));
        }
        self.address_map.len()
    }

    /// How many scripts are watched.
    pub fn script_count(&self) -> (count: usize)
        requires
            self.wf(),
        ensures
            count == self@.scripts.len(),
    {
        proof {
            script_views(self.script_set@).unique_seq_to_set();
        }
        self.script_set.len()
    }

    /// Whether `script` is watched.
    pub fn is_watching(&self, script: &Script) -> (watching: bool)
        ensures
            watching == self@.scripts.contains(script@),
    {
        holds_script(&self.script_set, script)
    }

    /// The cached transaction that the index gives for `txid`.
    pub fn get_transaction(&self, txid: &Txid) -> (res: Option<CachedTransaction>)
        requires
            self.wf(),
        ensures
            match res {
                Some(t) => cached_transaction(self@, txid@) == Some(t@),
                None => cached_transaction(self@, txid@) is None,
            },
    {
        let ghost index = index_entries(self.tx_index@);
        let ghost addresses = address_entries(self.address_map@);
        match find_entry(&self.tx_index, txid) {
            Some(e) => {
                proof {
                    assert(index[e as int].0 == txid@);
                    lemma_entry(index, e as int);
                }
                let entry: &IndexEntry = &self.tx_index[e];
                match find_address(&self.address_map, &entry.script_hash) {
                    Some(a) => {
                        proof {
                            assert(addresses[a as int].0 == entry.script_hash@);
                            lemma_entry(addresses, a as int);
                        }
                        let address: &CachedAddress = &self.address_map[a];
                        if entry.position < address.transactions.len() {
                            Some(address.transactions[entry.position].copy())
                        } else {
                            None
                        }
                    },
                    None => {
                        proof {
                            assert forall|i: int| 0 <= i < addresses.len() implies (
                            #[trigger] addresses[i]).0 != entry.script_hash@ by {
                                assert(self.address_map@[i].script_hash@ != entry.script_hash@);
                            }
                            lemma_absent(addresses, entry.script_hash@);
                        }
                        None
                    },
                }
            },
            None => {
                proof {
                    assert forall|i: int| 0 <= i < index.len() implies (#[trigger] index[i]).0
                        != txid@ by {
                        assert(self.tx_index@[i].txid@ != txid@);
                    }
                    lemma_absent(index, txid@);
                }
                None
            },
        }
    }

    /// Every transaction cached for the address under `script_hash`, in the
    /// order in which they were first seen; none where it is not watched.
    pub fn get_address_history(&self, script_hash: &ScriptHash) -> (res: Vec<CachedTransaction>)
        requires
            self.wf(),
        ensures
            records(res@) == history(self@, script_hash@),
    {
        let ghost addresses = address_entries(self.address_map@);
        match find_address(&self.address_map, script_hash) {
            Some(a) => {
                proof {
                    assert(addresses[a as int].0 == script_hash@);
                    lemma_entry(addresses, a as int);
                }
                copy_transactions(&self.address_map[a].transactions)
            },
            None => {
                proof {
                    assert forall|i: int| 0 <= i < addresses.len() implies (#[trigger] addresses[i]).0
                        != script_hash@ by {
                        assert(self.address_map@[i].script_hash@ != script_hash@);
                    }
                    lemma_absent(addresses, script_hash@);
                }
                let none: Vec<CachedTransaction> = Vec::new();
                assert(records(none@) =~= Seq::<TransactionRecord>::empty());
                none
            },
        }
    }

    /// The balance kept for the address under `script_hash`; 0 where it is
    /// not watched. The balance of an address is 0 from the moment it is
    /// watched, and caching transactions does not change it.
    pub fn get_address_balance(&self, script_hash: &ScriptHash) -> (res: u64)
        requires
            self.wf(),
        ensures
            res == balance(self@, script_hash@),
    {
        let ghost addresses = address_entries(self.address_map@);
        match find_address(&self.address_map, script_hash) {
            Some(a) => {
                proof {
                    assert(addresses[a as int].0 == script_hash@);
                    lemma_entry(addresses, a as int);
                }
                self.address_map[a].balance
            },
            None => {
                proof {
                    assert forall|i: int| 0 <= i < addresses.len() implies (#[trigger] addresses[i]).0
                        != script_hash@ by {
                        assert(self.address_map@[i].script_hash@ != script_hash@);
                    }
                    lemma_absent(addresses, script_hash@);
                }
                0
            },
        }
    }

    /// The height of the block that confirmed the transaction `txid`.
    pub fn get_height(&self, txid: &Txid) -> (res: Option<u32>)
        requires
            self.wf(),
        ensures
            match cached_transaction(self@, txid@) {
                Some(t) => res == Some(t.height),
                None => res is None,
            },
    {
        match self.get_transaction(txid) {
            Some(transaction) => Some(transaction.height),
            None => None,
        }
    }

    /// The transaction `txid`, serialized, in hexadecimal.
    pub fn get_cached_transaction(&self, txid: &Txid) -> (res: Option<String>)
        requires
            self.wf(),
        ensures
            match cached_transaction(self@, txid@) {
                Some(t) => res matches Some(text) && bytes_of(text@) == t.tx_hex,
                None => res is None,
            },
    {
        match self.get_transaction(txid) {
            Some(transaction) => Some(transaction.tx_hex),
            None => None,
        }
    }

    /// The merkle proof of the transaction `txid`: the hashes that its proof
    /// lists, as texts and without the transaction's own id, and the
    /// transaction's position in its block.
    pub fn get_merkle_proof(&self, txid: &Txid) -> (res: Option<(Vec<String>, u32)>)
        requires
            self.wf(),
        ensures
            match res {
                Some((hashes, position)) => merkle_proof(self@, txid@) == Some(
                    (texts(hashes@), position),
                ),
                None => merkle_proof(self@, txid@) is None,
            },
            res matches Some((hashes, _)) ==> forall|i: int|
                0 <= i < hashes@.len() ==> bytes_of((#[trigger] hashes@[i])@) != txid_text(txid@),
    {
        let transaction: CachedTransaction = match self.get_transaction(txid) {
            Some(transaction) => transaction,
            None => {
                return None;
            },
        };
        let merkle_block: MerkleBlock = match transaction.merkle_block {
            Some(block) => block,
            None => {
                return None;
            },
        };
        let listed: Vec<[u8; 32]> = match merkle_block.hashes() {
            Some(hashes) => hashes,
            None => {
                return None;
            },
        };
        let ghost all = hash_views(listed@);
        let mut hashes: Vec<String> = Vec::new();
        proof {
            assert(all.take(0) =~= Seq::<Seq<u8>>::empty());
            assert(texts(hashes@) =~= Seq::<Seq<u8>>::empty());
        }
        let mut i: usize = 0;
        while i < listed.len()
            invariant
                i <= listed@.len(),
                all == hash_views(listed@),
                texts(hashes@) == siblings(all.take(i as int), txid@),
            decreases listed@.len() - i,
        {
            let ghost before = texts(hashes@);
            proof {
                assert(all.take(i + 1).drop_last() =~= all.take(i as int));
                assert(all.take(i + 1).last() == listed@[i as int]@);
            }
            let hash = Txid { bytes: listed[i] };
            if !hash.same(txid) {
                let text: Vec<u8> = hash.to_hex();
                proof {
                    hex::lemma_encoded_is_lower_hex(hash@.reverse());
                    lemma_hex_is_ascii(text@);
                }
                hashes.push(ascii_string(text));
                assert(texts(hashes@) =~= before.push(txid_text(hash@)));
            }
            i = i + 1;
        }
        proof {
            assert(all.take(i as int) =~= all);
            lemma_siblings_exclude(all, txid@);
            assert forall|k: int| 0 <= k < hashes@.len() implies bytes_of((#[trigger] hashes@[k])@)
                != txid_text(txid@) by {
                assert(texts(hashes@)[k] == bytes_of(hashes@[k]@));
            }
        }
        Some((hashes, transaction.position))
    }

    /// The heights that are still to be scanned when the chain has reached
    /// `current_height`: what `sync_limits` gives for the answer of the
    /// database when asked for the cache height.
    pub fn get_sync_limits(&self, current_height: u32) -> (res: Result<RangeInclusive<u32>, Error>)
        ensures
            exists|answer: Result<u32, Error>| #[trigger]
                self.database().gets_cache_height(answer) && is_window(
                    res,
                    window(answer, current_height),
                ),
            res matches Ok(range) ==> !range@.exhausted && range@.start >= 1,
    {
        let answer = self.database.get_cache_height();
        let ghost given = answer;
        let res = sync_limits(answer, current_height);
        assert(self.database().gets_cache_height(given) && is_window(
            res,
            window(given, current_height),
        ));
        res
    }

    /// Begins to watch `script_pk`, with no history and a balance of 0, and
    /// saves the new address. Nothing changes where the script's hash is
    /// watched already.
    pub fn cache_address(&mut self, script_pk: Script)
        requires
            old(self).wf(),
        ensures
            final(self).wf(),
            final(self)@ == watched(old(self)@, script_pk@),
            final(self).database() == old(self).database(),
            final(self).chain_store() == old(self).chain_store(),
            ({
                let hash = script_hash_of(script_pk@);
                !old(self)@.addresses.contains_key(hash) ==> final(self).database().saves(
                    crate::state::new_address(script_pk@, Seq::empty()),
                )
            }),
            written_through(final(self).database(), old(self)@, final(self)@),
    {
        let hash: ScriptHash = ScriptHash::of_script(&script_pk);
        let ghost addresses = address_entries(self.address_map@);
        proof {
            lemma_watched_is_consistent(self@, script_pk@);
            crate::state::lemma_watched_is_valid(self@, script_pk@);
        }
        match find_address(&self.address_map, &hash) {
            Some(a) => {
                proof {
                    assert(addresses[a as int].0 == hash@);
                    lemma_entry(addresses, a as int);
                }
            },
            None => {
                let new_address = CachedAddress {
                    balance: 0,
                    script_hash: hash,
                    transactions: Vec::new(),
                    script: script_pk.copy(),
                };
                assert(new_address@ =~= crate::state::new_address(script_pk@, Seq::empty()));
                self.database.save(&new_address);
                self.add_address(new_address);
            },
        }
    }

    /// Adds an address whose script hash is not watched, and its script.
    fn add_address(&mut self, address: CachedAddress)
        requires
            distinct_keys(address_entries(old(self).address_map@)),
            distinct_keys(index_entries(old(self).tx_index@)),
            script_views(old(self).script_set@).no_duplicates(),
            forall|i: int|
                0 <= i < old(self).address_map@.len() ==> (#[trigger] old(
                    self,
                ).address_map@[i]).script_hash@ != address.script_hash@,
        ensures
            distinct_keys(address_entries(final(self).address_map@)),
            distinct_keys(index_entries(final(self).tx_index@)),
            script_views(final(self).script_set@).no_duplicates(),
            !old(self)@.addresses.contains_key(address.script_hash@),
            final(self)@ == (CacheState {
                addresses: old(self)@.addresses.insert(address.script_hash@, address@),
                scripts: old(self)@.scripts.insert(address.script@),
                ..old(self)@
            }),
            final(self).database() == old(self).database(),
            final(self).chain_store() == old(self).chain_store(),
    {
        let ghost addresses = address_entries(self.address_map@);
        let ghost scripts = script_views(self.script_set@);
        let ghost key = address.script_hash@;
        let ghost value = address@;
        let script: Script = address.script.copy();
        proof {
            assert forall|i: int| 0 <= i < addresses.len() implies (#[trigger] addresses[i]).0
                != key by {
                assert(self.address_map@[i].script_hash@ != key);
            }
            lemma_absent(addresses, key);
            lemma_push(addresses, key, value);
        }
        self.address_map.push(address);
        proof {
            let after = address_entries(self.address_map@);
            assert(after =~= addresses.push((key, value)));
            assert forall|a: int, b: int| 0 <= a < b < after.len() implies (#[trigger] after[a]).0 != (
            #[trigger] after[b]).0 by {
                if b == addresses.len() {
                    assert(addresses[a].0 != key);
                } else {
                    assert(addresses[a].0 != addresses[b].0);
                }
            }
        }
        if !holds_script(&self.script_set, &script) {
            self.script_set.push(script);
            proof {
                let after = script_views(self.script_set@);
                assert(after =~= scripts.push(script@));
                scripts.lemma_push_to_set_commute(script@);
                assert forall|a: int, b: int|
                    0 <= a < after.len() && 0 <= b < after.len() && a != b implies after[a]
                    != after[b] by {
                    if a == scripts.len() {
                        assert(scripts[b] == after[b]);
                    } else if b == scripts.len() {
                        assert(scripts[a] == after[a]);
                    } else {
                        assert(scripts[a] != scripts[b]);
                    }
                }
            }
        } else {
            proof {
                assert(scripts.to_set().insert(script@) =~= scripts.to_set());
            }
        }
        assert(self@ =~= (CacheState {
            addresses: old(self)@.addresses.insert(key, value),
            scripts: old(self)@.scripts.insert(script@),
            ..old(self)@
        }));
    }

    /// Caches a transaction found at `position` of the block at `height`,
    /// for the script of its output `out`, and persists the address. The
    /// transaction's id is that of its serialized bytes, and `merkle_block`
    /// is a merkle block.
    ///
    /// A script whose hash is not watched is watched from now on, with this
    /// transaction as its history. For a watched one the transaction is added
    /// at the end of its history and indexed under its id, unless the history
    /// holds an equal record already: then nothing changes.
    pub fn cache_transaction(
        &mut self,
        transaction: &Transaction,
        height: u32,
        out: &TxOut,
        merkle_block: MerkleBlock,
        position: u32,
    )
        requires
            old(self).wf(),
            transaction.valid(),
            merkle_block.valid(),
        ensures
            final(self).wf(),
            final(self)@ == cached(
                old(self)@,
                transaction_record(transaction@, height, merkle_block@, position),
                transaction.txid@,
                out.script_pubkey@,
            ),
            final(self).database() == old(self).database(),
            final(self).chain_store() == old(self).chain_store(),
            ({
                let hash = script_hash_of(out.script_pubkey@);
                let address = final(self)@.addresses[hash];
                &&& !old(self)@.addresses.contains_key(hash) ==> final(self).database().saves(
                    address,
                )
                &&& old(self)@.addresses.contains_key(hash) && final(self)@ != old(self)@
                    ==> final(self).database().updates(address)
            }),
            written_through(final(self).database(), old(self)@, final(self)@),
    {
        let ghost record = transaction_record(transaction@, height, merkle_block@, position);
        let tx_hex: Vec<u8> = hex::encode(transaction.raw.as_slice());
        let hash_text: Vec<u8> = transaction.txid.to_hex();
        proof {
            hex::lemma_encoded_is_lower_hex(transaction.raw@);
            lemma_hex_is_ascii(tx_hex@);
            hex::lemma_encoded_is_lower_hex(transaction.txid@.reverse());
            lemma_hex_is_ascii(hash_text@);
            lemma_transaction_record_txid(transaction@, height, merkle_block@, position);
            lemma_cached_is_consistent(self@, record, transaction.txid@, out.script_pubkey@);
            crate::state::lemma_transaction_record_is_valid(
                transaction@,
                height,
                merkle_block@,
                position,
            );
        }
        let transaction_to_cache = CachedTransaction {
            height,
            merkle_block: Some(merkle_block),
            tx_hex: ascii_string(tx_hex),
            hash: ascii_string(hash_text),
            position,
        };
        assert(transaction_to_cache@ =~= record);
        let hash: ScriptHash = ScriptHash::of_script(&out.script_pubkey);
        let ghost addresses = address_entries(self.address_map@);
        proof {
            crate::state::lemma_cached_is_valid(
                self@,
                record,
                transaction.txid@,
                out.script_pubkey@,
            );
        }
        match find_address(&self.address_map, &hash) {
            Some(a) => {
                proof {
                    assert(addresses[a as int].0 == hash@);
                    lemma_entry(addresses, a as int);
                }
                if holds_transaction(&self.address_map[a].transactions, &transaction_to_cache) {
                    return;
                }
                let ghost before = self.address_map@[a as int]@;
                let length: usize = self.address_map[a].transactions.len();
                index_insert(&mut self.tx_index, transaction.txid, hash, length);
                self.address_map[a].transactions.push(transaction_to_cache);
                proof {
                    let after = AddressRecord {
                        transactions: before.transactions.push(record),
                        ..before
                    };
                    assert(self.address_map@[a as int]@ =~= after);
                    lemma_update(addresses, a as int, after);
                    assert(address_entries(self.address_map@) =~= addresses.update(
                        a as int,
                        (hash@, after),
                    ));
                    assert(self@ =~= cached(
                        old(self)@,
                        record,
                        transaction.txid@,
                        out.script_pubkey@,
                    ));
                }
                self.database.update(&self.address_map[a]);
            },
            None => {
                let mut transactions: Vec<CachedTransaction> = Vec::new();
                transactions.push(transaction_to_cache);
                let new_address = CachedAddress {
                    balance: 0,
                    script_hash: hash,
                    transactions,
                    script: out.script_pubkey.copy(),
                };
                assert(new_address@ =~= crate::state::new_address(out.script_pubkey@, seq![record]));
                self.database.save(&new_address);
                self.add_address(new_address);
            },
        }
    }

    /// Applies a block: takes `acc`, the accumulator that the block led to,
    /// and caches every transaction of the block for every one of its
    /// outputs whose script is watched, each with the merkle block that
    /// proves it. Returns those transactions, each with the output that
    /// matched, in the block's order.
    ///
    /// A transaction whose id is not that of its serialized bytes, or whose
    /// merkle block does not decode, is returned but not cached.
    pub fn block_process(&mut self, block: &Block, height: u32, acc: AccumulatorSnapshot) -> (found:
        Vec<(Transaction, TxOut)>)
        requires
            old(self).wf(),
            block.txdata@.len() <= 0x7fff_ffff,
        ensures
            final(self).wf(),
            final(self)@ == applied(old(self)@, *block, height, acc@),
            final(self)@.scripts == old(self)@.scripts,
            final(self)@.accumulator == acc@,
            pairs(found@) == matching(old(self)@.scripts, *block, block.txdata@.len()),
            final(self).database() == old(self).database(),
            final(self).chain_store() == old(self).chain_store(),
            written_through(final(self).database(), old(self)@, final(self)@),
    {
        let ghost start = CacheState { accumulator: acc@, ..self@ };
        let ghost scripts = self@.scripts;
        let ghost origin = self@;
        let ghost database = self.database();
        let ghost chain_store = self.chain_store();
        proof {
            crate::state::lemma_accumulator_is_independent(self@, acc@);
            crate::state::lemma_validity_is_independent(self@, acc@);
        }
        self.acc = acc;
        assert(self@ =~= start);
        let mut my_transactions: Vec<(Transaction, TxOut)> = Vec::new();
        assert(pairs(my_transactions@) =~= Seq::<
            (crate::chain::TransactionView, crate::chain::TxOutView),
        >::empty());
        let mut position: usize = 0;
        while position < block.txdata.len()
            invariant
                position <= block.txdata@.len() <= 0x7fff_ffff,
                self.wf(),
                self.database() == database,
                self.chain_store() == chain_store,
                written_through(database, origin, self@),
                self@ == scan_block(start, *block, height, position as nat),
                self@.scripts == scripts,
                self@.accumulator == start.accumulator,
                pairs(my_transactions@) == matching(scripts, *block, position as nat),
            decreases block.txdata@.len() - position,
        {
            let transaction: &Transaction = &block.txdata[position];
            let ghost before_transaction = self@;
            let ghost found_before = pairs(my_transactions@);
            let ghost record = block_record(*block, height, position as int);
            let ghost cacheable = crate::state::block_cacheable(*block, position as int);
            let ghost outputs = transaction@.output;
            let mut n: usize = 0;
            proof {
                assert(outputs.take(0) =~= Seq::<crate::chain::TxOutView>::empty());
                assert(found_before + Seq::<
                    (crate::chain::TransactionView, crate::chain::TxOutView),
                >::empty() =~= found_before);
            }
            while n < transaction.output.len()
                invariant
                    n <= transaction.output@.len(),
                    position < block.txdata@.len() <= 0x7fff_ffff,
                    transaction == block.txdata@[position as int],
                    outputs == transaction@.output,
                    record == block_record(*block, height, position as int),
                    cacheable == crate::state::block_cacheable(*block, position as int),
                    self.wf(),
                    self.database() == database,
                    self.chain_store() == chain_store,
                    written_through(database, origin, self@),
                    self@ == scan_outputs(
                        before_transaction,
                        record,
                        transaction.txid@,
                        cacheable,
                        outputs.take(n as int),
                    ),
                    self@.scripts == scripts,
                    self@.accumulator == before_transaction.accumulator,
                    pairs(my_transactions@) == found_before + matching_outputs(
                        scripts,
                        transaction@,
                        n as nat,
                    ),
                decreases transaction.output@.len() - n,
            {
                let output: &TxOut = &transaction.output[n];
                let ghost found_so_far = pairs(my_transactions@);
                proof {
                    assert(outputs.take(n + 1).drop_last() =~= outputs.take(n as int));
                    assert(outputs.take(n + 1).last() == output@);
                    assert(outputs[n as int] == output@);
                }
                if self.is_watching(&output.script_pubkey) {
                    my_transactions.push((transaction.copy(), output.copy()));
                    let merkle_block: MerkleBlock = block.merkle_block(position);
                    proof {
                        lemma_cached_keeps_scripts(
                            self@,
                            record,
                            transaction.txid@,
                            output.script_pubkey@,
                        );
                        assert(pairs(my_transactions@) =~= found_so_far.push(
                            (transaction@, output@),
                        ));
                        let matched = matching_outputs(scripts, transaction@, n as nat);
                        assert(found_before + matched.push((transaction@, output@)) =~= (
                        found_before + matched).push((transaction@, output@)));
                    }
                    let ghost before = self@;
                    if transaction.is_valid() && merkle_block.is_valid() {
                        self.cache_transaction(
                            transaction,
                            height,
                            output,
                            merkle_block,
                            position as u32,
                        );
                        proof {
                            lemma_written_through_twice(database, origin, before, self@);
                        }
                    }
                }
                n = n + 1;
            }
            proof {
                assert(outputs.take(n as int) =~= outputs);
            }
            position = position + 1;
        }
        my_transactions
    }

    /// The text under which the accumulator is persisted.
    pub fn accumulator_text(&self) -> (text: String)
        ensures
            bytes_of(text@) == crate::accumulator::encoded_accumulator(self@.accumulator),
    {
        self.acc.to_string()
    }

    /// Hands the accumulator's text to the chain store, and returns what the
    /// store answers.
    pub fn save_acc(&self) -> (res: Result<(), Error>)
        ensures
            self.chain_store().saves(
                crate::accumulator::encoded_accumulator(self@.accumulator),
                res,
            ),
    {
        self.chain_store.save_roots(self.accumulator_text())
    }

    /// Hands `height` to the database as the height of the last block
    /// scanned, and returns what the database answers.
    pub fn bump_height(&self, height: u32) -> (res: Result<(), Error>)
        ensures
            self.database().sets_cache_height(height, res),
    {
        self.database.set_cache_height(height)
    }

    /// Prepares a new cache: hands 0 to the database as the cache height,
    /// then the wallet's descriptor, and returns what the database answers
    /// to the second. Where the first fails, its error is returned and the
    /// second is not tried.
    pub fn setup(&self, descriptor: String) -> (res: Result<(), Error>)
        ensures
            exists|first: Result<(), Error>| #[trigger]
                self.database().sets_cache_height(0, first) && match first {
                    Err(e) => res == Err::<(), Error>(e),
                    Ok(_) => self.database().saves_descriptor(bytes_of(descriptor@), res),
                },
    {
        let first = self.database.set_cache_height(0);
        let ghost given = first;
        let res = match first {
            Ok(_) => self.database.desc_save(descriptor),
            Err(e) => Err(e),
        };
        assert(self.database().sets_cache_height(0, given) && match given {
            Err(e) => res == Err::<(), Error>(e),
            Ok(_) => self.database().saves_descriptor(bytes_of(descriptor@), res),
        });
        res
    }
}

/// The bytes of each of the strings.
pub open spec fn texts(strings: Seq<String>) -> Seq<Seq<u8>> {
    strings.map_values(|s: String| bytes_of(s@))
}

/// What each pair of a transaction and an output holds.
pub open spec fn pairs(found: Seq<(Transaction, TxOut)>) -> Seq<
    (crate::chain::TransactionView, crate::chain::TxOutView),
> {
    found.map_values(|p: (Transaction, TxOut)| (p.0@, p.1@))
}

/// Whether the list holds a record equal to `transaction` in every field.
fn holds_transaction(list: &Vec<CachedTransaction>, transaction: &CachedTransaction) -> (found:
    bool)
    ensures
        found == records(list@).contains(transaction@),
{
    let mut i: usize = 0;
    while i < list.len()
        invariant
            i <= list@.len(),
            forall|k: int| 0 <= k < i ==> (#[trigger] list@[k])@ != transaction@,
        decreases list@.len() - i,
    {
        if list[i].same(transaction) {
            assert(records(list@)[i as int] == transaction@);
            return true;
        }
        i = i + 1;
    }
    assert forall|k: int| 0 <= k < records(list@).len() implies records(list@)[k]
        != transaction@ by {
        assert(list@[k]@ != transaction@);
    }
    false
}

/// The first and the last height that are still to be scanned, given what
/// the database answered when asked for the cache height: the height after
/// it and `current_height`. A cache height of `u32::MAX` has no height after
/// it, and gives 1 and 0, between which no height lies.
pub open spec fn window(stored: Result<u32, Error>, current_height: u32) -> Result<
    (u32, u32),
    Error,
> {
    match stored {
        Err(e) => Err(e),
        Ok(height) => if height == u32::MAX {
            Ok((1u32, 0u32))
        } else {
            Ok(((height + 1) as u32, current_height))
        },
    }
}

/// Whether `res` is the range from the first to the last height of `limits`,
/// both included, or the error of `limits`.
pub open spec fn is_window(
    res: Result<RangeInclusive<u32>, Error>,
    limits: Result<(u32, u32), Error>,
) -> bool {
    match limits {
        Err(e) => res == Err::<RangeInclusive<u32>, Error>(e),
        Ok((first, last)) => {
            &&& res matches Ok(range)
            &&& range@.start == first
            &&& range@.end == last
            &&& !range@.exhausted
        },
    }
}

/// The heights that are still to be scanned, given what the database
/// answered when asked for the cache height: from the height after it up to
/// `current_height`, both included. The range is empty where
/// `current_height` is no greater than the cache height, and so it is for a
/// cache height of `u32::MAX`, which no height follows.
///
/// An error of the database is handed on.
pub fn sync_limits(stored: Result<u32, Error>, current_height: u32) -> (res: Result<
    RangeInclusive<u32>,
    Error,
>)
    ensures
        is_window(res, window(stored, current_height)),
        stored matches Ok(height) ==> {
            &&& res matches Ok(range)
            &&& range@.start > range@.end <==> current_height <= height
            &&& height < u32::MAX ==> range@.start == height + 1 && range@.end == current_height
        },
{
    match stored {
        Err(e) => Err(e),
        Ok(height) => {
            if height == u32::MAX {
                Ok(RangeInclusive::new(1, 0))
            } else {
                Ok(RangeInclusive::new(height + 1, current_height))
            }
        },
    }
}

} // verus!
