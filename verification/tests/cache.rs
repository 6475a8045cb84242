use address_cache::accumulator::AccumulatorSnapshot;
use address_cache::cache::{sync_limits, AddressCache};
use address_cache::chain::{Block, MerkleBlock, Script, ScriptHash, Transaction, TxOut, Txid};
use address_cache::database::{
    cache_height, descriptor, height_text, is_reserved_key, load_addresses, AddressCacheDatabase,
    ChainStore,
};
use address_cache::error::Error;
use address_cache::hex;
use address_cache::record::{CachedAddress, CachedTransaction};
use std::cell::RefCell;
use std::collections::BTreeMap;
use std::rc::Rc;

const BLOCK_80000: &str = "01000000ba8b9cda965dd8e536670f9ddec10e53aab14b20bacad27b9137190000000000190760b278fe7b8565fda3b968b918d5fd997f993b23674c0af3b6fde300b38f33a5914ce6ed5b1b01e32f570201000000010000000000000000000000000000000000000000000000000000000000000000ffffffff0704e6ed5b1b014effffffff0100f2052a01000000434104b68a50eaa0287eff855189f949c1c6e5f58b37c88231373d8a59809cbae83059cc6469d65c665ccfd1cfeb75c6e8e19413bba7fbff9bc762419a76d87b16086eac000000000100000001a6b97044d03da79c005b20ea9c0e1a6d9dc12d9f7b91a5911c9030a439eed8f5000000004948304502206e21798a42fae0e854281abd38bacd1aeed3ee3738d9e1446618c4571d1090db022100e2ac980643b0b82c0e88ffdfec6b64e3e6ba35e7ba5fdd7d5d6cc8d25c6b241501ffffffff0100f2052a010000001976a914404371705fa9bd789a2fcd52d2c580b65d35549d88ac00000000";
const COINBASE_TXID: &str = "c06fbab289f723c6261d3030ddb6be121f7d2508d77862bb1e484f5cd7f92b25";
const COINBASE_SCRIPT: &str = "4104b68a50eaa0287eff855189f949c1c6e5f58b37c88231373d8a59809cbae83059cc6469d65c665ccfd1cfeb75c6e8e19413bba7fbff9bc762419a76d87b16086eac";
const COINBASE_SCRIPT_HASH: &str = "2a723e4b471cac2844679c53febb7d90dfafd3a4dc89281a741ce1b489680e62";
const SPEND_HEX: &str = "0100000001a6b97044d03da79c005b20ea9c0e1a6d9dc12d9f7b91a5911c9030a439eed8f5000000004948304502206e21798a42fae0e854281abd38bacd1aeed3ee3738d9e1446618c4571d1090db022100e2ac980643b0b82c0e88ffdfec6b64e3e6ba35e7ba5fdd7d5d6cc8d25c6b241501ffffffff0100f2052a010000001976a914404371705fa9bd789a2fcd52d2c580b65d35549d88ac00000000";
const SPEND_TXID: &str = "5a4ebf66822b0b2d56bd9dc64ece0bc38ee7844a23ff1d7320a88c5fdb2ad3e2";
const SPEND_SCRIPT: &str = "76a914404371705fa9bd789a2fcd52d2c580b65d35549d88ac";
const SPEND_SCRIPT_HASH: &str = "5b080850205375a8e1cf83ea173c7fbfb4fd432c03d013dc833c7cd876b905a7";
const SPEND_MERKLE_BLOCK: &str = "01000000ba8b9cda965dd8e536670f9ddec10e53aab14b20bacad27b9137190000000000190760b278fe7b8565fda3b968b918d5fd997f993b23674c0af3b6fde300b38f33a5914ce6ed5b1b01e32f570200000002252bf9d75c4f481ebb6278d708257d1f12beb6dd30301d26c623f789b2ba6fc0e2d32adb5f8ca820731dff234a84e78ec30bce4ec69dbd562d0b2b8266bf4e5a0105";

type Entries = Rc<RefCell<BTreeMap<String, String>>>;

/// A store in memory that outlives the cache that writes to it.
struct MemoryDatabase {
    entries: Entries,
}

impl AddressCacheDatabase for MemoryDatabase {
    fn save(&self, address: &CachedAddress) {
        self.entries.borrow_mut().insert(address.key(), address.to_string());
    }

    fn load(&self) -> Result<Vec<CachedAddress>, Error> {
        let entries: Vec<(String, String)> =
            self.entries.borrow().iter().map(|(k, v)| (k.clone(), v.clone())).collect();
        load_addresses(&entries)
    }

    fn update(&self, address: &CachedAddress) {
        self.save(address)
    }

    fn get_cache_height(&self) -> Result<u32, Error> {
        cache_height(self.entries.borrow().get("height").cloned())
    }

    fn set_cache_height(&self, height: u32) -> Result<(), Error> {
        self.entries.borrow_mut().insert("height".to_string(), height_text(height));
        Ok(())
    }

    fn desc_save(&self, descriptor: String) -> Result<(), Error> {
        self.entries.borrow_mut().insert("desc".to_string(), descriptor);
        Ok(())
    }

    fn desc_get(&self) -> Result<String, Error> {
        descriptor(self.entries.borrow().get("desc").cloned())
    }
}

struct MemoryChainStore {
    roots: Rc<RefCell<Option<String>>>,
}

impl ChainStore for MemoryChainStore {
    fn load_roots(&self) -> Result<Option<String>, Error> {
        Ok(self.roots.borrow().clone())
    }

    fn save_roots(&self, roots: String) -> Result<(), Error> {
        *self.roots.borrow_mut() = Some(roots);
        Ok(())
    }
}

struct BrokenStore;

impl AddressCacheDatabase for BrokenStore {
    fn save(&self, _address: &CachedAddress) {}

    fn load(&self) -> Result<Vec<CachedAddress>, Error> {
        Err(Error::DatabaseError("load".to_string()))
    }

    fn update(&self, _address: &CachedAddress) {}

    fn get_cache_height(&self) -> Result<u32, Error> {
        Err(Error::DatabaseError("height".to_string()))
    }

    fn set_cache_height(&self, _height: u32) -> Result<(), Error> {
        Err(Error::DatabaseError("set height".to_string()))
    }

    fn desc_save(&self, _descriptor: String) -> Result<(), Error> {
        Err(Error::DatabaseError("descriptor".to_string()))
    }

    fn desc_get(&self) -> Result<String, Error> {
        Err(Error::DatabaseError("descriptor".to_string()))
    }
}

impl ChainStore for BrokenStore {
    fn load_roots(&self) -> Result<Option<String>, Error> {
        Err(Error::DatabaseError("roots".to_string()))
    }

    fn save_roots(&self, _roots: String) -> Result<(), Error> {
        Err(Error::DatabaseError("save roots".to_string()))
    }
}

type Cache = AddressCache<MemoryDatabase, MemoryChainStore>;

fn empty_cache() -> (Cache, Entries, Rc<RefCell<Option<String>>>) {
    let entries: Entries = Rc::new(RefCell::new(BTreeMap::new()));
    let roots = Rc::new(RefCell::new(None));
    let cache = open_cache(&entries, &roots).unwrap();
    (cache, entries, roots)
}

fn open_cache(entries: &Entries, roots: &Rc<RefCell<Option<String>>>) -> Result<Cache, Error> {
    AddressCache::new(
        MemoryDatabase { entries: entries.clone() },
        MemoryChainStore { roots: roots.clone() },
    )
}

fn bytes(hex_text: &str) -> Vec<u8> {
    hex::decode(hex_text.as_bytes()).unwrap()
}

fn script(hex_text: &str) -> Script {
    Script { bytes: bytes(hex_text) }
}

fn script_hash(hex_text: &str) -> ScriptHash {
    ScriptHash::from_hex(hex_text.as_bytes()).unwrap()
}

fn txid(hex_text: &str) -> Txid {
    Txid::from_hex(hex_text.as_bytes()).unwrap()
}

fn transaction(tx: &bitcoin::Transaction) -> Transaction {
    Transaction {
        raw: bitcoin::consensus::serialize(tx),
        txid: Txid { bytes: bitcoin::hashes::Hash::into_inner(tx.txid()) },
        output: tx
            .output
            .iter()
            .map(|out| TxOut {
                value: out.value,
                script_pubkey: Script { bytes: out.script_pubkey.to_bytes() },
            })
            .collect(),
    }
}

fn block_80000() -> Block {
    let parsed: bitcoin::Block = bitcoin::consensus::deserialize(&bytes(BLOCK_80000)).unwrap();
    let mut header = [0u8; 80];
    header.copy_from_slice(&bitcoin::consensus::serialize(&parsed.header));
    Block { header, txdata: parsed.txdata.iter().map(transaction).collect() }
}

fn spend_record(height: u32) -> CachedTransaction {
    CachedTransaction {
        tx_hex: SPEND_HEX.to_string(),
        height,
        merkle_block: Some(MerkleBlock { bytes: bytes(SPEND_MERKLE_BLOCK) }),
        hash: SPEND_TXID.to_string(),
        position: 1,
    }
}

fn next_accumulator() -> AccumulatorSnapshot {
    AccumulatorSnapshot { leaves: 2, roots: vec![[0x42; 32]] }
}

#[test]
fn new_cache_is_empty() {
    let (cache, entries, _) = empty_cache();
    assert_eq!(cache.address_count(), 0);
    assert_eq!(cache.script_count(), 0);
    assert_eq!(cache.accumulator(), &AccumulatorSnapshot::new());
    assert!(entries.borrow().is_empty());
    assert_eq!(cache.get_address_history(&script_hash(SPEND_SCRIPT_HASH)), vec![]);
    assert_eq!(cache.get_address_balance(&script_hash(SPEND_SCRIPT_HASH)), 0);
    assert_eq!(cache.get_height(&txid(SPEND_TXID)), None);
    assert_eq!(cache.get_cached_transaction(&txid(SPEND_TXID)), None);
    assert_eq!(cache.get_merkle_proof(&txid(SPEND_TXID)), None);
}

#[test]
fn watching_a_script_adds_and_saves_an_empty_address() {
    let (mut cache, entries, _) = empty_cache();
    cache.cache_address(script(SPEND_SCRIPT));
    assert_eq!(cache.address_count(), 1);
    assert_eq!(cache.script_count(), 1);
    assert!(cache.is_watching(&script(SPEND_SCRIPT)));
    assert!(!cache.is_watching(&script(COINBASE_SCRIPT)));
    assert_eq!(cache.get_address_balance(&script_hash(SPEND_SCRIPT_HASH)), 0);
    assert_eq!(cache.get_address_history(&script_hash(SPEND_SCRIPT_HASH)), vec![]);
    assert_eq!(entries.borrow().len(), 1);
    assert_eq!(
        entries.borrow().get(SPEND_SCRIPT_HASH),
        Some(&format!("{}:0:{}:", SPEND_SCRIPT_HASH, SPEND_SCRIPT))
    );
}

#[test]
fn watching_a_script_twice_changes_nothing() {
    let (mut cache, _, _) = empty_cache();
    let block = block_80000();
    cache.cache_address(script(SPEND_SCRIPT));
    cache.block_process(&block, 100, next_accumulator());
    assert_eq!(cache.get_address_history(&script_hash(SPEND_SCRIPT_HASH)).len(), 1);
    cache.cache_address(script(SPEND_SCRIPT));
    assert_eq!(cache.address_count(), 1);
    assert_eq!(cache.script_count(), 1);
    assert_eq!(cache.get_address_history(&script_hash(SPEND_SCRIPT_HASH)).len(), 1);
    assert_eq!(cache.get_height(&txid(SPEND_TXID)), Some(100));
}

#[test]
fn block_with_a_payment_to_a_watched_script() {
    let (mut cache, entries, _) = empty_cache();
    let block = block_80000();
    cache.cache_address(script(SPEND_SCRIPT));
    let found = cache.block_process(&block, 100, next_accumulator());
    assert_eq!(found.len(), 1);
    assert_eq!(found[0].0, block.txdata[1]);
    assert_eq!(found[0].1, block.txdata[1].output[0]);
    assert_eq!(found[0].1.value, 5000000000);

    let history = cache.get_address_history(&script_hash(SPEND_SCRIPT_HASH));
    assert_eq!(history.len(), 1);
    assert_eq!(history[0], spend_record(100));
    assert_eq!(cache.get_height(&txid(SPEND_TXID)), Some(100));
    assert_eq!(cache.get_cached_transaction(&txid(SPEND_TXID)), Some(SPEND_HEX.to_string()));

    let (siblings, position) = cache.get_merkle_proof(&txid(SPEND_TXID)).unwrap();
    assert_eq!(position, 1);
    assert_eq!(siblings, vec![COINBASE_TXID.to_string()]);
    assert!(!siblings.contains(&SPEND_TXID.to_string()));

    assert_eq!(cache.get_height(&txid(COINBASE_TXID)), None);
    assert_eq!(cache.accumulator(), &next_accumulator());
    assert_eq!(cache.get_address_balance(&script_hash(SPEND_SCRIPT_HASH)), 0);
    assert_eq!(
        entries.borrow().get(SPEND_SCRIPT_HASH),
        Some(&format!(
            "{}:0:{}:{};100;1;{}:",
            SPEND_SCRIPT_HASH, SPEND_SCRIPT, SPEND_HEX, SPEND_MERKLE_BLOCK
        ))
    );
}

#[test]
fn block_without_watched_scripts_only_moves_the_accumulator() {
    let (mut cache, entries, _) = empty_cache();
    let found = cache.block_process(&block_80000(), 100, next_accumulator());
    assert!(found.is_empty());
    assert_eq!(cache.address_count(), 0);
    assert_eq!(cache.script_count(), 0);
    assert_eq!(cache.accumulator(), &next_accumulator());
    assert!(entries.borrow().is_empty());
}

#[test]
fn block_with_both_scripts_watched_finds_both_in_order() {
    let (mut cache, _, _) = empty_cache();
    let block = block_80000();
    cache.cache_address(script(SPEND_SCRIPT));
    cache.cache_address(script(COINBASE_SCRIPT));
    let found = cache.block_process(&block, 80000, next_accumulator());
    assert_eq!(found.len(), 2);
    assert_eq!(found[0].0.txid, txid(COINBASE_TXID));
    assert_eq!(found[1].0.txid, txid(SPEND_TXID));
    assert_eq!(cache.get_height(&txid(COINBASE_TXID)), Some(80000));
    let (siblings, position) = cache.get_merkle_proof(&txid(COINBASE_TXID)).unwrap();
    assert_eq!(position, 0);
    assert_eq!(siblings, vec![SPEND_TXID.to_string()]);
    let (siblings, position) = cache.get_merkle_proof(&txid(SPEND_TXID)).unwrap();
    assert_eq!(position, 1);
    assert_eq!(siblings, vec![COINBASE_TXID.to_string()]);
    assert_eq!(cache.get_address_history(&script_hash(COINBASE_SCRIPT_HASH)).len(), 1);
}

#[test]
fn block_with_a_transaction_paying_twice_is_cached_once() {
    let (mut cache, _, _) = empty_cache();
    let mut block = block_80000();
    let again = block.txdata[1].output[0].clone();
    block.txdata[1].output.push(again);
    cache.cache_address(script(SPEND_SCRIPT));
    let found = cache.block_process(&block, 100, next_accumulator());
    assert_eq!(found.len(), 2);
    assert_eq!(cache.get_address_history(&script_hash(SPEND_SCRIPT_HASH)).len(), 1);
}

#[test]
fn processing_a_block_twice_does_not_repeat_the_history() {
    let (mut cache, _, _) = empty_cache();
    let block = block_80000();
    cache.cache_address(script(SPEND_SCRIPT));
    cache.block_process(&block, 100, next_accumulator());
    let found = cache.block_process(&block, 100, next_accumulator());
    assert_eq!(found.len(), 1);
    assert_eq!(cache.get_address_history(&script_hash(SPEND_SCRIPT_HASH)).len(), 1);
    // At another height the record is another one.
    cache.block_process(&block, 101, next_accumulator());
    let history = cache.get_address_history(&script_hash(SPEND_SCRIPT_HASH));
    assert_eq!(history.len(), 2);
    assert_eq!(history[0].height, 100);
    assert_eq!(history[1].height, 101);
    assert_eq!(cache.get_height(&txid(SPEND_TXID)), Some(101));
}

#[test]
fn caching_a_transaction_twice_keeps_the_history_length() {
    let (mut cache, _, _) = empty_cache();
    let block = block_80000();
    let spend = &block.txdata[1];
    cache.cache_address(script(SPEND_SCRIPT));
    cache.cache_transaction(spend, 7, &spend.output[0], block.merkle_block(1), 1);
    let once = cache.get_address_history(&script_hash(SPEND_SCRIPT_HASH));
    cache.cache_transaction(spend, 7, &spend.output[0], block.merkle_block(1), 1);
    let twice = cache.get_address_history(&script_hash(SPEND_SCRIPT_HASH));
    assert_eq!(once.len(), 1);
    assert_eq!(twice.len(), 1);
    assert_eq!(once, twice);
    assert_eq!(cache.address_count(), 1);
}

#[test]
fn caching_for_an_unwatched_script_begins_to_watch_it() {
    let (mut cache, entries, _) = empty_cache();
    let block = block_80000();
    let spend = &block.txdata[1];
    cache.cache_transaction(spend, 7, &spend.output[0], block.merkle_block(1), 1);
    assert_eq!(cache.address_count(), 1);
    assert_eq!(cache.script_count(), 1);
    assert!(cache.is_watching(&script(SPEND_SCRIPT)));
    let history = cache.get_address_history(&script_hash(SPEND_SCRIPT_HASH));
    assert_eq!(history, vec![spend_record(7)]);
    assert_eq!(cache.get_address_balance(&script_hash(SPEND_SCRIPT_HASH)), 0);
    assert_eq!(entries.borrow().len(), 1);
    // The index is filled for watched addresses only.
    assert_eq!(cache.get_height(&txid(SPEND_TXID)), None);
    // A second time the address is watched, and the record is there already.
    cache.cache_transaction(spend, 7, &spend.output[0], block.merkle_block(1), 1);
    assert_eq!(cache.address_count(), 1);
    assert_eq!(cache.get_address_history(&script_hash(SPEND_SCRIPT_HASH)).len(), 1);
}

#[test]
fn index_points_at_the_transaction_with_that_id() {
    let (mut cache, _, _) = empty_cache();
    let block = block_80000();
    cache.cache_address(script(SPEND_SCRIPT));
    cache.cache_address(script(COINBASE_SCRIPT));
    cache.block_process(&block, 1, next_accumulator());
    cache.block_process(&block, 2, next_accumulator());
    for (id, hash) in [(SPEND_TXID, SPEND_SCRIPT_HASH), (COINBASE_TXID, COINBASE_SCRIPT_HASH)] {
        let indexed = cache.get_transaction(&txid(id)).unwrap();
        assert_eq!(indexed.hash, id);
        assert_eq!(indexed.height, 2);
        let history = cache.get_address_history(&script_hash(hash));
        assert_eq!(history.len(), 2);
        assert_eq!(history[1], indexed);
        assert_eq!(Txid::from_hex(indexed.hash.as_bytes()), Some(txid(id)));
    }
}

#[test]
fn merkle_proof_needs_a_proof() {
    let mut bare = spend_record(3);
    bare.merkle_block = None;
    let address =
        CachedAddress::_new(script_hash(SPEND_SCRIPT_HASH), 0, vec![bare], script(SPEND_SCRIPT));
    let cache = AddressCache::with_state(
        BrokenStore,
        BrokenStore,
        vec![address],
        AccumulatorSnapshot::new(),
    )
    .unwrap();
    assert_eq!(cache.get_height(&txid(SPEND_TXID)), Some(3));
    assert_eq!(cache.get_cached_transaction(&txid(SPEND_TXID)), Some(SPEND_HEX.to_string()));
    assert_eq!(cache.get_merkle_proof(&txid(SPEND_TXID)), None);
}

#[test]
fn with_state_refuses_a_proof_that_is_no_merkle_block() {
    for proof in [vec![], vec![1, 2, 3]] {
        let mut broken = spend_record(3);
        broken.merkle_block = Some(MerkleBlock { bytes: proof });
        let address = CachedAddress::_new(
            script_hash(SPEND_SCRIPT_HASH),
            0,
            vec![spend_record(1), broken],
            script(SPEND_SCRIPT),
        );
        let cache = AddressCache::with_state(
            BrokenStore,
            BrokenStore,
            vec![address],
            AccumulatorSnapshot::new(),
        );
        assert_eq!(cache.err(), Some(Error::DbParseError));
    }
}

#[test]
fn with_state_refuses_an_id_of_another_transaction() {
    let mut record = spend_record(1);
    record.hash = COINBASE_TXID.to_string();
    assert!(!record.is_valid());
    assert!(spend_record(1).is_valid());
    let address =
        CachedAddress::_new(script_hash(SPEND_SCRIPT_HASH), 0, vec![record], script(SPEND_SCRIPT));
    let cache = AddressCache::with_state(
        BrokenStore,
        BrokenStore,
        vec![address],
        AccumulatorSnapshot::new(),
    );
    assert_eq!(cache.err(), Some(Error::DbParseError));
    let mut other = spend_record(1);
    other.tx_hex = "00".to_string();
    assert!(!other.is_valid());
    other.tx_hex = "zz".to_string();
    assert!(!other.is_valid());
}

#[test]
fn block_with_a_transaction_under_another_id_finds_it_and_caches_nothing() {
    let (mut cache, entries, _) = empty_cache();
    let mut block = block_80000();
    block.txdata[1].txid = txid(COINBASE_TXID);
    assert!(!block.txdata[1].is_valid());
    assert!(block.txdata[0].is_valid());
    cache.cache_address(script(SPEND_SCRIPT));
    let found = cache.block_process(&block, 100, next_accumulator());
    assert_eq!(found.len(), 1);
    assert_eq!(cache.get_address_history(&script_hash(SPEND_SCRIPT_HASH)).len(), 0);
    assert_eq!(cache.get_height(&txid(COINBASE_TXID)), None);
    assert_eq!(
        entries.borrow().get(SPEND_SCRIPT_HASH),
        Some(&format!("{}:0:{}:", SPEND_SCRIPT_HASH, SPEND_SCRIPT))
    );
}

#[test]
fn merkle_block_is_valid_where_it_decodes() {
    assert!(MerkleBlock { bytes: bytes(SPEND_MERKLE_BLOCK) }.is_valid());
    assert!(block_80000().merkle_block(0).is_valid());
    assert!(!MerkleBlock { bytes: vec![] }.is_valid());
    assert!(!MerkleBlock { bytes: vec![0u8; 80] }.is_valid());
}

#[test]
fn cache_is_rebuilt_from_what_was_saved() {
    let (mut cache, entries, roots) = empty_cache();
    let block = block_80000();
    cache.cache_address(script(SPEND_SCRIPT));
    cache.cache_address(script(COINBASE_SCRIPT));
    cache.cache_address(script("00"));
    cache.block_process(&block, 100, next_accumulator());
    cache.save_acc().unwrap();
    cache.setup("wpkh(xpub)".to_string()).unwrap();
    cache.bump_height(100).unwrap();
    assert_eq!(entries.borrow().len(), 5);

    let again = open_cache(&entries, &roots).unwrap();
    assert_eq!(again.address_count(), 3);
    assert_eq!(again.script_count(), 3);
    assert_eq!(again.accumulator(), &next_accumulator());
    for hash in [SPEND_SCRIPT_HASH, COINBASE_SCRIPT_HASH] {
        assert_eq!(
            again.get_address_history(&script_hash(hash)),
            cache.get_address_history(&script_hash(hash))
        );
    }
    for id in [SPEND_TXID, COINBASE_TXID] {
        assert_eq!(again.get_height(&txid(id)), Some(100));
        assert_eq!(again.get_merkle_proof(&txid(id)), cache.get_merkle_proof(&txid(id)));
        assert_eq!(again.get_cached_transaction(&txid(id)), cache.get_cached_transaction(&txid(id)));
    }
    assert!(again.is_watching(&script("00")));
}

#[test]
fn with_state_indexes_the_last_of_two_equal_ids() {
    let first = CachedAddress::_new(
        script_hash(SPEND_SCRIPT_HASH),
        1,
        vec![spend_record(1), spend_record(2)],
        script(SPEND_SCRIPT),
    );
    let second = CachedAddress::_new(
        script_hash(COINBASE_SCRIPT_HASH),
        2,
        vec![spend_record(3)],
        script(COINBASE_SCRIPT),
    );
    let cache = AddressCache::with_state(
        BrokenStore,
        BrokenStore,
        vec![first, second],
        AccumulatorSnapshot::new(),
    )
    .unwrap();
    assert_eq!(cache.address_count(), 2);
    assert_eq!(cache.script_count(), 2);
    assert_eq!(cache.get_height(&txid(SPEND_TXID)), Some(3));
    assert_eq!(cache.get_address_balance(&script_hash(SPEND_SCRIPT_HASH)), 1);
    assert_eq!(cache.get_address_balance(&script_hash(COINBASE_SCRIPT_HASH)), 2);
    assert_eq!(cache.get_address_history(&script_hash(SPEND_SCRIPT_HASH)).len(), 2);
}

#[test]
fn with_state_keeps_the_later_of_two_addresses_with_one_hash() {
    let earlier = CachedAddress::_new(
        script_hash(SPEND_SCRIPT_HASH),
        1,
        vec![spend_record(1), spend_record(2)],
        script(SPEND_SCRIPT),
    );
    let between =
        CachedAddress::_new(script_hash(COINBASE_SCRIPT_HASH), 5, vec![], script(COINBASE_SCRIPT));
    let later = CachedAddress::_new(
        script_hash(SPEND_SCRIPT_HASH),
        2,
        vec![spend_record(3)],
        script("00"),
    );
    let cache = AddressCache::with_state(
        BrokenStore,
        BrokenStore,
        vec![earlier, between, later],
        AccumulatorSnapshot::new(),
    )
    .unwrap();
    assert_eq!(cache.address_count(), 2);
    assert_eq!(cache.get_address_balance(&script_hash(SPEND_SCRIPT_HASH)), 2);
    assert_eq!(cache.get_address_balance(&script_hash(COINBASE_SCRIPT_HASH)), 5);
    assert_eq!(cache.get_address_history(&script_hash(SPEND_SCRIPT_HASH)), vec![spend_record(3)]);
    assert_eq!(cache.get_height(&txid(SPEND_TXID)), Some(3));
    // The earlier one is left out with its script.
    assert_eq!(cache.script_count(), 2);
    assert!(cache.is_watching(&script("00")));
    assert!(cache.is_watching(&script(COINBASE_SCRIPT)));
    assert!(!cache.is_watching(&script(SPEND_SCRIPT)));
}

#[test]
fn with_state_refuses_an_earlier_address_that_cannot_be_read() {
    let mut record = spend_record(1);
    record.hash = COINBASE_TXID.to_string();
    let earlier =
        CachedAddress::_new(script_hash(SPEND_SCRIPT_HASH), 1, vec![record], script(SPEND_SCRIPT));
    let later =
        CachedAddress::_new(script_hash(SPEND_SCRIPT_HASH), 2, vec![], script(SPEND_SCRIPT));
    let cache = AddressCache::with_state(
        BrokenStore,
        BrokenStore,
        vec![earlier, later],
        AccumulatorSnapshot::new(),
    );
    assert_eq!(cache.err(), Some(Error::DbParseError));
}

#[test]
fn with_state_refuses_a_hash_that_is_no_txid() {
    let mut record = spend_record(1);
    record.hash = "not a txid".to_string();
    let address = CachedAddress::_new(
        script_hash(SPEND_SCRIPT_HASH),
        0,
        vec![record],
        script(SPEND_SCRIPT),
    );
    let cache = AddressCache::with_state(
        BrokenStore,
        BrokenStore,
        vec![address],
        AccumulatorSnapshot::new(),
    );
    assert_eq!(cache.err(), Some(Error::DbParseError));
}

#[test]
fn with_state_takes_a_hash_that_is_not_that_of_the_script() {
    let first =
        CachedAddress::_new(script_hash(SPEND_SCRIPT_HASH), 0, vec![], script(SPEND_SCRIPT));
    let second =
        CachedAddress::_new(script_hash(COINBASE_SCRIPT_HASH), 7, vec![], script(SPEND_SCRIPT));
    let mut cache = AddressCache::with_state(
        BrokenStore,
        BrokenStore,
        vec![first, second],
        AccumulatorSnapshot::new(),
    )
    .unwrap();
    assert_eq!(cache.address_count(), 2);
    assert_eq!(cache.script_count(), 1);
    assert_eq!(cache.get_address_balance(&script_hash(COINBASE_SCRIPT_HASH)), 7);
    // The script of the block's first transaction is not watched, though
    // its hash is: nothing is found for it.
    let block = block_80000();
    let found = cache.block_process(&block, 9, next_accumulator());
    assert_eq!(found.len(), 1);
    assert_eq!(found[0].0.txid, txid(SPEND_TXID));
}

#[test]
fn new_builds_the_cache_of_a_record_under_another_hash() {
    let entries: Entries = Rc::new(RefCell::new(BTreeMap::new()));
    let roots = Rc::new(RefCell::new(None));
    entries.borrow_mut().insert(
        COINBASE_SCRIPT_HASH.to_string(),
        format!("{}:3:{}:", COINBASE_SCRIPT_HASH, SPEND_SCRIPT),
    );
    let cache = open_cache(&entries, &roots).unwrap();
    assert_eq!(cache.address_count(), 1);
    assert_eq!(cache.script_count(), 1);
    assert!(cache.is_watching(&script(SPEND_SCRIPT)));
    assert_eq!(cache.get_address_balance(&script_hash(COINBASE_SCRIPT_HASH)), 3);
    assert_eq!(cache.get_address_balance(&script_hash(SPEND_SCRIPT_HASH)), 0);
}

#[test]
fn new_hands_on_the_errors_of_the_stores() {
    let entries: Entries = Rc::new(RefCell::new(BTreeMap::new()));
    let roots = Rc::new(RefCell::new(None));
    let broken_database = AddressCache::new(BrokenStore, MemoryChainStore { roots: roots.clone() });
    assert_eq!(broken_database.err(), Some(Error::DatabaseError("load".to_string())));
    let broken_chain = AddressCache::new(MemoryDatabase { entries: entries.clone() }, BrokenStore);
    assert_eq!(broken_chain.err(), Some(Error::DatabaseError("roots".to_string())));
}

#[test]
fn new_refuses_a_corrupt_store() {
    let entries: Entries = Rc::new(RefCell::new(BTreeMap::new()));
    let roots = Rc::new(RefCell::new(None));
    entries.borrow_mut().insert(SPEND_SCRIPT_HASH.to_string(), "nonsense".to_string());
    assert_eq!(open_cache(&entries, &roots).err(), Some(Error::DbParseError));
    entries.borrow_mut().clear();
    *roots.borrow_mut() = Some("five roots".to_string());
    assert_eq!(open_cache(&entries, &roots).err(), Some(Error::DbParseError));
}

#[test]
fn saved_accumulator_is_loaded_again() {
    let (mut cache, entries, roots) = empty_cache();
    let acc = AccumulatorSnapshot { leaves: 77, roots: vec![[0x01; 32], [0xfe; 32]] };
    cache.block_process(&block_80000(), 1, acc.clone());
    assert_eq!(cache.accumulator_text(), format!("77 {}{}", "01".repeat(32), "fe".repeat(32)));
    assert_eq!(*roots.borrow(), None);
    cache.save_acc().unwrap();
    assert_eq!(*roots.borrow(), Some(format!("77 {}{}", "01".repeat(32), "fe".repeat(32))));
    let again = open_cache(&entries, &roots).unwrap();
    assert_eq!(again.accumulator(), &acc);
    let loaded = Cache::load_acc(&MemoryChainStore { roots: roots.clone() });
    assert_eq!(loaded, Ok(acc));
}

#[test]
fn setup_stores_height_zero_and_the_descriptor() {
    let (cache, entries, _) = empty_cache();
    assert_eq!(cache.get_sync_limits(10).err(), Some(Error::WalletNotInitialized));
    cache.setup("wpkh(xpub)".to_string()).unwrap();
    assert_eq!(entries.borrow().get("height"), Some(&"0".to_string()));
    assert_eq!(entries.borrow().get("desc"), Some(&"wpkh(xpub)".to_string()));
    assert_eq!(cache.get_sync_limits(10), Ok(1..=10));
    // Neither of the two is taken for an address.
    let again = open_cache(&entries, &Rc::new(RefCell::new(None))).unwrap();
    assert_eq!(again.address_count(), 0);
}

#[test]
fn sync_limits_follow_the_cache_height() {
    let (cache, entries, _) = empty_cache();
    cache.bump_height(5).unwrap();
    assert_eq!(entries.borrow().get("height"), Some(&"5".to_string()));
    assert_eq!(cache.get_sync_limits(10), Ok(6..=10));
    assert_eq!(cache.get_sync_limits(6), Ok(6..=6));
    let none = cache.get_sync_limits(5).unwrap();
    assert_eq!(none, 6..=5);
    assert!(none.is_empty());
    assert!(cache.get_sync_limits(0).unwrap().is_empty());
    cache.bump_height(4294967294).unwrap();
    assert_eq!(cache.get_sync_limits(u32::MAX), Ok(u32::MAX..=u32::MAX));
    cache.bump_height(u32::MAX).unwrap();
    let none = cache.get_sync_limits(u32::MAX).unwrap();
    assert!(none.is_empty());
    assert!(cache.get_sync_limits(7).unwrap().is_empty());
}

#[test]
fn sync_limits_of_each_answer() {
    assert_eq!(sync_limits(Ok(0), 0), Ok(1..=0));
    assert_eq!(sync_limits(Ok(99), 150), Ok(100..=150));
    assert_eq!(sync_limits(Ok(150), 99).map(|range| range.count()), Ok(0));
    assert_eq!(sync_limits(Ok(99), 150).map(|range| range.count()), Ok(51));
    assert_eq!(sync_limits(Err(Error::WalletNotInitialized), 1), Err(Error::WalletNotInitialized));
    assert_eq!(
        sync_limits(Err(Error::DatabaseError("gone".to_string())), 1),
        Err(Error::DatabaseError("gone".to_string()))
    );
    assert_eq!(sync_limits(Ok(u32::MAX), 1), Ok(1..=0));
    assert_eq!(sync_limits(Ok(u32::MAX), u32::MAX), Ok(1..=0));
    assert_eq!(sync_limits(Ok(u32::MAX), u32::MAX).map(|range| range.is_empty()), Ok(true));
    assert_eq!(sync_limits(Ok(u32::MAX - 1), u32::MAX), Ok(u32::MAX..=u32::MAX));
}

#[test]
fn operations_hand_on_the_errors_of_the_stores() {
    let cache =
        AddressCache::with_state(BrokenStore, BrokenStore, vec![], AccumulatorSnapshot::new())
            .unwrap();
    assert_eq!(cache.get_sync_limits(3).err(), Some(Error::DatabaseError("height".to_string())));
    assert_eq!(cache.bump_height(3), Err(Error::DatabaseError("set height".to_string())));
    assert_eq!(cache.setup("d".to_string()), Err(Error::DatabaseError("set height".to_string())));
    assert_eq!(cache.save_acc(), Err(Error::DatabaseError("save roots".to_string())));
}

#[test]
fn stored_height_and_descriptor() {
    assert_eq!(cache_height(None), Err(Error::WalletNotInitialized));
    assert_eq!(cache_height(Some("12".to_string())), Ok(12));
    assert_eq!(cache_height(Some("4294967295".to_string())), Ok(u32::MAX));
    assert_eq!(cache_height(Some("4294967296".to_string())), Err(Error::DbParseError));
    assert_eq!(cache_height(Some("twelve".to_string())), Err(Error::DbParseError));
    assert_eq!(cache_height(Some(String::new())), Err(Error::DbParseError));
    assert_eq!(height_text(0), "0");
    assert_eq!(height_text(u32::MAX), "4294967295");
    assert_eq!(cache_height(Some(height_text(80000))), Ok(80000));
    assert_eq!(descriptor(None), Err(Error::WalletNotInitialized));
    assert_eq!(descriptor(Some("wpkh(xpub)".to_string())), Ok("wpkh(xpub)".to_string()));
}

#[test]
fn loading_skips_the_two_reserved_keys() {
    assert!(is_reserved_key(&"height".to_string()));
    assert!(is_reserved_key(&"desc".to_string()));
    assert!(!is_reserved_key(&"Height".to_string()));
    assert!(!is_reserved_key(&"descriptor".to_string()));
    assert!(!is_reserved_key(&String::new()));
    let record = format!("{}:4:{}:", SPEND_SCRIPT_HASH, SPEND_SCRIPT);
    let entries = vec![
        ("desc".to_string(), "wpkh(xpub)".to_string()),
        (SPEND_SCRIPT_HASH.to_string(), record),
        ("height".to_string(), "12".to_string()),
    ];
    let addresses = load_addresses(&entries).unwrap();
    assert_eq!(addresses.len(), 1);
    assert_eq!(addresses[0].balance, 4);
    assert_eq!(addresses[0].script, script(SPEND_SCRIPT));
    assert_eq!(load_addresses(&vec![]).map(|addresses| addresses.len()), Ok(0));
}

#[test]
fn loading_stops_at_the_first_record_that_cannot_be_read() {
    let good = format!("{}:4:{}:", SPEND_SCRIPT_HASH, SPEND_SCRIPT);
    let entries = vec![
        ("a".to_string(), good.clone()),
        ("b".to_string(), format!("{}:4:{}:00;1;2;:", SPEND_SCRIPT_HASH, SPEND_SCRIPT)),
        ("c".to_string(), "nonsense".to_string()),
    ];
    assert_eq!(load_addresses(&entries).err(), Some(Error::DeserializationError));
    let entries = vec![("c".to_string(), "nonsense".to_string()), ("a".to_string(), good)];
    assert_eq!(load_addresses(&entries).err(), Some(Error::DbParseError));
}
