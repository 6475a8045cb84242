use address_cache::cache::AddressCache;
use address_cache::chain::{Script, ScriptHash};
use address_cache::database::{
    cache_height, descriptor, height_text, load_addresses, AddressCacheDatabase, ChainStore,
};
use address_cache::error::Error;
use address_cache::hex;
use address_cache::record::CachedAddress;
use kv::{Bucket, Config, Store};

/// The addresses, the cache height and the descriptor in a bucket on disk.
struct KvDatabase(Store, Bucket<'static, String, String>);

impl KvDatabase {
    fn new(datadir: String) -> Result<KvDatabase, kv::Error> {
        let cfg = Config::new(datadir);
        let store = Store::new(cfg)?;
        let bucket = store.bucket::<String, String>(Some("addresses"))?;
        Ok(KvDatabase(store, bucket))
    }
}

fn store_error(error: kv::Error) -> Error {
    Error::DatabaseError(error.to_string())
}

impl AddressCacheDatabase for KvDatabase {
    fn load(&self) -> Result<Vec<CachedAddress>, Error> {
        let mut entries = vec![];
        for item in self.1.iter() {
            let item = item.map_err(store_error)?;
            let key = item.key::<String>().map_err(store_error)?;
            let value: String = item.value().map_err(store_error)?;
            entries.push((key, value));
        }
        load_addresses(&entries)
    }

    fn save(&self, address: &CachedAddress) {
        self.1.set(&address.key(), &address.to_string()).expect("Fatal: Database isn't working");
        self.1.flush().expect("Could not write to disk");
    }

    fn update(&self, address: &CachedAddress) {
        self.save(address);
    }

    fn get_cache_height(&self) -> Result<u32, Error> {
        self.0.bucket::<String, String>(Some("meta")).map_err(store_error)?;
        cache_height(self.1.get(&"height".to_string()).map_err(store_error)?)
    }

    fn set_cache_height(&self, height: u32) -> Result<(), Error> {
        self.0.bucket::<String, String>(Some("meta")).map_err(store_error)?;
        self.1.set(&"height".to_string(), &height_text(height)).map_err(store_error)?;
        self.1.flush().map_err(store_error)?;
        Ok(())
    }

    fn desc_save(&self, descriptor: String) -> Result<(), Error> {
        self.0.bucket::<String, String>(Some("meta")).map_err(store_error)?;
        self.1.set(&"desc".to_string(), &descriptor).map_err(store_error)?;
        self.1.flush().map_err(store_error)?;
        Ok(())
    }

    fn desc_get(&self) -> Result<String, Error> {
        self.0.bucket::<String, String>(Some("meta")).map_err(store_error)?;
        descriptor(self.1.get(&"desc".to_string()).map_err(store_error)?)
    }
}

/// The accumulator's text in a bucket on disk, beside the addresses.
struct KvChainStore(Bucket<'static, String, String>);

impl KvChainStore {
    fn new(datadir: String) -> Result<KvChainStore, kv::Error> {
        let cfg = Config::new(datadir + "/chain_data");
        let store = Store::new(cfg)?;
        let bucket = store.bucket::<String, String>(Some("meta"))?;
        Ok(KvChainStore(bucket))
    }
}

impl ChainStore for KvChainStore {
    fn load_roots(&self) -> Result<Option<String>, Error> {
        self.0.get(&"roots".to_string()).map_err(store_error)
    }

    fn save_roots(&self, roots: String) -> Result<(), Error> {
        self.0.set(&"roots".to_string(), &roots).map_err(store_error)?;
        self.0.flush().map_err(store_error)?;
        Ok(())
    }
}

/// Empties what an earlier run left in the directory.
fn forget(datadir: &str) {
    let database = KvDatabase::new(datadir.into()).unwrap();
    database.1.clear().unwrap();
    database.1.flush().unwrap();
    let chain_store = KvChainStore::new(datadir.to_owned()).unwrap();
    chain_store.0.clear().unwrap();
    chain_store.0.flush().unwrap();
}

fn script(hex_text: &str) -> Script {
    Script { bytes: hex::decode(hex_text.as_bytes()).unwrap() }
}

#[test]
fn test_create_cache() {
    // None of this should fail
    let database = KvDatabase::new("/tmp/utreexo/".into()).unwrap();
    let chain_store = KvChainStore::new("/tmp/utreexo/".to_owned()).unwrap();
    let _ = AddressCache::new(database, chain_store).unwrap();
}

#[test]
fn cache_address() {
    forget("/tmp/utreexo/");
    let database = KvDatabase::new("/tmp/utreexo/".into()).unwrap();
    let chain_store = KvChainStore::new("/tmp/utreexo/".to_owned()).unwrap();

    let mut cache = AddressCache::new(database, chain_store).unwrap();
    let script_pk = script("00");
    let hash = &ScriptHash::of_script(&script_pk);

    cache.cache_address(script_pk);
    assert_eq!(cache.address_count(), 1);
    assert_eq!(cache.get_address_balance(hash), 0);
}

#[test]
fn test_persistency() {
    forget("/tmp/utreexo/");
    {
        let database = KvDatabase::new("/tmp/utreexo/".into()).unwrap();
        let chain_store = KvChainStore::new("/tmp/utreexo/".to_owned()).unwrap();

        let mut cache = AddressCache::new(database, chain_store).unwrap();
        let script_pk = script("4104678afdb0fe5548271967f1a67130b7105cd6a828e03909a67962e0ea1f61deb649f6bc3f4cef38c4f35504e51ec112de5c384df7ba0b8d578a4c702b6bf11d5fac");
        cache.cache_address(script_pk);
    }
    let database = KvDatabase::new("/tmp/utreexo/".into()).unwrap();
    let chain_store = KvChainStore::new("/tmp/utreexo/".to_owned()).unwrap();

    let cache = AddressCache::new(database, chain_store).unwrap();
    assert_eq!(cache.script_count(), 1);
}

#[test]
fn reopened_store_gives_the_same_cache() {
    let datadir = "/tmp/utreexo_reopened/";
    forget(datadir);
    let genesis = script("4104678afdb0fe5548271967f1a67130b7105cd6a828e03909a67962e0ea1f61deb649f6bc3f4cef38c4f35504e51ec112de5c384df7ba0b8d578a4c702b6bf11d5fac");
    let other = script("00");
    let hashes = [ScriptHash::of_script(&genesis), ScriptHash::of_script(&other)];
    assert_eq!(
        hashes[0].to_hex(),
        b"740485f380ff6379d11ef6fe7d7cdd68aea7f8bd0d953d9fdf3531fb7d531833".to_vec()
    );
    let (addresses, scripts, histories) = {
        let database = KvDatabase::new(datadir.into()).unwrap();
        let chain_store = KvChainStore::new(datadir.to_owned()).unwrap();
        let mut cache = AddressCache::new(database, chain_store).unwrap();
        cache.cache_address(genesis.copy());
        cache.cache_address(other.copy());
        cache.setup("descriptor".to_string()).unwrap();
        cache.bump_height(9).unwrap();
        cache.save_acc().unwrap();
        let histories: Vec<_> = hashes.iter().map(|h| cache.get_address_history(h)).collect();
        (cache.address_count(), cache.script_count(), histories)
    };
    let database = KvDatabase::new(datadir.into()).unwrap();
    assert_eq!(database.get_cache_height(), Ok(9));
    assert_eq!(database.desc_get(), Ok("descriptor".to_string()));
    let chain_store = KvChainStore::new(datadir.to_owned()).unwrap();
    assert_eq!(chain_store.load_roots(), Ok(Some("0 ".to_string())));
    let cache = AddressCache::new(database, chain_store).unwrap();
    assert_eq!(cache.address_count(), addresses);
    assert_eq!(cache.script_count(), scripts);
    assert_eq!(cache.address_count(), 2);
    assert_eq!(cache.script_count(), 2);
    assert!(cache.is_watching(&genesis));
    assert!(cache.is_watching(&other));
    for (hash, history) in hashes.iter().zip(histories) {
        assert_eq!(cache.get_address_history(hash), history);
        assert_eq!(cache.get_address_balance(hash), 0);
    }
    assert_eq!(cache.get_sync_limits(12), Ok(10..=12));
}
