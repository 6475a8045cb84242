//! The stores that the cache persists to, and what is written to them.
//!
//! The address store holds one record per watched address under the text of
//! its script hash, and beside them the cache height under `height` and the
//! wallet descriptor under `desc`.

use crate::decimal;
use crate::error::Error;
use crate::hex;
use crate::record::{
    decoded_address, encoded_address, lemma_address_round_trip, valid_address, AddressRecord,
    CachedAddress,
};
use crate::text::{as_bytes, ascii_string, bytes_of, same_bytes};
use vstd::prelude::*;

verus! {

/// The store of the watched addresses, of the height up to which blocks
/// were scanned, and of the wallet's descriptor.
///
/// Each method that the cache calls comes with a predicate of the store's
/// own, which the method's result meets. What it holds of is for the store to
/// say, and a store that says nothing lets it hold of everything; the cache's
/// contracts use it to name the calls that were made, with what was handed
/// over and what came back.
pub trait AddressCacheDatabase {
    /// Whether `save` has taken `address`.
    open spec fn saves(&self, address: AddressRecord) -> bool {
        true
    }

    /// Whether `load` has given `answer`.
    open spec fn loads(&self, answer: Result<Vec<CachedAddress>, Error>) -> bool {
        true
    }

    /// Whether `update` has taken `address`.
    open spec fn updates(&self, address: AddressRecord) -> bool {
        true
    }

    /// Whether `get_cache_height` has given `answer`.
    open spec fn gets_cache_height(&self, answer: Result<u32, Error>) -> bool {
        true
    }

    /// Whether `set_cache_height` has taken `height` and given `answer`.
    open spec fn sets_cache_height(&self, height: u32, answer: Result<(), Error>) -> bool {
        true
    }

    /// Whether `desc_save` has taken the descriptor with these bytes and
    /// given `answer`.
    open spec fn saves_descriptor(&self, descriptor: Seq<u8>, answer: Result<(), Error>) -> bool {
        true
    }

    /// Whether `desc_get` has given `answer`.
    open spec fn gets_descriptor(&self, answer: Result<String, Error>) -> bool {
        true
    }

    /// Saves a new address. For one that is stored already, `update` is meant.
    fn save(&self, address: &CachedAddress)
        ensures
            self.saves(address@),
    ;

    /// Loads every address that is stored.
    fn load(&self) -> (answer: Result<Vec<CachedAddress>, Error>)
        ensures
            self.loads(answer),
    ;

    /// Replaces the stored record of an address.
    fn update(&self, address: &CachedAddress)
        ensures
            self.updates(address@),
    ;

    /// The height of the last block that was scanned.
    fn get_cache_height(&self) -> (answer: Result<u32, Error>)
        ensures
            self.gets_cache_height(answer),
    ;

    /// Stores the height of the last block that was scanned.
    fn set_cache_height(&self, height: u32) -> (answer: Result<(), Error>)
        ensures
            self.sets_cache_height(height, answer),
    ;

    /// Stores the wallet's descriptor.
    fn desc_save(&self, descriptor: String) -> (answer: Result<(), Error>)
        ensures
            self.saves_descriptor(bytes_of(descriptor@), answer),
    ;

    /// The wallet's descriptor.
    fn desc_get(&self) -> (answer: Result<String, Error>)
        ensures
            self.gets_descriptor(answer),
    ;
}

/// The store of the chain's data, of which the cache uses the accumulator's
/// text. Its two predicates are the store's own, as those of the database are.
pub trait ChainStore {
    /// Whether `load_roots` has given `answer`.
    open spec fn loads(&self, answer: Result<Option<String>, Error>) -> bool {
        true
    }

    /// Whether `save_roots` has taken the text with these bytes and given `answer`.
    open spec fn saves(&self, roots: Seq<u8>, answer: Result<(), Error>) -> bool {
        true
    }

    /// The stored text of the accumulator, if one was stored.
    fn load_roots(&self) -> (answer: Result<Option<String>, Error>)
        ensures
            self.loads(answer),
    ;

    /// Stores the text of the accumulator.
    fn save_roots(&self, roots: String) -> (answer: Result<(), Error>)
        ensures
            self.saves(bytes_of(roots@), answer),
    ;
}

/// The key of the cache height: `height` in ASCII.
pub open spec fn height_key() -> Seq<u8> {
    seq![0x68u8, 0x65u8, 0x69u8, 0x67u8, 0x68u8, 0x74u8]
}

/// The key of the descriptor: `desc` in ASCII.
pub open spec fn descriptor_key() -> Seq<u8> {
    seq![0x64u8, 0x65u8, 0x73u8, 0x63u8]
}

/// Whether `key` is one of the two keys that hold no address.
pub open spec fn is_reserved(key: Seq<u8>) -> bool {
    key == height_key() || key == descriptor_key()
}

/// The addresses that the stored entries describe, those under the two
/// reserved keys left out; the first entry that describes none decides the error.
pub open spec fn loaded_addresses(entries: Seq<(Seq<u8>, Seq<u8>)>) -> Result<
    Seq<AddressRecord>,
    Error,
>
    decreases entries.len(),
{
    if entries.len() == 0 {
        Ok(Seq::empty())
    } else {
        match loaded_addresses(entries.drop_last()) {
            Err(e) => Err(e),
            Ok(addresses) => if is_reserved(entries.last().0) {
                Ok(addresses)
            } else {
                match decoded_address(entries.last().1) {
                    Err(e) => Err(e),
                    Ok(address) => Ok(addresses.push(address)),
                }
            },
        }
    }
}

/// The bytes of the keys and values of stored entries.
pub open spec fn entry_bytes(entries: Seq<(String, String)>) -> Seq<(Seq<u8>, Seq<u8>)> {
    entries.map_values(|e: (String, String)| (bytes_of(e.0@), bytes_of(e.1@)))
}

/// The cache height that a stored text gives: `WalletNotInitialized` where
/// none is stored, `DbParseError` where the text is no height.
pub open spec fn stored_height(stored: Option<Seq<u8>>) -> Result<u32, Error> {
    match stored {
        None => Err(Error::WalletNotInitialized),
        Some(text) => match decimal::parsed(text, u32::MAX as nat) {
            None => Err(Error::DbParseError),
            Some(height) => Ok(height as u32),
        },
    }
}

/// Whether `key` is one of the two keys that hold no address.
pub fn is_reserved_key(key: &String) -> (reserved: bool)
    ensures
        reserved == is_reserved(bytes_of(key@)),
{
    let height: [u8; 6] = [0x68, 0x65, 0x69, 0x67, 0x68, 0x74];
    let descriptor: [u8; 4] = [0x64, 0x65, 0x73, 0x63];
    assert(height@ =~= height_key());
    assert(descriptor@ =~= descriptor_key());
    let bytes: &[u8] = as_bytes(key);
    same_bytes(bytes, height.as_slice()) || same_bytes(bytes, descriptor.as_slice())
}

/// Reads the addresses out of the entries of the address store.
pub fn load_addresses(entries: &Vec<(String, String)>) -> (res: Result<Vec<CachedAddress>, Error>)
    ensures
        match res {
            Ok(addresses) => loaded_addresses(entry_bytes(entries@)) == Ok::<
                Seq<AddressRecord>,
                Error,
            >(crate::record::address_records(addresses@)),
            Err(e) => loaded_addresses(entry_bytes(entries@)) == Err::<Seq<AddressRecord>, Error>(
                e,
            ),
        },
{
    let mut addresses: Vec<CachedAddress> = Vec::new();
    let ghost all = entry_bytes(entries@);
    assert(all.take(0) =~= Seq::<(Seq<u8>, Seq<u8>)>::empty());
    assert(crate::record::address_records(addresses@) =~= Seq::<AddressRecord>::empty());
    let mut i: usize = 0;
    while i < entries.len()
        invariant
            i <= entries@.len(),
            all == entry_bytes(entries@),
            loaded_addresses(all.take(i as int)) == Ok::<Seq<AddressRecord>, Error>(
                crate::record::address_records(addresses@),
            ),
        decreases entries@.len() - i,
    {
        let ghost done = crate::record::address_records(addresses@);
        proof {
            assert(all.take(i + 1).drop_last() =~= all.take(i as int));
            assert(all.take(i + 1).last() == all[i as int]);
            lemma_loading_stops(all, i + 1);
        }
        if !is_reserved_key(&entries[i].0) {
            match CachedAddress::decode(as_bytes(&entries[i].1)) {
                Ok(address) => {
                    addresses.push(address);
                    assert(crate::record::address_records(addresses@) =~= done.push(address@));
                },
                Err(e) => {
                    return Err(e);
                },
            }
        }
        i = i + 1;
    }
    assert(all.take(i as int) =~= all);
    Ok(addresses)
}

/// An error met while loading the first entries is the error of loading them all.
proof fn lemma_loading_stops(entries: Seq<(Seq<u8>, Seq<u8>)>, n: int)
    requires
        0 <= n <= entries.len(),
    ensures
        loaded_addresses(entries.take(n)) is Err ==> loaded_addresses(entries) == loaded_addresses(
            entries.take(n),
        ),
    decreases entries.len() - n,
{
    if n < entries.len() {
        assert(entries.take(n + 1).drop_last() =~= entries.take(n));
        lemma_loading_stops(entries, n + 1);
    } else {
        assert(entries.take(n) =~= entries);
    }
}

/// The cache height that the text stored under `height` gives.
pub fn cache_height(stored: Option<String>) -> (res: Result<u32, Error>)
    ensures
        res == stored_height(crate::accumulator::stored_bytes(stored)),
{
    match stored {
        None => Err(Error::WalletNotInitialized),
        Some(text) => match decimal::parse(as_bytes(&text), u32::MAX as u64) {
            Some(height) => Ok(height as u32),
            None => Err(Error::DbParseError),
        },
    }
}

/// The text under which a cache height is stored: the height in decimal.
pub fn height_text(height: u32) -> (text: String)
    ensures
        bytes_of(text@) == decimal::digits(height as nat),
{
    let text: Vec<u8> = decimal::format(height as u64);
    proof {
        decimal::lemma_digits_are_digits(height as nat);
        assert forall|i: int| 0 <= i < text@.len() implies (#[trigger] text@[i]) < 0x80 by {
            assert(decimal::is_digit(text@[i]));
        }
    }
    ascii_string(text)
}

/// The descriptor that is stored: `WalletNotInitialized` where there is none.
pub fn descriptor(stored: Option<String>) -> (res: Result<String, Error>)
    ensures
        match stored {
            Some(text) => res == Ok::<String, Error>(text),
            None => res == Err::<String, Error>(Error::WalletNotInitialized),
        },
{
    match stored {
        Some(text) => Ok(text),
        None => Err(Error::WalletNotInitialized),
    }
}

/// Storing a height and reading it back gives the height.
pub proof fn lemma_height_round_trip(height: u32)
    ensures
        stored_height(Some(decimal::digits(height as nat))) == Ok::<u32, Error>(height),
{
    decimal::lemma_parse_format(height as nat, u32::MAX as nat);
}

/// The entry under which an address is stored: its script hash in
/// hexadecimal, and its record's text.
pub open spec fn stored_entry(address: AddressRecord) -> (Seq<u8>, Seq<u8>) {
    (hex::encoded(address.script_hash), encoded_address(address))
}

/// The entries under which the addresses are stored.
pub open spec fn stored_entries(addresses: Seq<AddressRecord>) -> Seq<(Seq<u8>, Seq<u8>)> {
    addresses.map_values(|a: AddressRecord| stored_entry(a))
}

/// Loading what was stored of valid addresses gives the addresses back: none
/// of them is taken for the cache height or the descriptor, and each is read
/// back from its text as it is.
pub proof fn lemma_stored_addresses_load(addresses: Seq<AddressRecord>)
    requires
        forall|i: int| 0 <= i < addresses.len() ==> valid_address(#[trigger] addresses[i]),
    ensures
        loaded_addresses(stored_entries(addresses)) == Ok::<Seq<AddressRecord>, Error>(addresses),
    decreases addresses.len(),
{
    let entries = stored_entries(addresses);
    if addresses.len() == 0 {
        assert(addresses =~= Seq::<AddressRecord>::empty());
    } else {
        let front = addresses.drop_last();
        let last = addresses.last();
        assert forall|i: int| 0 <= i < front.len() implies valid_address(#[trigger] front[i]) by {
            assert(front[i] == addresses[i]);
        }
        lemma_stored_addresses_load(front);
        assert(entries.drop_last() =~= stored_entries(front));
        assert(entries.last() == stored_entry(last));
        assert(valid_address(addresses[addresses.len() - 1]));
        lemma_address_round_trip(last);
        hex::lemma_encoded_is_lower_hex(last.script_hash);
        assert(hex::encoded(last.script_hash).len() == 64);
        assert(height_key().len() == 6);
        assert(descriptor_key().len() == 4);
        assert(front.push(last) =~= addresses);
    }
}

} // verus!
