//! The cached records and their text format.
//!
//! A transaction is written as four fields joined by `;`:
//! `tx_hex;height;position;merkle_block_hex`, the last one empty where the
//! transaction has no proof. An address is written as
//! `script_hash:balance:script:` followed by each of its transactions, every
//! one of them ended by a further `:`.

use crate::chain::{
    merkle_block_hashes, transaction_id, txid_text, MerkleBlock, Script, ScriptHash, Txid,
};
use crate::decimal;
use crate::error::Error;
use crate::fields::{
    get_arg, is_free_of, joined, lemma_split_joined, lemma_split_single, split, Fields,
};
use crate::hex;
use crate::text::{
    append, as_bytes, ascii_string, bytes_of, copy_bytes, is_ascii, same_bytes, utf8_string,
};
use vstd::prelude::*;
use vstd::utf8::{encode_utf8_valid_utf8, valid_utf8, valid_utf8_concat};

verus! {

/// The byte that separates the fields of an address.
pub const ADDRESS_SEPARATOR: u8 = 0x3a;

/// The byte that separates the fields of a transaction.
pub const TRANSACTION_SEPARATOR: u8 = 0x3b;

/// A transaction of a watched address, as it is cached.
#[derive(Debug, Clone, PartialEq, Eq)]
pub struct CachedTransaction {
    /// The serialized transaction, in hexadecimal.
    pub tx_hex: String,
    /// The height of the block that confirmed it.
    pub height: u32,
    /// The proof that the block holds it.
    pub merkle_block: Option<MerkleBlock>,
    /// The text of the transaction's id.
    pub hash: String,
    /// The index of the transaction within its block.
    pub position: u32,
}

/// A watched script with the transactions found for it.
#[derive(Debug, Clone)]
pub struct CachedAddress {
    pub script_hash: ScriptHash,
    pub balance: u64,
    pub transactions: Vec<CachedTransaction>,
    pub script: Script,
}

/// What a cached transaction holds; the two texts are given by their bytes.
#[verifier::ext_equal]
pub struct TransactionRecord {
    pub tx_hex: Seq<u8>,
    pub height: u32,
    pub merkle_block: Option<Seq<u8>>,
    pub hash: Seq<u8>,
    pub position: u32,
}

/// What a cached address holds.
#[verifier::ext_equal]
pub struct AddressRecord {
    pub script_hash: Seq<u8>,
    pub balance: u64,
    pub transactions: Seq<TransactionRecord>,
    pub script: Seq<u8>,
}

impl View for CachedTransaction {
    type V = TransactionRecord;

    open spec fn view(&self) -> TransactionRecord {
        TransactionRecord {
            tx_hex: bytes_of(self.tx_hex@),
            height: self.height,
            merkle_block: match self.merkle_block {
                Some(block) => Some(block@),
                None => None,
            },
            hash: bytes_of(self.hash@),
            position: self.position,
        }
    }
}

/// The text of 32 zero bytes: 64 times the digit `0`.
pub open spec fn zero_hash_text() -> Seq<u8> {
    hex::encoded(Seq::new(32, |i: int| 0u8))
}

impl Default for CachedTransaction {
    /// A record that stands for no transaction: both texts are that of 32
    /// zero bytes, the numbers are 0, and there is no proof.
    fn default() -> (t: CachedTransaction)
        ensures
            t@ == (TransactionRecord {
                tx_hex: zero_hash_text(),
                height: 0,
                merkle_block: None,
                hash: zero_hash_text(),
                position: 0,
            }),
    {
        let zeros: [u8; 32] = [0u8; 32];
        assert(zeros@ =~= Seq::new(32, |i: int| 0u8));
        let text: Vec<u8> = hex::encode(zeros.as_slice());
        let again: Vec<u8> = hex::encode(zeros.as_slice());
        proof {
            hex::lemma_encoded_is_lower_hex(zeros@);
            lemma_hex_is_ascii(text@);
        }
        let t = CachedTransaction {
            tx_hex: ascii_string(text),
            height: 0,
            merkle_block: None,
            hash: ascii_string(again),
            position: 0,
        };
        assert(t@ =~= (TransactionRecord {
            tx_hex: zero_hash_text(),
            height: 0,
            merkle_block: None,
            hash: zero_hash_text(),
            position: 0,
        }));
        t
    }
}

/// What each of the cached transactions holds.
pub open spec fn records(transactions: Seq<CachedTransaction>) -> Seq<TransactionRecord> {
    transactions.map_values(|t: CachedTransaction| t@)
}

/// What each of the cached addresses holds.
pub open spec fn address_records(addresses: Seq<CachedAddress>) -> Seq<AddressRecord> {
    addresses.map_values(|a: CachedAddress| a@)
}

impl View for CachedAddress {
    type V = AddressRecord;

    open spec fn view(&self) -> AddressRecord {
        AddressRecord {
            script_hash: self.script_hash@,
            balance: self.balance,
            transactions: records(self.transactions@),
            script: self.script@,
        }
    }
}

/// The text of a merkle proof: its bytes in hexadecimal, or nothing where there is none.
pub open spec fn encoded_proof(merkle_block: Option<Seq<u8>>) -> Seq<u8> {
    match merkle_block {
        Some(bytes) => hex::encoded(bytes),
        None => Seq::empty(),
    }
}

/// The text of a cached transaction.
pub open spec fn encoded_transaction(t: TransactionRecord) -> Seq<u8> {
    joined(
        t.tx_hex,
        TRANSACTION_SEPARATOR,
        joined(
            decimal::digits(t.height as nat),
            TRANSACTION_SEPARATOR,
            joined(
                decimal::digits(t.position as nat),
                TRANSACTION_SEPARATOR,
                encoded_proof(t.merkle_block),
            ),
        ),
    )
}

/// The merkle proof that a field describes, or why it describes none: no
/// proof where the field is empty, else the merkle block that the field
/// gives in hexadecimal.
pub open spec fn decoded_proof(field: Seq<u8>) -> Result<Option<Seq<u8>>, Error> {
    if field.len() == 0 {
        Ok(None)
    } else if hex::decoded(field) is None {
        Err(Error::DbParseError)
    } else if merkle_block_hashes(hex::decoded(field)->0) is None {
        Err(Error::DeserializationError)
    } else {
        Ok(Some(hex::decoded(field)->0))
    }
}

/// The cached transaction that `text` describes, or why it describes none.
///
/// The first four fields count and any further ones are ignored. The proof is
/// read first, then the transaction, then the two numbers; the id is computed
/// from the transaction.
pub open spec fn decoded_transaction(text: Seq<u8>) -> Result<TransactionRecord, Error> {
    let f = split(text, TRANSACTION_SEPARATOR);
    if f.len() < 4 {
        Err(Error::DbParseError)
    } else if decoded_proof(f[3]) is Err {
        Err(decoded_proof(f[3])->Err_0)
    } else if hex::decoded(f[0]) is None {
        Err(Error::DbParseError)
    } else if transaction_id(hex::decoded(f[0])->0) is None {
        Err(Error::DeserializationError)
    } else if decimal::parsed(f[1], u32::MAX as nat) is None {
        Err(Error::DbParseError)
    } else if decimal::parsed(f[2], u32::MAX as nat) is None {
        Err(Error::DbParseError)
    } else {
        Ok(
            TransactionRecord {
                tx_hex: f[0],
                height: decimal::parsed(f[1], u32::MAX as nat)->0 as u32,
                merkle_block: decoded_proof(f[3])->Ok_0,
                hash: txid_text(transaction_id(hex::decoded(f[0])->0)->0),
                position: decimal::parsed(f[2], u32::MAX as nat)->0 as u32,
            },
        )
    }
}

/// The texts of the transactions of an address, each ended by a separator.
pub open spec fn encoded_transactions(transactions: Seq<TransactionRecord>) -> Seq<u8>
    decreases transactions.len(),
{
    if transactions.len() == 0 {
        Seq::empty()
    } else {
        encoded_transactions(transactions.drop_last()) + joined(
            encoded_transaction(transactions.last()),
            ADDRESS_SEPARATOR,
            Seq::empty(),
        )
    }
}

/// The text of a cached address.
pub open spec fn encoded_address(a: AddressRecord) -> Seq<u8> {
    joined(
        hex::encoded(a.script_hash),
        ADDRESS_SEPARATOR,
        joined(
            decimal::digits(a.balance as nat),
            ADDRESS_SEPARATOR,
            joined(hex::encoded(a.script), ADDRESS_SEPARATOR, encoded_transactions(a.transactions)),
        ),
    )
}

/// The transactions that the fields describe, empty fields skipped; the first
/// field that describes none decides the error.
pub open spec fn decoded_transactions(fields: Seq<Seq<u8>>) -> Result<
    Seq<TransactionRecord>,
    Error,
>
    decreases fields.len(),
{
    if fields.len() == 0 {
        Ok(Seq::empty())
    } else if fields[0].len() == 0 {
        decoded_transactions(fields.skip(1))
    } else {
        match decoded_transaction(fields[0]) {
            Err(e) => Err(e),
            Ok(t) => following(seq![t], decoded_transactions(fields.skip(1))),
        }
    }
}

/// `rest` with `done` in front of it, where `rest` is no error.
pub open spec fn following(
    done: Seq<TransactionRecord>,
    rest: Result<Seq<TransactionRecord>, Error>,
) -> Result<Seq<TransactionRecord>, Error> {
    match rest {
        Ok(more) => Ok(done + more),
        Err(e) => Err(e),
    }
}

/// The cached address that `text` describes, or why it describes none.
///
/// The first three fields are the script hash, the balance and the script;
/// every further field that is not empty is a transaction.
pub open spec fn decoded_address(text: Seq<u8>) -> Result<AddressRecord, Error> {
    let f = split(text, ADDRESS_SEPARATOR);
    if f.len() < 3 {
        Err(Error::DbParseError)
    } else if hex::decoded(f[0]) is None || hex::decoded(f[0])->0.len() != 32 {
        Err(Error::DbParseError)
    } else if hex::decoded(f[2]) is None {
        Err(Error::DbParseError)
    } else {
        match decoded_transactions(f.skip(3)) {
            Err(e) => Err(e),
            Ok(transactions) => match decimal::parsed(f[1], u64::MAX as nat) {
                None => Err(Error::DbParseError),
                Some(balance) => Ok(
                    AddressRecord {
                        script_hash: hex::decoded(f[0])->0,
                        balance: balance as u64,
                        transactions,
                        script: hex::decoded(f[2])->0,
                    },
                ),
            },
        }
    }
}

/// Whether a cached transaction is one that reading a record can give: its
/// text is the hexadecimal form of a transaction, its id is that
/// transaction's, and its proof, where it has one, is a merkle block.
pub open spec fn valid_transaction(t: TransactionRecord) -> bool {
    &&& hex::decoded(t.tx_hex) is Some
    &&& transaction_id(hex::decoded(t.tx_hex)->0) is Some
    &&& transaction_id(hex::decoded(t.tx_hex)->0)->0.len() == 32
    &&& t.hash == txid_text(transaction_id(hex::decoded(t.tx_hex)->0)->0)
    &&& t.merkle_block matches Some(block) ==> block.len() > 0 && merkle_block_hashes(block) is Some
}

/// Whether a cached address is one that reading a record can give.
pub open spec fn valid_address(a: AddressRecord) -> bool {
    &&& a.script_hash.len() == 32
    &&& forall|i: int| 0 <= i < a.transactions.len() ==> valid_transaction(#[trigger] a.transactions[i])
}

/// Hexadecimal text is ASCII.
pub proof fn lemma_hex_is_ascii(text: Seq<u8>)
    requires
        hex::is_hex(text),
    ensures
        is_ascii(text),
{
    assert forall|i: int| 0 <= i < text.len() implies (#[trigger] text[i]) < 0x80 by {
        assert(hex::value_of(text[i]) is Some);
    }
}

/// The text of a number holds neither separator and is ASCII.
pub proof fn lemma_digits_are_plain(n: nat)
    ensures
        is_free_of(decimal::digits(n), ADDRESS_SEPARATOR),
        is_free_of(decimal::digits(n), TRANSACTION_SEPARATOR),
        is_ascii(decimal::digits(n)),
{
    decimal::lemma_digits_are_digits(n);
    let text = decimal::digits(n);
    assert forall|i: int| 0 <= i < text.len() implies (#[trigger] text[i]) != ADDRESS_SEPARATOR
        && text[i] != TRANSACTION_SEPARATOR && text[i] < 0x80 by {
        assert(decimal::is_digit(text[i]));
    }
}

/// Hexadecimal text holds neither separator.
pub proof fn lemma_hex_is_plain(text: Seq<u8>)
    requires
        hex::is_hex(text),
    ensures
        is_free_of(text, ADDRESS_SEPARATOR),
        is_free_of(text, TRANSACTION_SEPARATOR),
{
    assert forall|i: int| 0 <= i < text.len() implies (#[trigger] text[i]) != ADDRESS_SEPARATOR
        && text[i] != TRANSACTION_SEPARATOR by {
        assert(hex::value_of(text[i]) is Some);
    }
}

impl CachedTransaction {
    /// The record's text, as bytes.
    pub fn encode(&self) -> (text: Vec<u8>)
        ensures
            text@ == encoded_transaction(self@),
            valid_utf8(text@),
    {
        let mut tail: Vec<u8> = decimal::format(self.height as u64);
        tail.push(TRANSACTION_SEPARATOR);
        let position: Vec<u8> = decimal::format(self.position as u64);
        append(&mut tail, position.as_slice());
        tail.push(TRANSACTION_SEPARATOR);
        match &self.merkle_block {
            Some(block) => {
                let block_hex: Vec<u8> = hex::encode(block.bytes.as_slice());
                append(&mut tail, block_hex.as_slice());
            },
            None => {},
        }
        let mut text: Vec<u8> = copy_bytes(as_bytes(&self.tx_hex));
        text.push(TRANSACTION_SEPARATOR);
        let ghost head = text@;
        append(&mut text, tail.as_slice());
        proof {
            let t = self@;
            lemma_digits_are_plain(t.height as nat);
            lemma_digits_are_plain(t.position as nat);
            if let Some(bytes) = t.merkle_block {
                hex::lemma_encoded_is_lower_hex(bytes);
                lemma_hex_is_ascii(hex::encoded(bytes));
            }
            assert(tail@ =~= joined(
                decimal::digits(t.height as nat),
                TRANSACTION_SEPARATOR,
                joined(
                    decimal::digits(t.position as nat),
                    TRANSACTION_SEPARATOR,
                    encoded_proof(t.merkle_block),
                ),
            ));
            assert(text@ =~= encoded_transaction(t));
            assert(is_ascii(tail@));
            crate::text::lemma_ascii_is_utf8(tail@);
            assert(is_ascii(seq![TRANSACTION_SEPARATOR]));
            crate::text::lemma_ascii_is_utf8(seq![TRANSACTION_SEPARATOR]);
            encode_utf8_valid_utf8(self.tx_hex@);
            valid_utf8_concat(t.tx_hex, seq![TRANSACTION_SEPARATOR]);
            assert(head =~= t.tx_hex + seq![TRANSACTION_SEPARATOR]);
            valid_utf8_concat(head, tail@);
        }
        text
    }

    /// The record's text: `tx_hex;height;position;merkle_block_hex`, the last
    /// field empty where there is no proof.
    pub fn to_string(&self) -> (text: String)
        ensures
            bytes_of(text@) == encoded_transaction(self@),
    {
        utf8_string(self.encode())
    }

    /// Reads a record from its bytes.
    pub fn decode(text: &[u8]) -> (res: Result<CachedTransaction, Error>)
        ensures
            match res {
                Ok(t) => decoded_transaction(text@) == Ok::<TransactionRecord, Error>(t@),
                Err(e) => decoded_transaction(text@) == Err::<TransactionRecord, Error>(e),
            },
            res matches Ok(t) ==> valid_transaction(t@),
    {
        let fields = Fields::new(text, TRANSACTION_SEPARATOR);
        let (tx_text, fields) = match get_arg(fields) {
            Ok(taken) => taken,
            Err(e) => {
                return Err(e);
            },
        };
        let (height_text, fields) = match get_arg(fields) {
            Ok(taken) => taken,
            Err(e) => {
                return Err(e);
            },
        };
        let (position_text, fields) = match get_arg(fields) {
            Ok(taken) => taken,
            Err(e) => {
                return Err(e);
            },
        };
        let (block_text, fields) = match get_arg(fields) {
            Ok(taken) => taken,
            Err(e) => {
                return Err(e);
            },
        };
        let merkle_block: Option<MerkleBlock> = if block_text.len() == 0 {
            None
        } else {
            let block = match hex::decode(block_text) {
                Some(bytes) => MerkleBlock { bytes },
                None => {
                    return Err(Error::DbParseError);
                },
            };
            if block.hashes().is_none() {
                return Err(Error::DeserializationError);
            }
            Some(block)
        };
        let raw: Vec<u8> = match hex::decode(tx_text) {
            Some(bytes) => bytes,
            None => {
                return Err(Error::DbParseError);
            },
        };
        let txid: Txid = match Txid::of_transaction(raw.as_slice()) {
            Some(id) => id,
            None => {
                return Err(Error::DeserializationError);
            },
        };
        let height: u32 = match decimal::parse(height_text, u32::MAX as u64) {
            Some(n) => n as u32,
            None => {
                return Err(Error::DbParseError);
            },
        };
        let position: u32 = match decimal::parse(position_text, u32::MAX as u64) {
            Some(n) => n as u32,
            None => {
                return Err(Error::DbParseError);
            },
        };
        let hash_text: Vec<u8> = txid.to_hex();
        proof {
            lemma_hex_is_ascii(tx_text@);
            hex::lemma_encoded_is_lower_hex(txid@.reverse());
            lemma_hex_is_ascii(hash_text@);
        }
        Ok(
            CachedTransaction {
                tx_hex: ascii_string(copy_bytes(tx_text)),
                height,
                merkle_block,
                hash: ascii_string(hash_text),
                position,
            },
        )
    }

    /// Reads a record from its text: `tx_hex;height;position;merkle_block_hex`.
    pub fn try_from(value: String) -> (res: Result<CachedTransaction, Error>)
        ensures
            match res {
                Ok(t) => decoded_transaction(bytes_of(value@)) == Ok::<TransactionRecord, Error>(
                    t@,
                ),
                Err(e) => decoded_transaction(bytes_of(value@)) == Err::<TransactionRecord, Error>(
                    e,
                ),
            },
    {
        CachedTransaction::decode(as_bytes(&value))
    }

    /// Whether the record is one that reading a record can give.
    pub fn is_valid(&self) -> (valid: bool)
        ensures
            valid == valid_transaction(self@),
    {
        let raw: Vec<u8> = match hex::decode(as_bytes(&self.tx_hex)) {
            Some(bytes) => bytes,
            None => {
                return false;
            },
        };
        let txid: Txid = match Txid::of_transaction(raw.as_slice()) {
            Some(id) => id,
            None => {
                return false;
            },
        };
        let text: Vec<u8> = txid.to_hex();
        if !same_bytes(as_bytes(&self.hash), text.as_slice()) {
            return false;
        }
        match &self.merkle_block {
            Some(block) => block.is_valid(),
            None => true,
        }
    }

    /// Whether both hold the same in every field.
    pub fn same(&self, other: &CachedTransaction) -> (same: bool)
        ensures
            same == (self@ == other@),
    {
        let same_block: bool = match (&self.merkle_block, &other.merkle_block) {
            (Some(a), Some(b)) => a.same(b),
            (None, None) => true,
            _ => false,
        };
        let same: bool = same_block && self.height == other.height && self.position
            == other.position && same_bytes(as_bytes(&self.tx_hex), as_bytes(&other.tx_hex))
            && same_bytes(as_bytes(&self.hash), as_bytes(&other.hash));
        assert(same == (self@ =~= other@));
        same
    }

    /// A copy of the record.
    pub fn copy(&self) -> (copy: CachedTransaction)
        ensures
            copy@ == self@,
    {
        let copy = CachedTransaction {
            tx_hex: self.tx_hex.clone(),
            height: self.height,
            merkle_block: match &self.merkle_block {
                Some(block) => Some(block.copy()),
                None => None,
            },
            hash: self.hash.clone(),
            position: self.position,
        };
        assert(copy@ =~= self@);
        copy
    }
}

impl CachedAddress {
    /// An address with the given contents.
    pub fn _new(
        script_hash: ScriptHash,
        balance: u64,
        transactions: Vec<CachedTransaction>,
        script: Script,
    ) -> (address: CachedAddress)
        ensures
            address.script_hash == script_hash,
            address.balance == balance,
            address.transactions == transactions,
            address.script == script,
    {
        CachedAddress { script_hash, balance, transactions, script }
    }

    /// The record's text, as bytes.
    pub fn encode(&self) -> (text: Vec<u8>)
        ensures
            text@ == encoded_address(self@),
            valid_utf8(text@),
    {
        let mut text: Vec<u8> = self.script_hash.to_hex();
        text.push(ADDRESS_SEPARATOR);
        let balance: Vec<u8> = decimal::format(self.balance);
        append(&mut text, balance.as_slice());
        text.push(ADDRESS_SEPARATOR);
        let script: Vec<u8> = hex::encode(self.script.bytes.as_slice());
        append(&mut text, script.as_slice());
        text.push(ADDRESS_SEPARATOR);
        let ghost head = text@;
        let ghost all = records(self.transactions@);
        proof {
            hex::lemma_encoded_is_lower_hex(self.script_hash@);
            lemma_hex_is_ascii(hex::encoded(self.script_hash@));
            hex::lemma_encoded_is_lower_hex(self.script@);
            lemma_hex_is_ascii(hex::encoded(self.script@));
            lemma_digits_are_plain(self.balance as nat);
            assert(is_ascii(head));
            crate::text::lemma_ascii_is_utf8(head);
            assert(all.take(0) =~= Seq::<TransactionRecord>::empty());
        }
        let mut i: usize = 0;
        while i < self.transactions.len()
            invariant
                i <= self.transactions@.len(),
                all == records(self.transactions@),
                text@ == head + encoded_transactions(all.take(i as int)),
                valid_utf8(text@),
            decreases self.transactions@.len() - i,
        {
            let record: Vec<u8> = self.transactions[i].encode();
            let ghost before = text@;
            append(&mut text, record.as_slice());
            text.push(ADDRESS_SEPARATOR);
            proof {
                let done = all.take(i + 1);
                assert(done.drop_last() =~= all.take(i as int));
                assert(done.last() == self.transactions@[i as int]@);
                let one = joined(record@, ADDRESS_SEPARATOR, Seq::empty());
                assert(text@ =~= before + one);
                assert(is_ascii(seq![ADDRESS_SEPARATOR]));
                crate::text::lemma_ascii_is_utf8(seq![ADDRESS_SEPARATOR]);
                valid_utf8_concat(record@, seq![ADDRESS_SEPARATOR]);
                assert(one =~= record@ + seq![ADDRESS_SEPARATOR]);
                valid_utf8_concat(before, one);
                assert(text@ =~= head + encoded_transactions(done));
            }
            i = i + 1;
        }
        proof {
            assert(all.take(i as int) =~= all);
            assert(text@ =~= encoded_address(self@));
        }
        text
    }

    /// The record's text: `script_hash:balance:script:`, then every
    /// transaction's text followed by `:`.
    pub fn to_string(&self) -> (text: String)
        ensures
            bytes_of(text@) == encoded_address(self@),
    {
        utf8_string(self.encode())
    }

    /// The key under which the record is stored: the script hash in hexadecimal.
    pub fn key(&self) -> (text: String)
        ensures
            bytes_of(text@) == hex::encoded(self.script_hash@),
    {
        let text: Vec<u8> = self.script_hash.to_hex();
        proof {
            hex::lemma_encoded_is_lower_hex(self.script_hash@);
            lemma_hex_is_ascii(text@);
        }
        ascii_string(text)
    }

    /// Reads a record from its bytes.
    pub fn decode(text: &[u8]) -> (res: Result<CachedAddress, Error>)
        ensures
            match res {
                Ok(a) => decoded_address(text@) == Ok::<AddressRecord, Error>(a@),
                Err(e) => decoded_address(text@) == Err::<AddressRecord, Error>(e),
            },
            res matches Ok(a) ==> valid_address(a@),
    {
        let fields = Fields::new(text, ADDRESS_SEPARATOR);
        let ghost f = split(text@, ADDRESS_SEPARATOR);
        let (hash_text, fields) = match get_arg(fields) {
            Ok(taken) => taken,
            Err(e) => {
                return Err(e);
            },
        };
        let script_hash: ScriptHash = match ScriptHash::from_hex(hash_text) {
            Some(hash) => hash,
            None => {
                return Err(Error::DbParseError);
            },
        };
        let (balance_text, fields) = match get_arg(fields) {
            Ok(taken) => taken,
            Err(e) => {
                return Err(e);
            },
        };
        let (script_text, fields) = match get_arg(fields) {
            Ok(taken) => taken,
            Err(e) => {
                return Err(e);
            },
        };
        let script = match hex::decode(script_text) {
            Some(bytes) => Script { bytes },
            None => {
                return Err(Error::DbParseError);
            },
        };
        let ghost rest = fields.to_come();
        assert(f.skip(3) =~= rest);
        let mut fields = fields;
        let mut transactions: Vec<CachedTransaction> = Vec::new();
        assert(records(transactions@) =~= Seq::<TransactionRecord>::empty());
        assert(following(Seq::empty(), decoded_transactions(rest)) == decoded_transactions(rest))
            by {
            if let Ok(more) = decoded_transactions(rest) {
                assert(Seq::<TransactionRecord>::empty() + more =~= more);
            }
        }
        while !fields.is_done()
            invariant
                fields.separator == ADDRESS_SEPARATOR,
                f == split(text@, ADDRESS_SEPARATOR),
                f.len() >= 3,
                f.skip(3) == rest,
                hex::decoded(f[0]) is Some,
                hex::decoded(f[0])->0.len() == 32,
                hex::decoded(f[2]) is Some,
                forall|n: int|
                    0 <= n < transactions@.len() ==> valid_transaction(
                        #[trigger] records(transactions@)[n],
                    ),
                decoded_transactions(rest) == following(
                    records(transactions@),
                    decoded_transactions(fields.to_come()),
                ),
            decreases fields.to_come().len(),
        {
            let ghost before = fields.to_come();
            let ghost done = records(transactions@);
            let (segment, next) = match get_arg(fields) {
                Ok(taken) => taken,
                Err(e) => {
                    return Err(e);
                },
            };
            fields = next;
            assert(before.skip(1) =~= fields.to_come());
            if segment.len() != 0 {
                match CachedTransaction::decode(segment) {
                    Ok(transaction) => {
                        transactions.push(transaction);
                        proof {
                            assert(records(transactions@) =~= done + seq![transaction@]);
                            if let Ok(more) = decoded_transactions(fields.to_come()) {
                                assert(done + (seq![transaction@] + more) =~= done + seq![
                                    transaction@,
                                ] + more);
                            }
                        }
                    },
                    Err(e) => {
                        return Err(e);
                    },
                }
            }
        }
        proof {
            if let Ok(more) = decoded_transactions(rest) {
                assert(records(transactions@) + Seq::<TransactionRecord>::empty() =~= records(
                    transactions@,
                ));
            }
        }
        let balance: u64 = match decimal::parse(balance_text, u64::MAX) {
            Some(n) => n,
            None => {
                return Err(Error::DbParseError);
            },
        };
        let address = CachedAddress { balance, script_hash, transactions, script };
        assert(address@ =~= decoded_address(text@)->Ok_0);
        Ok(address)
    }

    /// Reads a record from its text.
    pub fn try_from(value: String) -> (res: Result<CachedAddress, Error>)
        ensures
            match res {
                Ok(a) => decoded_address(bytes_of(value@)) == Ok::<AddressRecord, Error>(a@),
                Err(e) => decoded_address(bytes_of(value@)) == Err::<AddressRecord, Error>(e),
            },
    {
        CachedAddress::decode(as_bytes(&value))
    }

    /// Whether the address is one that reading a record can give: every one
    /// of its transactions is.
    pub fn is_valid(&self) -> (valid: bool)
        ensures
            valid == valid_address(self@),
    {
        let mut i: usize = 0;
        while i < self.transactions.len()
            invariant
                i <= self.transactions@.len(),
                forall|n: int| 0 <= n < i ==> valid_transaction(#[trigger] self@.transactions[n]),
            decreases self.transactions@.len() - i,
        {
            if !self.transactions[i].is_valid() {
                assert(!valid_transaction(self@.transactions[i as int]));
                return false;
            }
            i = i + 1;
        }
        true
    }

    /// A copy of the record.
    pub fn copy(&self) -> (copy: CachedAddress)
        ensures
            copy@ == self@,
    {
        let copy = CachedAddress {
            script_hash: self.script_hash,
            balance: self.balance,
            transactions: copy_transactions(&self.transactions),
            script: self.script.copy(),
        };
        assert(copy@ =~= self@);
        copy
    }
}

/// A copy of a list of cached transactions.
pub fn copy_transactions(transactions: &Vec<CachedTransaction>) -> (copy: Vec<CachedTransaction>)
    ensures
        records(copy@) == records(transactions@),
{
    let mut copy: Vec<CachedTransaction> = Vec::new();
    let mut i: usize = 0;
    while i < transactions.len()
        invariant
            i <= transactions@.len(),
            copy@.len() == i,
            forall|k: int| 0 <= k < i ==> copy@[k]@ == transactions@[k]@,
        decreases transactions@.len() - i,
    {
        copy.push(transactions[i].copy());
        i = i + 1;
    }
    assert(records(copy@) =~= records(transactions@));
    copy
}

/// The text of a valid transaction splits into its four fields, holds no
/// address separator and is not empty.
pub proof fn lemma_transaction_fields(t: TransactionRecord)
    requires
        valid_transaction(t),
    ensures
        split(encoded_transaction(t), TRANSACTION_SEPARATOR) == seq![
            t.tx_hex,
            decimal::digits(t.height as nat),
            decimal::digits(t.position as nat),
            encoded_proof(t.merkle_block),
        ],
        is_free_of(encoded_transaction(t), ADDRESS_SEPARATOR),
        encoded_transaction(t).len() > 0,
{
    let height = decimal::digits(t.height as nat);
    let position = decimal::digits(t.position as nat);
    let block = encoded_proof(t.merkle_block);
    let last = joined(position, TRANSACTION_SEPARATOR, block);
    let middle = joined(height, TRANSACTION_SEPARATOR, last);
    let text = encoded_transaction(t);
    lemma_hex_is_plain(t.tx_hex);
    lemma_digits_are_plain(t.height as nat);
    lemma_digits_are_plain(t.position as nat);
    if let Some(bytes) = t.merkle_block {
        hex::lemma_encoded_is_lower_hex(bytes);
        lemma_hex_is_plain(block);
    }
    lemma_split_joined(t.tx_hex, TRANSACTION_SEPARATOR, middle);
    lemma_split_joined(height, TRANSACTION_SEPARATOR, last);
    lemma_split_joined(position, TRANSACTION_SEPARATOR, block);
    lemma_split_single(block, TRANSACTION_SEPARATOR);
    assert(split(text, TRANSACTION_SEPARATOR) =~= seq![t.tx_hex, height, position, block]);
    assert forall|i: int| 0 <= i < text.len() implies #[trigger] text[i] != ADDRESS_SEPARATOR by {
        let a = t.tx_hex.len() as int;
        let b = a + 1 + height.len();
        let c = b + 1 + position.len();
        if i < a {
            assert(text[i] == t.tx_hex[i]);
        } else if i == a {
        } else if i < b {
            assert(text[i] == height[i - a - 1]);
        } else if i == b {
        } else if i < c {
            assert(text[i] == position[i - b - 1]);
        } else if i == c {
        } else {
            assert(text[i] == block[i - c - 1]);
        }
    }
}

/// Reading the text of a valid transaction gives the transaction back.
pub proof fn lemma_transaction_round_trip(t: TransactionRecord)
    requires
        valid_transaction(t),
    ensures
        decoded_transaction(encoded_transaction(t)) == Ok::<TransactionRecord, Error>(t),
{
    lemma_transaction_fields(t);
    if let Some(bytes) = t.merkle_block {
        hex::lemma_decode_encode(bytes);
        hex::lemma_encoded_is_lower_hex(bytes);
    }
    decimal::lemma_parse_format(t.height as nat, u32::MAX as nat);
    decimal::lemma_parse_format(t.position as nat, u32::MAX as nat);
    assert(decoded_transaction(encoded_transaction(t))->Ok_0 =~= t);
}

/// The text of a list of transactions is the text of its first part followed
/// by the text of the rest.
pub proof fn lemma_encoded_transactions_concat(
    a: Seq<TransactionRecord>,
    b: Seq<TransactionRecord>,
)
    ensures
        encoded_transactions(a + b) == encoded_transactions(a) + encoded_transactions(b),
    decreases b.len(),
{
    if b.len() == 0 {
        assert(a + b =~= a);
        assert(encoded_transactions(a) + encoded_transactions(b) =~= encoded_transactions(a));
    } else {
        lemma_encoded_transactions_concat(a, b.drop_last());
        assert((a + b).drop_last() =~= a + b.drop_last());
        assert((a + b).last() == b.last());
        let one = joined(encoded_transaction(b.last()), ADDRESS_SEPARATOR, Seq::empty());
        assert(encoded_transactions(a + b) =~= encoded_transactions(a) + (encoded_transactions(
            b.drop_last(),
        ) + one));
    }
}

/// Reading the fields of the text of valid transactions gives them back.
pub proof fn lemma_transactions_round_trip(transactions: Seq<TransactionRecord>)
    requires
        forall|i: int|
            0 <= i < transactions.len() ==> valid_transaction(#[trigger] transactions[i]),
    ensures
        decoded_transactions(split(encoded_transactions(transactions), ADDRESS_SEPARATOR)) == Ok::<
            Seq<TransactionRecord>,
            Error,
        >(transactions),
    decreases transactions.len(),
{
    let text = encoded_transactions(transactions);
    if transactions.len() == 0 {
        lemma_split_single(text, ADDRESS_SEPARATOR);
        let fields = split(text, ADDRESS_SEPARATOR);
        assert(fields.skip(1) =~= Seq::<Seq<u8>>::empty());
        assert(decoded_transactions(fields.skip(1)) == Ok::<Seq<TransactionRecord>, Error>(
            Seq::empty(),
        ));
        assert(transactions =~= Seq::<TransactionRecord>::empty());
    } else {
        let first = transactions[0];
        let rest = transactions.skip(1);
        assert(valid_transaction(first));
        assert forall|i: int| 0 <= i < rest.len() implies valid_transaction(#[trigger] rest[i]) by {
            assert(rest[i] == transactions[i + 1]);
        }
        lemma_transactions_round_trip(rest);
        lemma_transaction_fields(first);
        lemma_transaction_round_trip(first);
        assert(transactions =~= seq![first] + rest);
        lemma_encoded_transactions_concat(seq![first], rest);
        assert(encoded_transactions(seq![first]) =~= joined(
            encoded_transaction(first),
            ADDRESS_SEPARATOR,
            Seq::empty(),
        )) by {
            assert(seq![first].drop_last() =~= Seq::<TransactionRecord>::empty());
            assert(seq![first].last() == first);
            assert(encoded_transactions(Seq::<TransactionRecord>::empty()) =~= Seq::<u8>::empty());
        }
        assert(text =~= joined(
            encoded_transaction(first),
            ADDRESS_SEPARATOR,
            encoded_transactions(rest),
        ));
        lemma_split_joined(
            encoded_transaction(first),
            ADDRESS_SEPARATOR,
            encoded_transactions(rest),
        );
        let fields = split(text, ADDRESS_SEPARATOR);
        assert(fields[0] == encoded_transaction(first));
        assert(fields.skip(1) =~= split(encoded_transactions(rest), ADDRESS_SEPARATOR));
    }
}

/// The text of an address splits into its three leading fields and the
/// fields of its transactions' text.
pub proof fn lemma_address_fields(a: AddressRecord)
    ensures
        split(encoded_address(a), ADDRESS_SEPARATOR) == seq![
            hex::encoded(a.script_hash),
            decimal::digits(a.balance as nat),
            hex::encoded(a.script),
        ] + split(encoded_transactions(a.transactions), ADDRESS_SEPARATOR),
{
    let hash = hex::encoded(a.script_hash);
    let balance = decimal::digits(a.balance as nat);
    let script = hex::encoded(a.script);
    let transactions = encoded_transactions(a.transactions);
    let last = joined(script, ADDRESS_SEPARATOR, transactions);
    let middle = joined(balance, ADDRESS_SEPARATOR, last);
    hex::lemma_encoded_is_lower_hex(a.script_hash);
    hex::lemma_encoded_is_lower_hex(a.script);
    lemma_hex_is_plain(hash);
    lemma_hex_is_plain(script);
    lemma_digits_are_plain(a.balance as nat);
    lemma_split_joined(hash, ADDRESS_SEPARATOR, middle);
    lemma_split_joined(balance, ADDRESS_SEPARATOR, last);
    lemma_split_joined(script, ADDRESS_SEPARATOR, transactions);
    assert(split(encoded_address(a), ADDRESS_SEPARATOR) =~= seq![hash, balance, script] + split(
        transactions,
        ADDRESS_SEPARATOR,
    ));
}

/// Reading the text of a valid address gives the address back, whatever the
/// number of its transactions.
pub proof fn lemma_address_round_trip(a: AddressRecord)
    requires
        valid_address(a),
    ensures
        decoded_address(encoded_address(a)) == Ok::<AddressRecord, Error>(a),
{
    let f = split(encoded_address(a), ADDRESS_SEPARATOR);
    let tail = split(encoded_transactions(a.transactions), ADDRESS_SEPARATOR);
    lemma_address_fields(a);
    assert(f.len() >= 3 && f.skip(3) =~= tail && f[0] == hex::encoded(a.script_hash) && f[1]
        == decimal::digits(a.balance as nat) && f[2] == hex::encoded(a.script));
    hex::lemma_decode_encode(a.script_hash);
    hex::lemma_decode_encode(a.script);
    decimal::lemma_parse_format(a.balance as nat, u64::MAX as nat);
    lemma_transactions_round_trip(a.transactions);
    assert(decoded_address(encoded_address(a))->Ok_0 =~= a);
}

} // verus!
