//! The chain data that the cache reads: hashes, scripts, transactions, blocks
//! and merkle proofs, held as plain bytes and numbers.
//!
//! What only the `bitcoin` crate can compute (a digest, the id of a serialized
//! transaction, the hashes inside a merkle proof, the proof for a transaction
//! of a block) is named here by a function without a body, and fetched by a
//! small function that makes the call.

use crate::hex;
use crate::text::same_bytes;
use vstd::prelude::*;

verus! {

/// The identifier of a transaction: 32 bytes, in the order in which they are hashed.
#[derive(Debug, Clone, Copy, PartialEq, Eq)]
pub struct Txid {
    pub bytes: [u8; 32],
}

/// The identity of a watched script: the SHA-256 digest of the script, byte-reversed.
#[derive(Debug, Clone, Copy, PartialEq, Eq)]
pub struct ScriptHash {
    pub bytes: [u8; 32],
}

/// An output script.
#[derive(Debug, Clone, PartialEq, Eq)]
pub struct Script {
    pub bytes: Vec<u8>,
}

/// One output of a transaction.
#[derive(Debug, Clone, PartialEq, Eq)]
pub struct TxOut {
    pub value: u64,
    pub script_pubkey: Script,
}

/// A transaction: its serialized bytes, its id and its outputs.
#[derive(Debug, Clone, PartialEq, Eq)]
pub struct Transaction {
    pub raw: Vec<u8>,
    pub txid: Txid,
    pub output: Vec<TxOut>,
}

/// A block: its serialized 80-byte header and its transactions, in order.
#[derive(Debug, Clone, PartialEq, Eq)]
pub struct Block {
    pub header: [u8; 80],
    pub txdata: Vec<Transaction>,
}

/// A serialized merkle block: a block header followed by a partial merkle tree.
#[derive(Debug, Clone, PartialEq, Eq)]
pub struct MerkleBlock {
    pub bytes: Vec<u8>,
}

/// What an output holds.
pub struct TxOutView {
    pub value: u64,
    pub script_pubkey: Seq<u8>,
}

/// What a transaction holds.
pub struct TransactionView {
    pub raw: Seq<u8>,
    pub txid: Seq<u8>,
    pub output: Seq<TxOutView>,
}

impl View for Txid {
    type V = Seq<u8>;

    open spec fn view(&self) -> Seq<u8> {
        self.bytes@
    }
}

impl View for ScriptHash {
    type V = Seq<u8>;

    open spec fn view(&self) -> Seq<u8> {
        self.bytes@
    }
}

impl View for Script {
    type V = Seq<u8>;

    open spec fn view(&self) -> Seq<u8> {
        self.bytes@
    }
}

impl View for MerkleBlock {
    type V = Seq<u8>;

    open spec fn view(&self) -> Seq<u8> {
        self.bytes@
    }
}

impl View for TxOut {
    type V = TxOutView;

    open spec fn view(&self) -> TxOutView {
        TxOutView { value: self.value, script_pubkey: self.script_pubkey@ }
    }
}

impl View for Transaction {
    type V = TransactionView;

    open spec fn view(&self) -> TransactionView {
        TransactionView {
            raw: self.raw@,
            txid: self.txid@,
            output: self.output@.map_values(|o: TxOut| o@),
        }
    }
}

/// The byte strings of a list of 32-byte hashes.
pub open spec fn hash_views(hashes: Seq<[u8; 32]>) -> Seq<Seq<u8>> {
    hashes.map_values(|h: [u8; 32]| h@)
}

/// The byte strings of a list of transaction ids.
pub open spec fn txid_views(ids: Seq<Txid>) -> Seq<Seq<u8>> {
    ids.map_values(|t: Txid| t@)
}

/// The SHA-256 digest of `data`.
pub uninterp spec fn sha256(data: Seq<u8>) -> Seq<u8>;

/// The id of the transaction that `raw` serializes; `None` where `raw` is no
/// serialized transaction.
pub uninterp spec fn transaction_id(raw: Seq<u8>) -> Option<Seq<u8>>;

/// The hashes that the partial merkle tree of a serialized merkle block lists,
/// in order; `None` where `bytes` is no serialized merkle block.
pub uninterp spec fn merkle_block_hashes(bytes: Seq<u8>) -> Option<Seq<Seq<u8>>>;

/// The serialized partial merkle tree over `txids` that proves the
/// transactions flagged in `matches`.
pub uninterp spec fn partial_merkle_tree(txids: Seq<Seq<u8>>, matches: Seq<bool>) -> Seq<u8>;

/// Whether `bytes` hold a merkle block: they are not empty and decode to one.
pub open spec fn is_merkle_block(bytes: Seq<u8>) -> bool {
    bytes.len() > 0 && merkle_block_hashes(bytes) is Some
}

/// Whether `txid` is the id of the transaction that `raw` serializes.
pub open spec fn is_id_of(txid: Seq<u8>, raw: Seq<u8>) -> bool {
    transaction_id(raw) == Some(txid)
}

/// The identity under which a script is watched.
pub open spec fn script_hash_of(script: Seq<u8>) -> Seq<u8> {
    sha256(script).reverse()
}

/// The text of a transaction id: its bytes in reverse order, in hexadecimal.
pub open spec fn txid_text(id: Seq<u8>) -> Seq<u8> {
    hex::encoded(id.reverse())
}

/// The transaction id that `text` names, if it is 64 hexadecimal digits.
pub open spec fn txid_from_text(text: Seq<u8>) -> Option<Seq<u8>> {
    match hex::decoded(text) {
        Some(bytes) => if bytes.len() == 32 {
            Some(bytes.reverse())
        } else {
            None
        },
        None => None,
    }
}

/// Reading the text of a transaction id gives the id back.
pub proof fn lemma_txid_text_round_trip(id: Seq<u8>)
    requires
        id.len() == 32,
    ensures
        txid_from_text(txid_text(id)) == Some(id),
{
    hex::lemma_decode_encode(id.reverse());
    assert(id.reverse().reverse() =~= id);
}

/// Different transaction ids have different texts.
pub proof fn lemma_txid_text_injective(a: Seq<u8>, b: Seq<u8>)
    requires
        a.len() == 32,
        b.len() == 32,
        txid_text(a) == txid_text(b),
    ensures
        a == b,
{
    lemma_txid_text_round_trip(a);
    lemma_txid_text_round_trip(b);
}

/// `bitcoin::hashes::sha256::Hash::hash`: the SHA-256 digest of `data`.
#[verifier::external_body]
fn sha256_digest(data: &[u8]) -> (digest: [u8; 32])
    ensures
        digest@ == sha256(data@),
{
    let digest = <bitcoin::hashes::sha256::Hash as bitcoin::hashes::Hash>::hash(data);
    <bitcoin::hashes::sha256::Hash as bitcoin::hashes::Hash>::into_inner(digest)
}

/// `bitcoin::consensus::deserialize` into a `bitcoin::Transaction`, then
/// `Transaction::txid`: the id of the transaction that `raw` serializes, or
/// nothing where the bytes do not decode to exactly one transaction.
#[verifier::external_body]
fn decode_transaction_id(raw: &[u8]) -> (id: Option<Txid>)
    ensures
        match id {
            Some(t) => transaction_id(raw@) == Some(t@),
            None => transaction_id(raw@) is None,
        },
{
    let decoded: Result<bitcoin::Transaction, _> = bitcoin::consensus::deserialize(raw);
    decoded.ok().map(
        |tx| Txid { bytes: <bitcoin::Txid as bitcoin::hashes::Hash>::into_inner(tx.txid()) },
    )
}

/// `bitcoin::consensus::deserialize` into a `bitcoin::MerkleBlock`, then
/// `PartialMerkleTree::hashes`: the hashes that the proof lists, or nothing
/// where the bytes do not decode to exactly one merkle block.
#[verifier::external_body]
fn decode_merkle_hashes(bytes: &[u8]) -> (hashes: Option<Vec<[u8; 32]>>)
    ensures
        match hashes {
            Some(h) => merkle_block_hashes(bytes@) == Some(hash_views(h@)),
            None => merkle_block_hashes(bytes@) is None,
        },
{
    let decoded: Result<bitcoin::MerkleBlock, _> = bitcoin::consensus::deserialize(bytes);
    decoded.ok().map(
        |block|
            block.txn.hashes().iter().map(
                |h| <bitcoin::TxMerkleNode as bitcoin::hashes::Hash>::into_inner(*h),
            ).collect(),
    )
}

/// `bitcoin::util::merkleblock::PartialMerkleTree::from_txids`, then
/// `bitcoin::consensus::serialize`: the serialized tree over `txids` with the
/// flagged transactions proved. The outside function panics on an empty list
/// and on lists of different lengths, and its 32-bit arithmetic holds for up
/// to 2^31 transactions.
#[verifier::external_body]
fn build_partial_merkle_tree(txids: &Vec<Txid>, matches: &Vec<bool>) -> (bytes: Vec<u8>)
    requires
        0 < txids@.len() <= 0x7fff_ffff,
        txids@.len() == matches@.len(),
    ensures
        bytes@ == partial_merkle_tree(txid_views(txids@), matches@),
{
    let ids: Vec<bitcoin::Txid> = txids.iter().map(
        |t| <bitcoin::Txid as bitcoin::hashes::Hash>::from_inner(t.bytes),
    ).collect();
    let tree = bitcoin::util::merkleblock::PartialMerkleTree::from_txids(&ids, matches);
    bitcoin::consensus::serialize(&tree)
}

impl Txid {
    /// Whether both are the same id.
    pub fn same(&self, other: &Txid) -> (same: bool)
        ensures
            same == (self@ == other@),
    {
        same_bytes(self.bytes.as_slice(), other.bytes.as_slice())
    }

    /// The id as text: the bytes in reverse order, in lowercase hexadecimal.
    pub fn to_hex(&self) -> (text: Vec<u8>)
        ensures
            text@ == txid_text(self@),
    {
        let reversed: [u8; 32] = reversed_hash(&self.bytes);
        hex::encode(reversed.as_slice())
    }

    /// The id that `text` names; `None` unless `text` is 64 hexadecimal digits.
    pub fn from_hex(text: &[u8]) -> (id: Option<Txid>)
        ensures
            match id {
                Some(t) => txid_from_text(text@) == Some(t@),
                None => txid_from_text(text@) is None,
            },
    {
        match hash_of_hex(text) {
            Some(bytes) => Some(Txid { bytes: reversed_hash(&bytes) }),
            None => None,
        }
    }

    /// The id of the transaction that `raw` serializes.
    pub fn of_transaction(raw: &[u8]) -> (id: Option<Txid>)
        ensures
            match id {
                Some(t) => transaction_id(raw@) == Some(t@),
                None => transaction_id(raw@) is None,
            },
    {
        decode_transaction_id(raw)
    }
}

impl ScriptHash {
    /// Whether both are the same hash.
    pub fn same(&self, other: &ScriptHash) -> (same: bool)
        ensures
            same == (self@ == other@),
    {
        same_bytes(self.bytes.as_slice(), other.bytes.as_slice())
    }

    /// The hash as text: its bytes in lowercase hexadecimal.
    pub fn to_hex(&self) -> (text: Vec<u8>)
        ensures
            text@ == hex::encoded(self@),
    {
        hex::encode(self.bytes.as_slice())
    }

    /// The hash that `text` names; `None` unless `text` is 64 hexadecimal digits.
    pub fn from_hex(text: &[u8]) -> (hash: Option<ScriptHash>)
        ensures
            match hash {
                Some(h) => hex::decoded(text@) == Some(h@),
                None => hex::decoded(text@) is None || hex::decoded(text@)->0.len() != 32,
            },
    {
        match hash_of_hex(text) {
            Some(bytes) => Some(ScriptHash { bytes }),
            None => None,
        }
    }

    /// The hash under which `script` is watched.
    pub fn of_script(script: &Script) -> (hash: ScriptHash)
        ensures
            hash@ == script_hash_of(script@),
    {
        let digest: [u8; 32] = sha256_digest(script.bytes.as_slice());
        ScriptHash { bytes: reversed_hash(&digest) }
    }
}

impl Script {
    /// Whether both are the same script.
    pub fn same(&self, other: &Script) -> (same: bool)
        ensures
            same == (self@ == other@),
    {
        same_bytes(self.bytes.as_slice(), other.bytes.as_slice())
    }

    /// A copy of the script.
    pub fn copy(&self) -> (copy: Script)
        ensures
            copy@ == self@,
    {
        Script { bytes: crate::text::copy_bytes(self.bytes.as_slice()) }
    }
}

impl MerkleBlock {
    /// Whether the bytes hold a merkle block.
    pub open spec fn valid(&self) -> bool {
        is_merkle_block(self@)
    }

    /// Whether the bytes hold a merkle block.
    pub fn is_valid(&self) -> (valid: bool)
        ensures
            valid == self.valid(),
    {
        self.bytes.len() > 0 && self.hashes().is_some()
    }

    /// Whether both hold the same bytes.
    pub fn same(&self, other: &MerkleBlock) -> (same: bool)
        ensures
            same == (self@ == other@),
    {
        same_bytes(self.bytes.as_slice(), other.bytes.as_slice())
    }

    /// A copy of the proof.
    pub fn copy(&self) -> (copy: MerkleBlock)
        ensures
            copy@ == self@,
    {
        MerkleBlock { bytes: crate::text::copy_bytes(self.bytes.as_slice()) }
    }

    /// The hashes that the proof lists, in order; `None` where the bytes are
    /// no serialized merkle block.
    pub fn hashes(&self) -> (hashes: Option<Vec<[u8; 32]>>)
        ensures
            match hashes {
                Some(h) => merkle_block_hashes(self@) == Some(hash_views(h@)),
                None => merkle_block_hashes(self@) is None,
            },
    {
        decode_merkle_hashes(self.bytes.as_slice())
    }
}

impl TxOut {
    /// A copy of the output.
    pub fn copy(&self) -> (copy: TxOut)
        ensures
            copy@ == self@,
    {
        TxOut { value: self.value, script_pubkey: self.script_pubkey.copy() }
    }
}

impl Transaction {
    /// Whether the id is that of the serialized transaction.
    pub open spec fn valid(&self) -> bool {
        is_id_of(self.txid@, self.raw@)
    }

    /// Whether the id is that of the serialized transaction.
    pub fn is_valid(&self) -> (valid: bool)
        ensures
            valid == self.valid(),
    {
        match Txid::of_transaction(self.raw.as_slice()) {
            Some(id) => id.same(&self.txid),
            None => false,
        }
    }

    /// The id of the transaction.
    pub fn txid(&self) -> (id: Txid)
        ensures
            id == self.txid,
    {
        self.txid
    }

    /// A copy of the transaction.
    pub fn copy(&self) -> (copy: Transaction)
        ensures
            copy@ == self@,
    {
        let mut output: Vec<TxOut> = Vec::new();
        let mut i: usize = 0;
        while i < self.output.len()
            invariant
                i <= self.output@.len(),
                output@.len() == i,
                forall|k: int| 0 <= k < i ==> output@[k]@ == self.output@[k]@,
            decreases self.output@.len() - i,
        {
            output.push(self.output[i].copy());
            i = i + 1;
        }
        let copy = Transaction {
            raw: crate::text::copy_bytes(self.raw.as_slice()),
            txid: self.txid,
            output,
        };
        assert(copy@.output =~= self@.output);
        copy
    }
}

/// The bytes of `hash` in reverse order.
fn reversed_hash(hash: &[u8; 32]) -> (reversed: [u8; 32])
    ensures
        reversed@ == hash@.reverse(),
{
    let mut reversed: [u8; 32] = [0u8; 32];
    let mut i: usize = 0;
    while i < 32
        invariant
            i <= 32,
            forall|k: int| 0 <= k < i ==> reversed@[k] == hash@[31 - k],
        decreases 32 - i,
    {
        reversed[i] = hash[31 - i];
        i = i + 1;
    }
    assert(reversed@ =~= hash@.reverse());
    reversed
}

/// The 32 bytes that `text` stands for, if it is 64 hexadecimal digits.
pub fn hash_of_hex(text: &[u8]) -> (hash: Option<[u8; 32]>)
    ensures
        match hash {
            Some(h) => hex::decoded(text@) == Some(h@),
            None => hex::decoded(text@) is None || hex::decoded(text@)->0.len() != 32,
        },
{
    match hex::decode(text) {
        Some(bytes) => {
            if bytes.len() != 32 {
                return None;
            }
            let mut hash: [u8; 32] = [0u8; 32];
            let mut i: usize = 0;
            while i < 32
                invariant
                    i <= 32,
                    bytes@.len() == 32,
                    forall|k: int| 0 <= k < i ==> hash@[k] == bytes@[k],
                decreases 32 - i,
            {
                hash[i] = bytes[i];
                i = i + 1;
            }
            assert(hash@ =~= bytes@);
            Some(hash)
        },
        None => None,
    }
}

/// The serialized merkle block that proves the transaction at `position`:
/// the block's header, then the partial merkle tree over all its transaction
/// ids with that one flagged.
pub open spec fn merkle_block_of(header: Seq<u8>, txids: Seq<Seq<u8>>, position: int) -> Seq<u8> {
    header + partial_merkle_tree(txids, Seq::new(txids.len(), |i: int| txids[i] == txids[position]))
}

impl Block {
    /// The ids of the block's transactions, in order.
    pub open spec fn txids(&self) -> Seq<Seq<u8>> {
        self.txdata@.map_values(|t: Transaction| t.txid@)
    }

    /// Builds the merkle block that proves the transaction at `position`.
    ///
    /// Every transaction with the same id as that one is flagged too.
    pub fn merkle_block(&self, position: usize) -> (block: MerkleBlock)
        requires
            position < self.txdata@.len() <= 0x7fff_ffff,
        ensures
            block@ == merkle_block_of(self.header@, self.txids(), position as int),
    {
        let target: Txid = self.txdata[position].txid;
        let mut ids: Vec<Txid> = Vec::new();
        let mut matches: Vec<bool> = Vec::new();
        let mut i: usize = 0;
        while i < self.txdata.len()
            invariant
                i <= self.txdata@.len(),
                position < self.txdata@.len(),
                target == self.txdata@[position as int].txid,
                ids@.len() == i,
                matches@.len() == i,
                forall|k: int| 0 <= k < i ==> ids@[k] == self.txdata@[k].txid,
                forall|k: int|
                    0 <= k < i ==> matches@[k] == (self.txids()[k] == self.txids()[position as int]),
            decreases self.txdata@.len() - i,
        {
            let id: Txid = self.txdata[i].txid;
            matches.push(id.same(&target));
            ids.push(id);
            i = i + 1;
        }
        let tree: Vec<u8> = build_partial_merkle_tree(&ids, &matches);
        let mut bytes: Vec<u8> = crate::text::copy_bytes(self.header.as_slice());
        crate::text::append(&mut bytes, tree.as_slice());
        proof {
            assert(txid_views(ids@) =~= self.txids());
            assert(matches@ =~= Seq::new(
                self.txids().len(),
                |i: int| self.txids()[i] == self.txids()[position as int],
            ));
        }
        MerkleBlock { bytes }
    }
}

} // verus!
