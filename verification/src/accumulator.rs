//! The state of the UTXO accumulator and its text format: the number of
//! leaves in decimal, one space, then every root as 64 hexadecimal digits.

use crate::chain::hash_views;
use crate::decimal;
use crate::error::Error;
use crate::fields::{after_first, first_field, get_arg, joined, lemma_split_joined, Fields};
use crate::hex;
use crate::text::{append, as_bytes, ascii_string, bytes_of, is_ascii};
use vstd::prelude::*;
use vstd::slice::slice_subrange;

verus! {

/// The byte between the number of leaves and the roots.
pub const ROOTS_SEPARATOR: u8 = 0x20;

/// The accumulator after the last block applied: how many leaves it has
/// taken, and the roots of its trees, largest tree first.
#[derive(Debug, Clone, PartialEq, Eq)]
pub struct AccumulatorSnapshot {
    pub leaves: u64,
    pub roots: Vec<[u8; 32]>,
}

/// What a snapshot holds.
#[verifier::ext_equal]
pub struct AccumulatorState {
    pub leaves: u64,
    pub roots: Seq<Seq<u8>>,
}

impl View for AccumulatorSnapshot {
    type V = AccumulatorState;

    open spec fn view(&self) -> AccumulatorState {
        AccumulatorState { leaves: self.leaves, roots: hash_views(self.roots@) }
    }
}

/// The accumulator that has taken nothing yet.
pub open spec fn fresh() -> AccumulatorState {
    AccumulatorState { leaves: 0, roots: Seq::empty() }
}

/// The roots in hexadecimal, one after the other.
pub open spec fn encoded_roots(roots: Seq<Seq<u8>>) -> Seq<u8>
    decreases roots.len(),
{
    if roots.len() == 0 {
        Seq::empty()
    } else {
        encoded_roots(roots.drop_last()) + hex::encoded(roots.last())
    }
}

/// The text of a snapshot.
pub open spec fn encoded_accumulator(a: AccumulatorState) -> Seq<u8> {
    joined(decimal::digits(a.leaves as nat), ROOTS_SEPARATOR, encoded_roots(a.roots))
}

/// The roots that `text` lists: one for every full 64 characters, what is
/// left over ignored; `None` where one of them is no hexadecimal text.
pub open spec fn decoded_roots(text: Seq<u8>) -> Option<Seq<Seq<u8>>>
    decreases text.len(),
{
    if text.len() < 64 {
        Some(Seq::empty())
    } else {
        match hex::decoded(text.take(64)) {
            None => None,
            Some(root) => match decoded_roots(text.skip(64)) {
                None => None,
                Some(more) => Some(seq![root] + more),
            },
        }
    }
}

/// The snapshot that `text` describes: the number before the first space,
/// and the roots listed after it, none where there is no space.
pub open spec fn decoded_accumulator(text: Seq<u8>) -> Result<AccumulatorState, Error> {
    match decimal::parsed(first_field(text, ROOTS_SEPARATOR), u64::MAX as nat) {
        None => Err(Error::DbParseError),
        Some(leaves) => match after_first(text, ROOTS_SEPARATOR) {
            None => Ok(AccumulatorState { leaves: leaves as u64, roots: Seq::empty() }),
            Some(rest) => match decoded_roots(rest) {
                None => Err(Error::DbParseError),
                Some(roots) => Ok(AccumulatorState { leaves: leaves as u64, roots }),
            },
        },
    }
}

/// The snapshot to start from: the stored one, or a fresh one where none was stored.
pub open spec fn restored(stored: Option<Seq<u8>>) -> Result<AccumulatorState, Error> {
    match stored {
        None => Ok(fresh()),
        Some(text) => decoded_accumulator(text),
    }
}

/// Whether every root has exactly 32 bytes.
pub open spec fn valid_accumulator(a: AccumulatorState) -> bool {
    forall|i: int| 0 <= i < a.roots.len() ==> (#[trigger] a.roots[i]).len() == 32
}

/// The text of a list of roots is the text of its first part followed by the
/// text of the rest.
pub proof fn lemma_encoded_roots_concat(a: Seq<Seq<u8>>, b: Seq<Seq<u8>>)
    ensures
        encoded_roots(a + b) == encoded_roots(a) + encoded_roots(b),
    decreases b.len(),
{
    if b.len() == 0 {
        assert(a + b =~= a);
        assert(encoded_roots(a) + encoded_roots(b) =~= encoded_roots(a));
    } else {
        lemma_encoded_roots_concat(a, b.drop_last());
        assert((a + b).drop_last() =~= a + b.drop_last());
        assert((a + b).last() == b.last());
        assert(encoded_roots(a + b) =~= encoded_roots(a) + (encoded_roots(b.drop_last())
            + hex::encoded(b.last())));
    }
}

/// The text of roots is ASCII.
pub proof fn lemma_encoded_roots_are_ascii(roots: Seq<Seq<u8>>)
    ensures
        is_ascii(encoded_roots(roots)),
    decreases roots.len(),
{
    if roots.len() > 0 {
        lemma_encoded_roots_are_ascii(roots.drop_last());
        hex::lemma_encoded_is_lower_hex(roots.last());
        let head = encoded_roots(roots.drop_last());
        let tail = hex::encoded(roots.last());
        assert forall|i: int| 0 <= i < (head + tail).len() implies (#[trigger] (head + tail)[i])
            < 0x80 by {
            if i >= head.len() {
                assert(hex::is_lower_digit(tail[i - head.len()]));
            }
        }
    }
}

/// Reading the text of 32-byte roots gives the roots back.
pub proof fn lemma_roots_round_trip(roots: Seq<Seq<u8>>)
    requires
        forall|i: int| 0 <= i < roots.len() ==> (#[trigger] roots[i]).len() == 32,
    ensures
        decoded_roots(encoded_roots(roots)) == Some(roots),
    decreases roots.len(),
{
    let text = encoded_roots(roots);
    if roots.len() == 0 {
        assert(roots =~= Seq::<Seq<u8>>::empty());
    } else {
        let first = roots[0];
        let rest = roots.skip(1);
        assert(first.len() == 32);
        assert forall|i: int| 0 <= i < rest.len() implies (#[trigger] rest[i]).len() == 32 by {
            assert(rest[i] == roots[i + 1]);
        }
        lemma_roots_round_trip(rest);
        assert(roots =~= seq![first] + rest);
        lemma_encoded_roots_concat(seq![first], rest);
        assert(encoded_roots(seq![first]) =~= hex::encoded(first)) by {
            assert(seq![first].drop_last() =~= Seq::<Seq<u8>>::empty());
            assert(seq![first].last() == first);
            assert(encoded_roots(Seq::<Seq<u8>>::empty()) =~= Seq::<u8>::empty());
        }
        hex::lemma_encoded_is_lower_hex(first);
        hex::lemma_decode_encode(first);
        assert(text.take(64) =~= hex::encoded(first));
        assert(text.skip(64) =~= encoded_roots(rest));
    }
}

/// Reading the text of a snapshot whose roots have 32 bytes each gives the
/// snapshot back.
pub proof fn lemma_accumulator_round_trip(a: AccumulatorState)
    requires
        valid_accumulator(a),
    ensures
        decoded_accumulator(encoded_accumulator(a)) == Ok::<AccumulatorState, Error>(a),
{
    let leaves = decimal::digits(a.leaves as nat);
    decimal::lemma_digits_are_digits(a.leaves as nat);
    assert forall|i: int| 0 <= i < leaves.len() implies #[trigger] leaves[i] != ROOTS_SEPARATOR by {
        assert(decimal::is_digit(leaves[i]));
    }
    lemma_split_joined(leaves, ROOTS_SEPARATOR, encoded_roots(a.roots));
    decimal::lemma_parse_format(a.leaves as nat, u64::MAX as nat);
    lemma_roots_round_trip(a.roots);
    assert(decoded_accumulator(encoded_accumulator(a))->Ok_0 =~= a);
}

impl AccumulatorSnapshot {
    /// The accumulator that has taken nothing yet.
    pub fn new() -> (acc: AccumulatorSnapshot)
        ensures
            acc@ == fresh(),
    {
        let acc = AccumulatorSnapshot { leaves: 0, roots: Vec::new() };
        assert(acc@ =~= fresh());
        acc
    }

    /// The snapshot's text, as bytes.
    pub fn encode(&self) -> (text: Vec<u8>)
        ensures
            text@ == encoded_accumulator(self@),
            is_ascii(text@),
    {
        let mut text: Vec<u8> = decimal::format(self.leaves);
        text.push(ROOTS_SEPARATOR);
        let ghost head = text@;
        let ghost all = hash_views(self.roots@);
        assert(all.take(0) =~= Seq::<Seq<u8>>::empty());
        let mut i: usize = 0;
        while i < self.roots.len()
            invariant
                i <= self.roots@.len(),
                all == hash_views(self.roots@),
                text@ == head + encoded_roots(all.take(i as int)),
            decreases self.roots@.len() - i,
        {
            let root: Vec<u8> = hex::encode(self.roots[i].as_slice());
            append(&mut text, root.as_slice());
            proof {
                let done = all.take(i + 1);
                assert(done.drop_last() =~= all.take(i as int));
                assert(done.last() == self.roots@[i as int]@);
                assert(text@ =~= head + encoded_roots(done));
            }
            i = i + 1;
        }
        proof {
            assert(all.take(i as int) =~= all);
            assert(text@ =~= encoded_accumulator(self@));
            decimal::lemma_digits_are_digits(self.leaves as nat);
            lemma_encoded_roots_are_ascii(all);
            let leaves = decimal::digits(self.leaves as nat);
            assert forall|k: int| 0 <= k < text@.len() implies (#[trigger] text@[k]) < 0x80 by {
                if k < leaves.len() {
                    assert(decimal::is_digit(leaves[k]));
                } else if k > leaves.len() {
                    assert(text@[k] == encoded_roots(all)[k - leaves.len() - 1]);
                }
            }
        }
        text
    }

    /// The snapshot's text: `leaves root root ...`, the roots without
    /// anything between them.
    pub fn to_string(&self) -> (text: String)
        ensures
            bytes_of(text@) == encoded_accumulator(self@),
    {
        ascii_string(self.encode())
    }

    /// Reads a snapshot from its bytes.
    pub fn decode(text: &[u8]) -> (res: Result<AccumulatorSnapshot, Error>)
        ensures
            match res {
                Ok(a) => decoded_accumulator(text@) == Ok::<AccumulatorState, Error>(a@),
                Err(e) => decoded_accumulator(text@) == Err::<AccumulatorState, Error>(e),
            },
    {
        let fields = Fields::new(text, ROOTS_SEPARATOR);
        let (leaves_text, fields) = match get_arg(fields) {
            Ok(taken) => taken,
            Err(e) => {
                return Err(e);
            },
        };
        let leaves: u64 = match decimal::parse(leaves_text, u64::MAX) {
            Some(n) => n,
            None => {
                return Err(Error::DbParseError);
            },
        };
        let mut roots: Vec<[u8; 32]> = Vec::new();
        match fields.rest {
            None => {
                let acc = AccumulatorSnapshot { leaves, roots };
                assert(acc@ =~= decoded_accumulator(text@)->Ok_0);
                Ok(acc)
            },
            Some(rest) => {
                let mut at: usize = 0;
                assert(rest@.skip(0) =~= rest@);
                assert(following_roots(hash_views(roots@), decoded_roots(rest@)) == decoded_roots(
                    rest@,
                )) by {
                    if let Some(more) = decoded_roots(rest@) {
                        assert(hash_views(roots@) + more =~= more);
                    }
                }
                while rest.len() - at >= 64
                    invariant
                        at <= rest@.len(),
                        decimal::parsed(first_field(text@, ROOTS_SEPARATOR), u64::MAX as nat)
                            == Some(leaves as nat),
                        after_first(text@, ROOTS_SEPARATOR) == Some(rest@),
                        decoded_roots(rest@) == following_roots(
                            hash_views(roots@),
                            decoded_roots(rest@.skip(at as int)),
                        ),
                    decreases rest@.len() - at,
                {
                    let chunk: &[u8] = slice_subrange(rest, at, at + 64);
                    let ghost left = rest@.skip(at as int);
                    let ghost done = hash_views(roots@);
                    assert(left.take(64) =~= chunk@);
                    assert(left.skip(64) =~= rest@.skip(at + 64));
                    let root: [u8; 32] = match crate::chain::hash_of_hex(chunk) {
                        Some(root) => root,
                        None => {
                            proof {
                                if let Some(bytes) = hex::decoded(chunk@) {
                                    assert(bytes.len() == 32);
                                }
                            }
                            return Err(Error::DbParseError);
                        },
                    };
                    roots.push(root);
                    at = at + 64;
                    proof {
                        assert(hash_views(roots@) =~= done + seq![root@]);
                        if let Some(more) = decoded_roots(rest@.skip(at as int)) {
                            assert(done + (seq![root@] + more) =~= done + seq![root@] + more);
                        }
                    }
                }
                proof {
                    assert(hash_views(roots@) + Seq::<Seq<u8>>::empty() =~= hash_views(roots@));
                }
                let acc = AccumulatorSnapshot { leaves, roots };
                assert(acc@ =~= decoded_accumulator(text@)->Ok_0);
                Ok(acc)
            },
        }
    }

    /// The snapshot to start from: the one that `stored` describes, or a
    /// fresh one where nothing was stored.
    pub fn from_stored(stored: Option<String>) -> (res: Result<AccumulatorSnapshot, Error>)
        ensures
            match res {
                Ok(a) => restored(stored_bytes(stored)) == Ok::<AccumulatorState, Error>(a@),
                Err(e) => restored(stored_bytes(stored)) == Err::<AccumulatorState, Error>(e),
            },
    {
        match stored {
            None => Ok(AccumulatorSnapshot::new()),
            Some(text) => AccumulatorSnapshot::decode(as_bytes(&text)),
        }
    }

    /// The snapshot to start from, given what the chain store answered when
    /// asked for the stored text: the store's error where it failed, else
    /// what `from_stored` gives for the text, or for the lack of one.
    pub fn from_answer(answer: Result<Option<String>, Error>) -> (res: Result<
        AccumulatorSnapshot,
        Error,
    >)
        ensures
            match answer {
                Err(e) => res == Err::<AccumulatorSnapshot, Error>(e),
                Ok(stored) => match res {
                    Ok(a) => restored(stored_bytes(stored)) == Ok::<AccumulatorState, Error>(a@),
                    Err(e) => restored(stored_bytes(stored)) == Err::<AccumulatorState, Error>(e),
                },
            },
    {
        match answer {
            Ok(stored) => AccumulatorSnapshot::from_stored(stored),
            Err(e) => Err(e),
        }
    }

    /// A copy of the snapshot.
    pub fn copy(&self) -> (copy: AccumulatorSnapshot)
        ensures
            copy@ == self@,
    {
        let mut roots: Vec<[u8; 32]> = Vec::new();
        let mut i: usize = 0;
        while i < self.roots.len()
            invariant
                i <= self.roots@.len(),
                roots@ == self.roots@.take(i as int),
            decreases self.roots@.len() - i,
        {
            roots.push(self.roots[i]);
            assert(self.roots@.take(i + 1) =~= self.roots@.take(i as int).push(self.roots@[i as int]));
            i = i + 1;
        }
        assert(self.roots@.take(i as int) =~= self.roots@);
        AccumulatorSnapshot { leaves: self.leaves, roots }
    }
}

/// The bytes of a stored text, if there is one.
pub open spec fn stored_bytes(stored: Option<String>) -> Option<Seq<u8>> {
    match stored {
        Some(text) => Some(bytes_of(text@)),
        None => None,
    }
}

/// `rest` with `done` in front of it, where `rest` is some list.
pub open spec fn following_roots(done: Seq<Seq<u8>>, rest: Option<Seq<Seq<u8>>>) -> Option<
    Seq<Seq<u8>>,
> {
    match rest {
        Some(more) => Some(done + more),
        None => None,
    }
}

} // verus!
