//! Strings as the ASCII bytes they are stored as.

use vstd::prelude::*;
use vstd::utf8::*;

verus! {

/// Whether every byte is an ASCII character.
pub open spec fn is_ascii(bytes: Seq<u8>) -> bool {
    forall|i: int| 0 <= i < bytes.len() ==> (#[trigger] bytes[i]) < 0x80
}

/// The bytes that a string is stored as.
pub open spec fn bytes_of(s: Seq<char>) -> Seq<u8> {
    encode_utf8(s)
}

/// ASCII bytes are valid UTF-8.
pub proof fn lemma_ascii_is_utf8(bytes: Seq<u8>)
    requires
        is_ascii(bytes),
    ensures
        valid_utf8(bytes),
{
    assert forall|i: int| 0 <= i < bytes.len() implies #[trigger] is_leading_byte_width_1(
        bytes[i],
    ) by {
        let b: u8 = bytes[i];
        assert(b < 0x80);
        assert(b & 0x80 == 0) by (bit_vector)
            requires
                b < 0x80,
        ;
    }
    assert(bytes.subrange(0, 0) =~= Seq::<u8>::empty());
    assert(partial_valid_utf8(bytes, 0));
    partial_valid_utf8_extend_ascii_block(bytes, 0, bytes.len() as int);
    assert(bytes.subrange(0, bytes.len() as int) =~= bytes);
}

/// `String::from_utf8` of std: the string whose UTF-8 encoding is `bytes`,
/// or nothing where `bytes` is no valid UTF-8.
#[verifier::external_body]
fn string_from_utf8(bytes: Vec<u8>) -> (res: Option<String>)
    ensures
        res is Some <==> valid_utf8(bytes@),
        res matches Some(s) ==> s@ == decode_utf8(bytes@),
{
    String::from_utf8(bytes).ok()
}

/// The string that `bytes` encode; `None` where they are no valid UTF-8.
pub fn string_of(bytes: Vec<u8>) -> (res: Option<String>)
    ensures
        res is Some <==> valid_utf8(bytes@),
        res matches Some(s) ==> bytes_of(s@) == bytes@,
{
    let ghost given = bytes@;
    let res = string_from_utf8(bytes);
    proof {
        if valid_utf8(given) {
            decode_utf8_encode_utf8(given);
        }
    }
    res
}

/// The string that the valid UTF-8 `bytes` encode.
pub fn utf8_string(bytes: Vec<u8>) -> (s: String)
    requires
        valid_utf8(bytes@),
    ensures
        bytes_of(s@) == bytes@,
{
    match string_of(bytes) {
        Some(s) => s,
        None => String::new(),
    }
}

/// The string made of the ASCII characters `bytes`.
pub fn ascii_string(bytes: Vec<u8>) -> (s: String)
    requires
        is_ascii(bytes@),
    ensures
        bytes_of(s@) == bytes@,
{
    proof {
        lemma_ascii_is_utf8(bytes@);
    }
    utf8_string(bytes)
}

/// The bytes of `s`.
pub fn as_bytes(s: &String) -> (bytes: &[u8])
    ensures
        bytes@ == bytes_of(s@),
{
    s.as_str().as_bytes()
}

/// Whether two byte strings are the same.
pub fn same_bytes(a: &[u8], b: &[u8]) -> (same: bool)
    ensures
        same == (a@ == b@),
{
    if a.len() != b.len() {
        return false;
    }
    let mut i: usize = 0;
    while i < a.len()
        invariant
            a@.len() == b@.len(),
            i <= a@.len(),
            forall|k: int| 0 <= k < i ==> a@[k] == b@[k],
        decreases a@.len() - i,
    {
        if a[i] != b[i] {
            return false;
        }
        i = i + 1;
    }
    assert(a@ =~= b@);
    true
}

/// A copy of `bytes`.
pub fn copy_bytes(bytes: &[u8]) -> (copy: Vec<u8>)
    ensures
        copy@ == bytes@,
{
    let mut copy: Vec<u8> = Vec::new();
    let mut i: usize = 0;
    while i < bytes.len()
        invariant
            i <= bytes@.len(),
            copy@ == bytes@.take(i as int),
        decreases bytes@.len() - i,
    {
        copy.push(bytes[i]);
        assert(bytes@.take(i + 1) =~= bytes@.take(i as int).push(bytes@[i as int]));
        i = i + 1;
    }
    assert(bytes@.take(i as int) =~= bytes@);
    copy
}

/// Appends `more` to `text`.
pub fn append(text: &mut Vec<u8>, more: &[u8])
    ensures
        final(text)@ == old(text)@ + more@,
{
    let mut i: usize = 0;
    while i < more.len()
        invariant
            i <= more@.len(),
            text@ == old(text)@ + more@.take(i as int),
        decreases more@.len() - i,
    {
        text.push(more[i]);
        assert(more@.take(i + 1) =~= more@.take(i as int).push(more@[i as int]));
        assert(text@ =~= old(text)@ + more@.take(i + 1));
        i = i + 1;
    }
    assert(more@.take(i as int) =~= more@);
}

} // verus!
