//! Hexadecimal text: two ASCII digits per byte, most significant nibble first.
//!
//! Encoding always writes lowercase digits; decoding accepts both cases.

use vstd::prelude::*;

verus! {

/// The lowercase ASCII digit that stands for the nibble `n`.
pub open spec fn digit_of(n: int) -> u8 {
    if n < 10 {
        (0x30 + n) as u8
    } else {
        (0x57 + n) as u8
    }
}

/// The nibble that the ASCII character `c` stands for, if it is a hexadecimal digit.
pub open spec fn value_of(c: u8) -> Option<int> {
    if 0x30 <= c <= 0x39 {
        Some(c - 0x30)
    } else if 0x61 <= c <= 0x66 {
        Some(c - 0x57)
    } else if 0x41 <= c <= 0x46 {
        Some(c - 0x37)
    } else {
        None
    }
}

/// Whether `c` is one of `0`..`9`, `a`..`f`.
pub open spec fn is_lower_digit(c: u8) -> bool {
    (0x30 <= c <= 0x39) || (0x61 <= c <= 0x66)
}

/// The hexadecimal text of `bytes`.
pub open spec fn encoded(bytes: Seq<u8>) -> Seq<u8> {
    Seq::new(
        2 * bytes.len(),
        |i: int|
            if i % 2 == 0 {
                digit_of(bytes[i / 2] as int / 16)
            } else {
                digit_of(bytes[i / 2] as int % 16)
            },
    )
}

/// Whether `text` is an even number of hexadecimal digits.
pub open spec fn is_hex(text: Seq<u8>) -> bool {
    &&& text.len() % 2 == 0
    &&& forall|i: int| 0 <= i < text.len() ==> (#[trigger] value_of(text[i])) is Some
}

/// The bytes that `text` stands for; `None` unless `text` is hexadecimal.
pub open spec fn decoded(text: Seq<u8>) -> Option<Seq<u8>> {
    if is_hex(text) {
        Some(
            Seq::new(
                (text.len() / 2) as nat,
                |i: int| (value_of(text[2 * i])->0 * 16 + value_of(text[2 * i + 1])->0) as u8,
            ),
        )
    } else {
        None
    }
}

/// Whether every character of `text` is a lowercase hexadecimal digit.
pub open spec fn is_lower_hex(text: Seq<u8>) -> bool {
    forall|i: int| 0 <= i < text.len() ==> is_lower_digit(#[trigger] text[i])
}

/// Encoded text consists of lowercase digits only, and is twice as long as the bytes.
pub proof fn lemma_encoded_is_lower_hex(bytes: Seq<u8>)
    ensures
        encoded(bytes).len() == 2 * bytes.len(),
        is_lower_hex(encoded(bytes)),
        is_hex(encoded(bytes)),
{
    let text = encoded(bytes);
    assert forall|i: int| 0 <= i < text.len() implies is_lower_digit(#[trigger] text[i]) && value_of(
        text[i],
    ) is Some by {
        let b: int = bytes[i / 2] as int;
        assert(0 <= b / 16 < 16 && 0 <= b % 16 < 16);
    }
}

/// Decoding undoes encoding.
pub proof fn lemma_decode_encode(bytes: Seq<u8>)
    ensures
        decoded(encoded(bytes)) == Some(bytes),
{
    lemma_encoded_is_lower_hex(bytes);
    let text = encoded(bytes);
    let back = decoded(text)->0;
    assert(back.len() == bytes.len());
    assert forall|i: int| 0 <= i < bytes.len() implies back[i] == bytes[i] by {
        let b: int = bytes[i] as int;
        assert(0 <= b / 16 < 16 && 0 <= b % 16 < 16);
        assert((2 * i) % 2 == 0 && (2 * i) / 2 == i);
        assert((2 * i + 1) % 2 == 1 && (2 * i + 1) / 2 == i);
        assert(text[2 * i] == digit_of(b / 16));
        assert(text[2 * i + 1] == digit_of(b % 16));
        assert(value_of(digit_of(b / 16)) == Some(b / 16));
        assert(value_of(digit_of(b % 16)) == Some(b % 16));
        assert(b / 16 * 16 + b % 16 == b);
    }
    assert(back =~= bytes);
}

fn nibble_digit(n: u8) -> (c: u8)
    requires
        n < 16,
    ensures
        c == digit_of(n as int),
{
    if n < 10 {
        0x30 + n
    } else {
        0x57 + n
    }
}

fn digit_nibble(c: u8) -> (n: Option<u8>)
    ensures
        match n {
            Some(v) => value_of(c) == Some(v as int) && v < 16,
            None => value_of(c) is None,
        },
{
    if 0x30 <= c && c <= 0x39 {
        Some(c - 0x30)
    } else if 0x61 <= c && c <= 0x66 {
        Some(c - 0x57)
    } else if 0x41 <= c && c <= 0x46 {
        Some(c - 0x37)
    } else {
        None
    }
}

/// Writes `bytes` as lowercase hexadecimal text.
pub fn encode(bytes: &[u8]) -> (text: Vec<u8>)
    ensures
        text@ == encoded(bytes@),
{
    let mut text: Vec<u8> = Vec::new();
    let mut i: usize = 0;
    while i < bytes.len()
        invariant
            i <= bytes.len(),
            text@.len() == 2 * i,
            forall|k: int| 0 <= k < 2 * i ==> text@[k] == encoded(bytes@)[k],
        decreases bytes.len() - i,
    {
        let b: u8 = bytes[i];
        text.push(nibble_digit(b / 16));
        text.push(nibble_digit(b % 16));
        proof {
            assert((2 * i) % 2 == 0 && (2 * i) / 2 == i);
            assert((2 * i + 1) % 2 == 1 && (2 * i + 1) / 2 == i);
        }
        i = i + 1;
    }
    assert(text@ =~= encoded(bytes@));
    text
}

/// Reads hexadecimal text; `None` if the length is odd or a character is no digit.
pub fn decode(text: &[u8]) -> (bytes: Option<Vec<u8>>)
    ensures
        match bytes {
            Some(b) => decoded(text@) == Some(b@),
            None => decoded(text@) is None,
        },
{
    if text.len() % 2 != 0 {
        return None;
    }
    let mut bytes: Vec<u8> = Vec::new();
    let mut i: usize = 0;
    while i < text.len() / 2
        invariant
            text@.len() % 2 == 0,
            i <= text@.len() / 2,
            bytes@.len() == i,
            forall|k: int| 0 <= k < 2 * i ==> (#[trigger] value_of(text@[k])) is Some,
            forall|k: int|
                0 <= k < i ==> bytes@[k] == (value_of(text@[2 * k])->0 * 16 + value_of(
                    text@[2 * k + 1],
                )->0) as u8,
        decreases text@.len() / 2 - i,
    {
        let high: u8 = match digit_nibble(text[2 * i]) {
            Some(v) => v,
            None => {
                return None;
            },
        };
        let low: u8 = match digit_nibble(text[2 * i + 1]) {
            Some(v) => v,
            None => {
                return None;
            },
        };
        bytes.push(high * 16 + low);
        i = i + 1;
    }
    assert(bytes@ =~= decoded(text@)->0);
    Some(bytes)
}

} // verus!
