//! Unsigned decimal numbers as ASCII text.
//!
//! A number is written without sign or leading zeros. Reading accepts an
//! optional leading `+` and any number of leading zeros, and nothing else
//! around the digits.

use vstd::prelude::*;

verus! {

/// The ASCII text of `n`.
pub open spec fn digits(n: nat) -> Seq<u8>
    decreases n,
{
    if n < 10 {
        seq![(0x30 + n) as u8]
    } else {
        digits(n / 10).push((0x30 + n % 10) as u8)
    }
}

/// Whether `c` is one of `0`..`9`.
pub open spec fn is_digit(c: u8) -> bool {
    0x30 <= c <= 0x39
}

/// Whether `text` is one or more decimal digits.
pub open spec fn is_digits(text: Seq<u8>) -> bool {
    &&& text.len() > 0
    &&& forall|i: int| 0 <= i < text.len() ==> is_digit(#[trigger] text[i])
}

/// The number that a string of digits stands for.
pub open spec fn value(text: Seq<u8>) -> nat
    decreases text.len(),
{
    if text.len() == 0 {
        0
    } else {
        value(text.drop_last()) * 10 + (text.last() - 0x30) as nat
    }
}

/// `text` without its leading `+`, if it has one.
pub open spec fn unsigned_part(text: Seq<u8>) -> Seq<u8> {
    if text.len() > 0 && text[0] == 0x2b {
        text.skip(1)
    } else {
        text
    }
}

/// The number that `text` stands for, if it is a decimal number no greater than `max`.
pub open spec fn parsed(text: Seq<u8>, max: nat) -> Option<nat> {
    let body = unsigned_part(text);
    if is_digits(body) && value(body) <= max {
        Some(value(body))
    } else {
        None
    }
}

/// The text of a number is made of digits.
pub proof fn lemma_digits_are_digits(n: nat)
    ensures
        is_digits(digits(n)),
    decreases n,
{
    if n >= 10 {
        lemma_digits_are_digits(n / 10);
    }
}

/// Reading the text of a number gives the number back.
pub proof fn lemma_value_of_digits(n: nat)
    ensures
        value(digits(n)) == n,
    decreases n,
{
    if n < 10 {
        assert(digits(n).drop_last() =~= Seq::<u8>::empty());
        assert(value(Seq::<u8>::empty()) == 0);
    } else {
        lemma_value_of_digits(n / 10);
        assert(digits(n).drop_last() =~= digits(n / 10));
    }
}

/// Parsing undoes formatting for every number within the bound.
pub proof fn lemma_parse_format(n: nat, max: nat)
    requires
        n <= max,
    ensures
        parsed(digits(n), max) == Some(n),
{
    lemma_digits_are_digits(n);
    lemma_value_of_digits(n);
    assert(is_digit(digits(n)[0]));
}

/// A prefix of a digit string stands for no greater a number than the whole.
proof fn lemma_value_of_prefix(text: Seq<u8>, k: int)
    requires
        0 <= k <= text.len(),
    ensures
        value(text.take(k)) <= value(text),
    decreases text.len() - k,
{
    if k < text.len() {
        lemma_value_of_prefix(text, k + 1);
        assert(text.take(k + 1).drop_last() =~= text.take(k));
    } else {
        assert(text.take(k) =~= text);
    }
}

/// Writes `n` in decimal.
pub fn format(n: u64) -> (text: Vec<u8>)
    ensures
        text@ == digits(n as nat),
    decreases n,
{
    if n < 10 {
        let mut text: Vec<u8> = Vec::new();
        text.push(0x30 + n as u8);
        assert(text@ =~= digits(n as nat));
        text
    } else {
        let mut text: Vec<u8> = format(n / 10);
        text.push(0x30 + (n % 10) as u8);
        text
    }
}

/// Reads a decimal number no greater than `max`.
pub fn parse(text: &[u8], max: u64) -> (n: Option<u64>)
    ensures
        match n {
            Some(v) => parsed(text@, max as nat) == Some(v as nat),
            None => parsed(text@, max as nat) is None,
        },
{
    let start: usize = if text.len() > 0 && text[0] == 0x2b {
        1
    } else {
        0
    };
    let ghost body = unsigned_part(text@);
    assert(body =~= text@.skip(start as int));
    if start == text.len() {
        return None;
    }
    let mut total: u64 = 0;
    let mut i: usize = start;
    while i < text.len()
        invariant
            start <= i <= text.len(),
            body == text@.skip(start as int),
            body == unsigned_part(text@),
            total == value(body.take(i - start)),
            total <= max,
            forall|k: int| 0 <= k < i - start ==> is_digit(#[trigger] body[k]),
        decreases text.len() - i,
    {
        let c: u8 = text[i];
        if c < 0x30 || c > 0x39 {
            assert(body[i - start] == c);
            return None;
        }
        let d: u64 = (c - 0x30) as u64;
        proof {
            assert(body.take(i - start + 1).drop_last() =~= body.take(i - start));
            assert(body.take(i - start + 1).last() == c);
            lemma_value_of_prefix(body, i - start + 1);
        }
        if d > max || total > (max - d) / 10 {
            assert(total * 10 + d > max) by (nonlinear_arith)
                requires
                    d > max || total > (max - d) / 10,
                    d < 10,
            ;
            return None;
        }
        assert(total * 10 + d <= max) by (nonlinear_arith)
            requires
                total <= (max - d) / 10,
                d <= max,
        ;
        total = total * 10 + d;
        i = i + 1;
    }
    assert(body.take(i - start) =~= body);
    Some(total)
}

} // verus!
