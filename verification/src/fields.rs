//! Records as fields between separators.
//!
//! A text always has at least one field; a separator at the very end is
//! followed by one more, empty field.

use crate::error::Error;
use vstd::prelude::*;
use vstd::slice::slice_subrange;

verus! {

/// Where the first field of `text` ends: at its first separator, or at its end.
pub open spec fn field_end(text: Seq<u8>, separator: u8) -> int
    decreases text.len(),
{
    if text.len() == 0 || text[0] == separator {
        0
    } else {
        1 + field_end(text.skip(1), separator)
    }
}

/// The first field of `text`.
pub open spec fn first_field(text: Seq<u8>, separator: u8) -> Seq<u8> {
    text.take(field_end(text, separator))
}

/// What follows the first field and its separator; `None` where no separator follows.
pub open spec fn after_first(text: Seq<u8>, separator: u8) -> Option<Seq<u8>> {
    let end = field_end(text, separator);
    if end < text.len() {
        Some(text.skip(end + 1))
    } else {
        None
    }
}

/// The fields that are still to come.
pub open spec fn pending(rest: Option<Seq<u8>>, separator: u8) -> Seq<Seq<u8>>
    decreases
            (match rest {
                Some(text) => text.len() + 1,
                None => 0,
            }),
{
    match rest {
        None => Seq::empty(),
        Some(text) => {
            let end = field_end(text, separator);
            if 0 <= end < text.len() {
                seq![text.take(end)] + pending(Some(text.skip(end + 1)), separator)
            } else {
                seq![text]
            }
        },
    }
}

/// The fields of `text`.
pub open spec fn split(text: Seq<u8>, separator: u8) -> Seq<Seq<u8>> {
    pending(Some(text), separator)
}

/// A field, a separator, and the text that follows it.
pub open spec fn joined(field: Seq<u8>, separator: u8, rest: Seq<u8>) -> Seq<u8> {
    field + seq![separator] + rest
}

/// Whether `text` holds no separator.
pub open spec fn is_free_of(text: Seq<u8>, separator: u8) -> bool {
    forall|i: int| 0 <= i < text.len() ==> #[trigger] text[i] != separator
}

/// The first field ends within the text, at a separator or at the end, and
/// holds no separator.
pub proof fn lemma_field_end(text: Seq<u8>, separator: u8)
    ensures
        0 <= field_end(text, separator) <= text.len(),
        field_end(text, separator) < text.len() ==> text[field_end(text, separator)] == separator,
        is_free_of(first_field(text, separator), separator),
    decreases text.len(),
{
    if text.len() == 0 || text[0] == separator {
    } else {
        let tail = text.skip(1);
        lemma_field_end(tail, separator);
        let end = field_end(text, separator);
        assert forall|i: int| 0 <= i < end implies #[trigger] text.take(end)[i] != separator by {
            if i > 0 {
                assert(tail.take(end - 1)[i - 1] == text[i]);
            }
        }
    }
}

/// A position with a separator, or the end, before which there is none, is
/// where the first field ends.
pub proof fn lemma_field_end_is(text: Seq<u8>, separator: u8, end: int)
    requires
        0 <= end <= text.len(),
        forall|i: int| 0 <= i < end ==> #[trigger] text[i] != separator,
        end < text.len() ==> text[end] == separator,
    ensures
        field_end(text, separator) == end,
    decreases end,
{
    if end > 0 {
        let tail = text.skip(1);
        assert forall|i: int| 0 <= i < end - 1 implies #[trigger] tail[i] != separator by {
            assert(tail[i] == text[i + 1]);
        }
        lemma_field_end_is(tail, separator, end - 1);
    }
}

/// A text made of a field without separators, a separator and more text
/// splits into that field and the fields of the rest.
pub proof fn lemma_split_joined(field: Seq<u8>, separator: u8, rest: Seq<u8>)
    requires
        is_free_of(field, separator),
    ensures
        split(joined(field, separator, rest), separator) == seq![field] + split(rest, separator),
        first_field(joined(field, separator, rest), separator) == field,
        after_first(joined(field, separator, rest), separator) == Some(rest),
{
    let text = joined(field, separator, rest);
    let end = field.len() as int;
    assert forall|i: int| 0 <= i < end implies #[trigger] text[i] != separator by {
        assert(text[i] == field[i]);
    }
    assert(text[end] == separator);
    lemma_field_end_is(text, separator, end);
    assert(text.take(end) =~= field);
    assert(text.skip(end + 1) =~= rest);
}

/// A text without separators is its own single field.
pub proof fn lemma_split_single(field: Seq<u8>, separator: u8)
    requires
        is_free_of(field, separator),
    ensures
        split(field, separator) == seq![field],
        first_field(field, separator) == field,
        after_first(field, separator) is None,
{
    lemma_field_end_is(field, separator, field.len() as int);
    assert(field.take(field.len() as int) =~= field);
}

/// The fields still to come are the next field, then what is to come after it.
pub proof fn lemma_pending_unfold(text: Seq<u8>, separator: u8)
    ensures
        pending(Some(text), separator) == seq![first_field(text, separator)] + pending(
            after_first(text, separator),
            separator,
        ),
{
    lemma_field_end(text, separator);
    let end = field_end(text, separator);
    if end < text.len() {
    } else {
        assert(text.take(end) =~= text);
        assert(seq![text] + Seq::<Seq<u8>>::empty() =~= seq![text]);
    }
}

/// What is left of a text while its fields are taken one by one.
pub struct Fields<'a> {
    /// The text after the last field taken; `None` once the last field is taken.
    pub rest: Option<&'a [u8]>,
    /// The byte that ends a field.
    pub separator: u8,
}

impl<'a> Fields<'a> {
    /// The text that is left, if any.
    pub open spec fn remaining(&self) -> Option<Seq<u8>> {
        match self.rest {
            Some(text) => Some(text@),
            None => None,
        }
    }

    /// The fields that are left.
    pub open spec fn to_come(&self) -> Seq<Seq<u8>> {
        pending(self.remaining(), self.separator)
    }

    /// Starts at the first field of `text`.
    pub fn new(text: &'a [u8], separator: u8) -> (fields: Fields<'a>)
        ensures
            fields.remaining() == Some(text@),
            fields.separator == separator,
            fields.to_come() == split(text@, separator),
    {
        Fields { rest: Some(text), separator }
    }

    /// Whether every field has been taken.
    pub fn is_done(&self) -> (done: bool)
        ensures
            done == (self.remaining() is None),
            done == (self.to_come().len() == 0),
    {
        proof {
            if let Some(text) = self.remaining() {
                lemma_pending_unfold(text, self.separator);
            }
        }
        self.rest.is_none()
    }
}

/// Takes the next field: returns it with what is left after it, or
/// `DbParseError` where no field is left.
pub fn get_arg<'a>(split: Fields<'a>) -> (res: Result<(&'a [u8], Fields<'a>), Error>)
    ensures
        match split.remaining() {
            None => res == Err::<(&'a [u8], Fields<'a>), Error>(Error::DbParseError),
            Some(text) => {
                &&& res matches Ok((field, next))
                &&& field@ == first_field(text, split.separator)
                &&& next.remaining() == after_first(text, split.separator)
                &&& next.separator == split.separator
                &&& split.to_come() == seq![field@] + next.to_come()
            },
        },
{
    let text: &'a [u8] = match split.rest {
        Some(text) => text,
        None => {
            return Err(Error::DbParseError);
        },
    };
    let mut end: usize = 0;
    while end < text.len() && text[end] != split.separator
        invariant
            end <= text@.len(),
            forall|i: int| 0 <= i < end ==> #[trigger] text@[i] != split.separator,
        decreases text@.len() - end,
    {
        end = end + 1;
    }
    proof {
        lemma_field_end_is(text@, split.separator, end as int);
        lemma_pending_unfold(text@, split.separator);
    }
    let field: &'a [u8] = slice_subrange(text, 0, end);
    let rest: Option<&'a [u8]> = if end < text.len() {
        Some(slice_subrange(text, end + 1, text.len()))
    } else {
        None
    };
    Ok((field, Fields { rest, separator: split.separator }))
}

} // verus!
