//! The ways in which reading the cache's persisted state can fail.

use vstd::prelude::*;

verus! {

/// What went wrong while reading or using persisted state.
#[derive(Debug, Clone, PartialEq, Eq)]
pub enum Error {
    /// A persisted record is malformed: a field is missing, or is no valid
    /// hexadecimal text or decimal number.
    DbParseError,
    /// A required entry (the cache height or the descriptor) was never stored.
    WalletNotInitialized,
    /// Bytes that should hold a transaction or a merkle proof do not decode to one.
    DeserializationError,
    /// The backing store failed; the text is the store's own description.
    DatabaseError(String),
}

} // verus!
