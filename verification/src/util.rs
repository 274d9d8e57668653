use vstd::prelude::*;

verus! {

/// A partition key's hash, used as the search key of the index.
pub type Token = u128;

/// Write timestamps are nanoseconds since the epoch.
pub type DbTimestamp = u64;

/// Expiry timestamps are seconds since the epoch; zero means "never".
pub type DbExpiryTimestamp = u32;

/// Everything that can go wrong while encoding or decoding.
#[derive(Debug, Clone, Copy, PartialEq, Eq, Structural)]
pub enum CassError {
    /// A string does not fit its 32-bit length prefix.
    StringTooLong,
    /// A row holds more regular cells than its 32-bit count can express.
    TooManyCells,
    /// A key bound holds more prefix columns than its 8-bit count can express.
    KeyPrefixTooLong,
    /// An index node holds more entries than its 16-bit count can express.
    NodeTooLarge,
    /// The index arity is outside `2..=65535`.
    InvalidArity,
    /// A partition key is longer than a token can be computed for.
    PartitionKeyTooLong,
    /// The buffer ends before the value does.
    UnexpectedEnd,
    /// The row-kind tag is neither tombstone nor regular.
    InvalidRowKind(u8),
    /// The key-bound tag is none of absent, inclusive, exclusive.
    InvalidKeyBound(u8),
    /// The cell-data tag is neither tombstone nor regular.
    InvalidCellData(u8),
    /// A key bound names more prefix columns than the table has cluster keys.
    KeyPrefixOutOfRange(u8),
    /// A cell refers to a column id that the table does not have.
    UnknownColumn(u128),
    /// A length-prefixed string is not valid UTF-8.
    InvalidUtf8,
}

} // verus!
