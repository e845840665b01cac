//! The errors that the library reports.

use crate::coin::Coin;
use vstd::prelude::*;

verus! {

/// Why bytes could not be read.
#[derive(Clone, Copy, Debug, PartialEq, Eq, Structural)]
pub enum SerializingError {
    /// The input ends before the value does.
    UnexpectedEnd,
    /// A tag or a curve point is not one of the allowed values.
    InvalidValue,
    /// The bytes do not have the structure that is expected.
    InvalidEncoding,
    /// An amount is larger than a `Coin` may be.
    Overflow,
}

/// What is wrong with a transaction in itself.
#[derive(Clone, Copy, Debug, PartialEq, Eq, Structural)]
pub enum TransactionError {
    /// The data field does not hold what its recipient expects.
    InvalidData,
    /// Value and fee together are larger than a `Coin` may be.
    Overflow,
}

/// Why an account refuses a transaction or an inherent.
#[derive(Clone, Copy, Debug, PartialEq, Eq, Structural)]
pub enum AccountError {
    InsufficientFunds { needed: Coin, balance: Coin },
    InvalidForSender,
    InvalidForRecipient,
    InvalidReceipt,
    InvalidInherent,
    InvalidCoinValue,
    InvalidTransaction(TransactionError),
    InvalidSerialization(SerializingError),
}

} // verus!
