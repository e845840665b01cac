//! Amounts of money, counted in lunas.

use crate::error::{AccountError, SerializingError};
use vstd::prelude::*;

verus! {

/// The largest amount that a `Coin` read or added up may hold: every amount up
/// to this one survives a conversion to a double and back.
pub const MAX_SAFE_VALUE: u64 = 9_007_199_254_740_991;

/// An amount in lunas.
#[derive(Clone, Copy, Debug, PartialEq, Eq, PartialOrd, Ord, Hash, Structural)]
pub struct Coin {
    pub lunas: u64,
}

impl Coin {
    /// Nothing.
    pub fn zero() -> (c: Coin)
        ensures
            c.lunas == 0,
    {
        Coin { lunas: 0 }
    }

    /// An amount that must be within the safe range.
    pub fn from_u64(lunas: u64) -> (c: Result<Coin, SerializingError>)
        ensures
            c == if lunas <= MAX_SAFE_VALUE {
                Ok(Coin { lunas })
            } else {
                Err(SerializingError::Overflow)
            },
    {
        if lunas <= MAX_SAFE_VALUE {
            Ok(Coin { lunas })
        } else {
            Err(SerializingError::Overflow)
        }
    }

    /// An amount that the caller knows to be in range.
    pub fn from_u64_unchecked(lunas: u64) -> (c: Coin)
        ensures
            c.lunas == lunas,
    {
        Coin { lunas }
    }

    /// The sum, if it is within the safe range.
    pub fn checked_add(self, rhs: Coin) -> (c: Option<Coin>)
        ensures
            c == if self.lunas + rhs.lunas <= MAX_SAFE_VALUE {
                Some(Coin { lunas: (self.lunas + rhs.lunas) as u64 })
            } else {
                None
            },
    {
        match self.lunas.checked_add(rhs.lunas) {
            Some(sum) => if sum <= MAX_SAFE_VALUE {
                Some(Coin { lunas: sum })
            } else {
                None
            },
            None => None,
        }
    }

    /// The difference, if it is not negative.
    pub fn checked_sub(self, rhs: Coin) -> (c: Option<Coin>)
        ensures
            c == if rhs.lunas <= self.lunas {
                Some(Coin { lunas: (self.lunas - rhs.lunas) as u64 })
            } else {
                None
            },
    {
        if rhs.lunas <= self.lunas {
            Some(Coin { lunas: self.lunas - rhs.lunas })
        } else {
            None
        }
    }
}

/// What writing an amount down answers: one beyond the safe range cannot be written.
pub open spec fn writable(c: Coin) -> Result<(), SerializingError> {
    if c.lunas <= MAX_SAFE_VALUE {
        Ok(())
    } else {
        Err(SerializingError::Overflow)
    }
}

/// Whether an amount can be written down.
pub fn check_writable(c: Coin) -> (r: Result<(), SerializingError>)
    ensures
        r == writable(c),
{
    if c.lunas <= MAX_SAFE_VALUE {
        Ok(())
    } else {
        Err(SerializingError::Overflow)
    }
}

/// What `balance_add` returns.
pub open spec fn added(balance: Coin, value: Coin) -> Result<Coin, AccountError> {
    if balance.lunas + value.lunas <= MAX_SAFE_VALUE {
        Ok(Coin { lunas: (balance.lunas + value.lunas) as u64 })
    } else {
        Err(AccountError::InvalidCoinValue)
    }
}

/// What `balance_sub` returns.
pub open spec fn subtracted(balance: Coin, value: Coin) -> Result<Coin, AccountError> {
    if value.lunas <= balance.lunas {
        Ok(Coin { lunas: (balance.lunas - value.lunas) as u64 })
    } else {
        Err(AccountError::InsufficientFunds { needed: value, balance })
    }
}

/// What `balance_sufficient` returns.
pub open spec fn sufficient(balance: Coin, value: Coin) -> Result<(), AccountError> {
    if value.lunas <= balance.lunas {
        Ok(())
    } else {
        Err(AccountError::InsufficientFunds { needed: value, balance })
    }
}

/// Adds to a balance.
pub fn balance_add(balance: Coin, value: Coin) -> (r: Result<Coin, AccountError>)
    ensures
        r == added(balance, value),
{
    match balance.checked_add(value) {
        Some(sum) => Ok(sum),
        None => Err(AccountError::InvalidCoinValue),
    }
}

/// Takes from a balance.
pub fn balance_sub(balance: Coin, value: Coin) -> (r: Result<Coin, AccountError>)
    ensures
        r == subtracted(balance, value),
{
    match balance.checked_sub(value) {
        Some(rest) => Ok(rest),
        None => Err(AccountError::InsufficientFunds { needed: value, balance }),
    }
}

/// Checks that a balance covers a value.
pub fn balance_sufficient(balance: Coin, value: Coin) -> (r: Result<(), AccountError>)
    ensures
        r == sufficient(balance, value),
{
    if balance.lunas < value.lunas {
        Err(AccountError::InsufficientFunds { needed: value, balance })
    } else {
        Ok(())
    }
}

} // verus!
