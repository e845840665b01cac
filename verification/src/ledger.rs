//! The mathematical model of the contract and of every step that changes it.

use crate::address::Address;
use crate::bls::BlsPublicKey;
use crate::coin::{added, subtracted, Coin};
use crate::error::AccountError;
use crate::stake::{
    ActiveStake, ActiveStakeReceipt, InactiveStake, InactiveStakeReceipt, StakeKey,
};
use vstd::prelude::*;

verus! {

/// The state of a contract: its balance, the active stakes by rank and by
/// staker, and the inactive stakes by staker.
#[verifier::ext_equal]
pub struct Ledger {
    pub balance: Coin,
    pub sorted: Map<StakeKey, ActiveStake>,
    pub by_address: Map<Address, ActiveStake>,
    pub inactive: Map<Address, InactiveStake>,
}

/// The ranked stakes after adding one; a stake of the same rank stays instead.
pub open spec fn with_stake(m: Map<StakeKey, ActiveStake>, s: ActiveStake) -> Map<
    StakeKey,
    ActiveStake,
> {
    if m.contains_key(s.key()) {
        m
    } else {
        m.insert(s.key(), s)
    }
}

/// The ranked stakes after taking out the one ranked like `s`.
pub open spec fn without_stake(m: Map<StakeKey, ActiveStake>, s: ActiveStake) -> Map<
    StakeKey,
    ActiveStake,
> {
    m.remove(s.key())
}

impl Ledger {
    /// The ledger with another balance.
    pub open spec fn with_balance(self, balance: Coin) -> Ledger {
        Ledger { balance, ..self }
    }

    /// The ledger after `before` gave way to `after` as the stake of `staker`.
    pub open spec fn replacing(
        self,
        staker: Address,
        before: ActiveStake,
        after: ActiveStake,
    ) -> Ledger {
        Ledger {
            sorted: with_stake(without_stake(self.sorted, before), after),
            by_address: self.by_address.insert(staker, after),
            ..self
        }
    }

    /// The ledger with a first stake of `staker`.
    pub open spec fn adding(self, staker: Address, stake: ActiveStake) -> Ledger {
        Ledger {
            sorted: with_stake(self.sorted, stake),
            by_address: self.by_address.insert(staker, stake),
            ..self
        }
    }

    /// The ledger without the stake of `staker`.
    pub open spec fn dropping(self, staker: Address, stake: ActiveStake) -> Ledger {
        Ledger {
            sorted: without_stake(self.sorted, stake),
            by_address: self.by_address.remove(staker),
            ..self
        }
    }

    /// The ledger in which the stake of `staker` is still ranked but no longer
    /// found by address.
    pub open spec fn unlinking(self, staker: Address) -> Ledger {
        Ledger { by_address: self.by_address.remove(staker), ..self }
    }

    /// The ledger with this inactive stake of `staker`.
    pub open spec fn with_inactive(self, staker: Address, stake: InactiveStake) -> Ledger {
        Ledger { inactive: self.inactive.insert(staker, stake), ..self }
    }

    /// The ledger without an inactive stake of `staker`.
    pub open spec fn without_inactive(self, staker: Address) -> Ledger {
        Ledger { inactive: self.inactive.remove(staker), ..self }
    }
}

impl Ledger {
    /// The two views of the active stakes agree: each stake stands under its own
    /// rank and under its own address, and nothing stands in one view alone.
    pub open spec fn consistent(self) -> bool {
        &&& self.sorted.dom().finite()
        &&& self.by_address.dom().finite()
        &&& self.inactive.dom().finite()
        &&& forall|a: Address| #[trigger]
            self.by_address.contains_key(a) ==> {
                &&& self.by_address[a].staker_address == a
                &&& self.sorted.contains_key(self.by_address[a].key())
            }
        &&& forall|k: StakeKey| #[trigger]
            self.sorted.contains_key(k) ==> {
                &&& self.sorted[k].key() == k
                &&& self.by_address.contains_key(k.address)
                &&& self.by_address[k.address] == self.sorted[k]
            }
    }
}

/// The receipt that brings back the key and the reward address of `stake`.
pub open spec fn receipt_of(stake: ActiveStake) -> ActiveStakeReceipt {
    ActiveStakeReceipt {
        validator_key: stake.validator_key,
        reward_address: stake.reward_address,
    }
}

/// Staking: `value` moves into the active stake of `staker`, which takes on the
/// given key and reward address.
pub open spec fn stake_step(
    l: Ledger,
    staker: Address,
    value: Coin,
    validator_key: BlsPublicKey,
    reward_address: Option<Address>,
) -> (Ledger, Result<Option<ActiveStakeReceipt>, AccountError>) {
    match added(l.balance, value) {
        Err(e) => (l, Err(e)),
        Ok(balance) => match l.by_address.get(staker) {
            Some(before) => match added(before.balance, value) {
                Err(e) => (l.with_balance(balance).unlinking(staker), Err(e)),
                Ok(stake_balance) => (
                    l.with_balance(balance).replacing(
                        staker,
                        before,
                        ActiveStake {
                            staker_address: before.staker_address,
                            balance: stake_balance,
                            validator_key,
                            reward_address,
                        },
                    ),
                    Ok(Some(receipt_of(before))),
                ),
            },
            None => (
                l.with_balance(balance).adding(
                    staker,
                    ActiveStake {
                        staker_address: staker,
                        balance: value,
                        validator_key,
                        reward_address,
                    },
                ),
                Ok(None),
            ),
        },
    }
}

/// Undoing a staking can only take out what is there.
pub open spec fn revert_stake_allowed(l: Ledger, staker: Address, value: Coin) -> bool {
    l.balance.lunas >= value.lunas && l.by_address.contains_key(staker)
        ==> l.by_address[staker].balance.lunas >= value.lunas
}

/// Undoing a staking. With a receipt there was a stake before, though it may have
/// been one of zero: it comes back. Without one the stake was the first.
pub open spec fn revert_stake_step(
    l: Ledger,
    staker: Address,
    value: Coin,
    receipt: Option<ActiveStakeReceipt>,
) -> (Ledger, Result<(), AccountError>) {
    match subtracted(l.balance, value) {
        Err(e) => (l, Err(e)),
        Ok(balance) => match l.by_address.get(staker) {
            None => (l.with_balance(balance), Err(AccountError::InvalidForRecipient)),
            Some(before) => if before.balance.lunas > value.lunas || receipt is Some {
                match receipt {
                    None => (l.with_balance(balance), Err(AccountError::InvalidReceipt)),
                    Some(r) => (
                        l.with_balance(balance).replacing(
                            staker,
                            before,
                            ActiveStake {
                                staker_address: before.staker_address,
                                balance: Coin {
                                    lunas: (before.balance.lunas - value.lunas) as u64,
                                },
                                validator_key: r.validator_key,
                                reward_address: r.reward_address,
                            },
                        ),
                        Ok(()),
                    ),
                }
            } else {
                (l.with_balance(balance).dropping(staker, before), Ok(()))
            },
        },
    }
}

/// Retiring can only take out what is there.
pub open spec fn retire_allowed(l: Ledger, staker: Address, total_value: Coin) -> bool {
    l.balance.lunas >= total_value.lunas && l.by_address.contains_key(staker)
        ==> l.by_address[staker].balance.lunas >= total_value.lunas
}

/// Retiring, on the side that pays: `total_value` leaves the active stake.
pub open spec fn retire_sender_step(l: Ledger, staker: Address, total_value: Coin) -> (
    Ledger,
    Result<Option<ActiveStakeReceipt>, AccountError>,
) {
    match subtracted(l.balance, total_value) {
        Err(e) => (l, Err(e)),
        Ok(balance) => match l.by_address.get(staker) {
            None => (l.with_balance(balance), Err(AccountError::InvalidForSender)),
            Some(before) => if before.balance.lunas > total_value.lunas {
                (
                    l.with_balance(balance).replacing(
                        staker,
                        before,
                        ActiveStake {
                            staker_address: staker,
                            balance: Coin {
                                lunas: (before.balance.lunas - total_value.lunas) as u64,
                            },
                            validator_key: before.validator_key,
                            reward_address: before.reward_address,
                        },
                    ),
                    Ok(None),
                )
            } else {
                (
                    l.with_balance(balance).dropping(staker, before),
                    Ok(Some(receipt_of(before))),
                )
            },
        },
    }
}

/// Undoing a retirement, on the side that paid.
pub open spec fn revert_retire_sender_step(
    l: Ledger,
    staker: Address,
    total_value: Coin,
    receipt: Option<ActiveStakeReceipt>,
) -> (Ledger, Result<(), AccountError>) {
    match added(l.balance, total_value) {
        Err(e) => (l, Err(e)),
        Ok(balance) => match l.by_address.get(staker) {
            Some(before) => if receipt is Some {
                (l.with_balance(balance).unlinking(staker), Err(AccountError::InvalidReceipt))
            } else {
                match added(before.balance, total_value) {
                    Err(e) => (l.with_balance(balance).unlinking(staker), Err(e)),
                    Ok(stake_balance) => (
                        l.with_balance(balance).replacing(
                            staker,
                            before,
                            ActiveStake {
                                staker_address: staker,
                                balance: stake_balance,
                                validator_key: before.validator_key,
                                reward_address: before.reward_address,
                            },
                        ),
                        Ok(()),
                    ),
                }
            },
            None => match receipt {
                None => (l.with_balance(balance), Err(AccountError::InvalidReceipt)),
                Some(r) => (
                    l.with_balance(balance).adding(
                        staker,
                        ActiveStake {
                            staker_address: staker,
                            balance: total_value,
                            validator_key: r.validator_key,
                            reward_address: r.reward_address,
                        },
                    ),
                    Ok(()),
                ),
            },
        },
    }
}

/// Retiring, on the side that receives: `value` joins the inactive stake, whose
/// retire time becomes the current height.
pub open spec fn retire_recipient_step(
    l: Ledger,
    staker: Address,
    value: Coin,
    block_height: u32,
) -> (Ledger, Result<Option<InactiveStakeReceipt>, AccountError>) {
    match added(l.balance, value) {
        Err(e) => (l, Err(e)),
        Ok(balance) => match l.inactive.get(staker) {
            Some(before) => match added(before.balance, value) {
                Err(e) => (l.with_balance(balance).without_inactive(staker), Err(e)),
                Ok(stake_balance) => (
                    l.with_balance(balance).with_inactive(
                        staker,
                        InactiveStake { balance: stake_balance, retire_time: block_height },
                    ),
                    Ok(Some(InactiveStakeReceipt { retire_time: before.retire_time })),
                ),
            },
            None => (
                l.with_balance(balance).with_inactive(
                    staker,
                    InactiveStake { balance: value, retire_time: block_height },
                ),
                Ok(None),
            ),
        },
    }
}

/// Undoing a retirement, on the side that received. With a receipt there was an
/// inactive stake before, though it may have been one of zero: it comes back.
pub open spec fn revert_retire_recipient_step(
    l: Ledger,
    staker: Address,
    value: Coin,
    receipt: Option<InactiveStakeReceipt>,
) -> (Ledger, Result<(), AccountError>) {
    match subtracted(l.balance, value) {
        Err(e) => (l, Err(e)),
        Ok(balance) => match l.inactive.get(staker) {
            None => (l.with_balance(balance), Err(AccountError::InvalidForRecipient)),
            Some(before) => if before.balance.lunas > value.lunas || (before.balance.lunas
                == value.lunas && receipt is Some) {
                match receipt {
                    None => (
                        l.with_balance(balance).without_inactive(staker),
                        Err(AccountError::InvalidReceipt),
                    ),
                    Some(r) => (
                        l.with_balance(balance).with_inactive(
                            staker,
                            InactiveStake {
                                balance: Coin {
                                    lunas: (before.balance.lunas - value.lunas) as u64,
                                },
                                retire_time: r.retire_time,
                            },
                        ),
                        Ok(()),
                    ),
                }
            } else if receipt is Some {
                (
                    l.with_balance(balance).without_inactive(staker),
                    Err(AccountError::InvalidReceipt),
                )
            } else {
                (l.with_balance(balance).without_inactive(staker), Ok(()))
            },
        },
    }
}

/// Unstaking can only take out what is there.
pub open spec fn unstake_allowed(l: Ledger, staker: Address, total_value: Coin) -> bool {
    l.balance.lunas >= total_value.lunas && l.inactive.contains_key(staker)
        ==> l.inactive[staker].balance.lunas >= total_value.lunas
}

/// Unstaking: `total_value` leaves the inactive stake and the contract.
pub open spec fn unstake_step(l: Ledger, staker: Address, total_value: Coin) -> (
    Ledger,
    Result<Option<InactiveStakeReceipt>, AccountError>,
) {
    match subtracted(l.balance, total_value) {
        Err(e) => (l, Err(e)),
        Ok(balance) => match l.inactive.get(staker) {
            None => (l.with_balance(balance), Err(AccountError::InvalidForSender)),
            Some(before) => if before.balance.lunas > total_value.lunas {
                (
                    l.with_balance(balance).with_inactive(
                        staker,
                        InactiveStake {
                            balance: Coin {
                                lunas: (before.balance.lunas - total_value.lunas) as u64,
                            },
                            retire_time: before.retire_time,
                        },
                    ),
                    Ok(None),
                )
            } else {
                (
                    l.with_balance(balance).without_inactive(staker),
                    Ok(Some(InactiveStakeReceipt { retire_time: before.retire_time })),
                )
            },
        },
    }
}

/// Undoing an unstaking.
pub open spec fn revert_unstake_step(
    l: Ledger,
    staker: Address,
    total_value: Coin,
    receipt: Option<InactiveStakeReceipt>,
) -> (Ledger, Result<(), AccountError>) {
    match added(l.balance, total_value) {
        Err(e) => (l, Err(e)),
        Ok(balance) => match l.inactive.get(staker) {
            Some(before) => if receipt is Some {
                (
                    l.with_balance(balance).without_inactive(staker),
                    Err(AccountError::InvalidReceipt),
                )
            } else {
                match added(before.balance, total_value) {
                    Err(e) => (l.with_balance(balance).without_inactive(staker), Err(e)),
                    Ok(stake_balance) => (
                        l.with_balance(balance).with_inactive(
                            staker,
                            InactiveStake {
                                balance: stake_balance,
                                retire_time: before.retire_time,
                            },
                        ),
                        Ok(()),
                    ),
                }
            },
            None => match receipt {
                None => (l.with_balance(balance), Err(AccountError::InvalidReceipt)),
                Some(r) => (
                    l.with_balance(balance).with_inactive(
                        staker,
                        InactiveStake { balance: total_value, retire_time: r.retire_time },
                    ),
                    Ok(()),
                ),
            },
        },
    }
}

} // verus!
