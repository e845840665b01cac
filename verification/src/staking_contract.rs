//! The staking contract and the steps that change it.
//!
//! - Staking: a transaction from the staking address to the contract moves its
//!   value into a new or existing active stake, which takes on the given
//!   validator key and reward address.
//! - Retiring: a transaction from the contract to itself takes a balance out of
//!   the active stake of a staker and puts it into the inactive one, recording
//!   the height; a later retirement resets the recorded height.
//! - Unstaking: a transaction from the contract to an outside address pays out
//!   inactive stake once enough blocks have passed.
//!
//! Every step returns what is needed to undo it.

use crate::address::Address;
use crate::bls::BlsPublicKey;
use crate::coin::{balance_add, balance_sub, Coin};
use crate::error::AccountError;
use crate::ledger::{
    retire_allowed, retire_recipient_step, retire_sender_step,
    revert_retire_recipient_step, revert_retire_sender_step, revert_stake_allowed,
    revert_stake_step, revert_unstake_step, stake_step, unstake_allowed, unstake_step, with_stake,
    without_stake, Ledger,
};
use crate::sorted_map::{ascending, entries_map, listing, SortedMap};
use crate::stake::{
    ActiveStake, ActiveStakeReceipt, InactiveStake, InactiveStakeReceipt, StakeKey,
};
use std::cmp::Ordering;
use vstd::prelude::*;

verus! {

/// Every stake stands under its own rank.
pub open spec fn keyed(m: Map<StakeKey, ActiveStake>) -> bool {
    forall|k: StakeKey| #[trigger] m.contains_key(k) ==> m[k].key() == k
}

/// The active stakes ranked from the highest balance to the lowest.
#[derive(Debug)]
pub struct StakeSet {
    stakes: SortedMap<StakeKey, ActiveStake>,
}

impl View for StakeSet {
    type V = Map<StakeKey, ActiveStake>;

    closed spec fn view(&self) -> Map<StakeKey, ActiveStake> {
        self.stakes@
    }
}

impl StakeSet {
    #[verifier::type_invariant]
    spec fn ranks_match(self) -> bool {
        keyed(self.stakes@)
    }

    /// No stakes.
    pub fn new() -> (s: StakeSet)
        ensures
            s@ == Map::<StakeKey, ActiveStake>::empty(),
    {
        StakeSet { stakes: SortedMap::new() }
    }

    /// Adds a stake, unless one of its rank is there.
    pub fn insert(&mut self, stake: ActiveStake)
        ensures
            final(self)@ == with_stake(old(self)@, stake),
    {
        proof {
            use_type_invariant(&*self);
        }
        let key = stake.sort_key();
        if !self.stakes.contains_key(&key) {
            let mut stakes: SortedMap<StakeKey, ActiveStake> = SortedMap::new();
            std::mem::swap(&mut stakes, &mut self.stakes);
            stakes.insert(key, stake);
            self.stakes = stakes;
        }
    }

    /// Takes out the stake ranked like `stake`.
    pub fn remove(&mut self, stake: &ActiveStake)
        ensures
            final(self)@ == without_stake(old(self)@, *stake),
    {
        proof {
            use_type_invariant(&*self);
        }
        let key = stake.sort_key();
        let mut stakes: SortedMap<StakeKey, ActiveStake> = SortedMap::new();
        std::mem::swap(&mut stakes, &mut self.stakes);
        let _ = stakes.remove(&key);
        self.stakes = stakes;
    }

    /// The number of stakes.
    pub fn len(&self) -> (n: usize)
        ensures
            n == listing(self@).len(),
            n == self@.dom().len(),
    {
        self.stakes.len()
    }

    /// The stakes with their ranks, from the highest balance to the lowest.
    pub fn entries(&self) -> (e: &Vec<(StakeKey, ActiveStake)>)
        ensures
            e@ == listing(self@),
            ascending(e@),
            entries_map(e@) == self@,
            self@.dom().finite(),
            keyed(self@),
    {
        proof {
            use_type_invariant(self);
        }
        self.stakes.entries()
    }
}

impl Clone for StakeSet {
    /// A set of the same stakes.
    fn clone(&self) -> (s: StakeSet)
        ensures
            s@ == self@,
    {
        proof {
            use_type_invariant(self);
        }
        StakeSet { stakes: self.stakes.clone() }
    }
}

/// The staking contract.
#[derive(Debug)]
pub struct StakingContract {
    pub balance: Coin,
    pub active_stake_sorted: StakeSet,
    pub active_stake_by_address: SortedMap<Address, ActiveStake>,
    pub inactive_stake_by_address: SortedMap<Address, InactiveStake>,
}

impl View for StakingContract {
    type V = Ledger;

    open spec fn view(&self) -> Ledger {
        Ledger {
            balance: self.balance,
            sorted: self.active_stake_sorted@,
            by_address: self.active_stake_by_address@,
            inactive: self.inactive_stake_by_address@,
        }
    }
}

impl StakingContract {
    /// Adds funds to the stake of `staker_address`. Returns what the key and the
    /// reward address were before, if there was a stake.
    pub fn stake(
        &mut self,
        staker_address: &Address,
        value: Coin,
        validator_key: BlsPublicKey,
        reward_address: Option<Address>,
    ) -> (r: Result<Option<ActiveStakeReceipt>, AccountError>)
        ensures
            (final(self)@, r) == stake_step(
                old(self)@,
                *staker_address,
                value,
                validator_key,
                reward_address,
            ),
    {
        self.balance = match balance_add(self.balance, value) {
            Ok(balance) => balance,
            Err(e) => {
                return Err(e);
            },
        };
        match self.active_stake_by_address.remove(staker_address) {
            Some(active_stake) => {
                let balance = match balance_add(active_stake.balance, value) {
                    Ok(balance) => balance,
                    Err(e) => {
                        return Err(e);
                    },
                };
                let new_active_stake = ActiveStake {
                    staker_address: active_stake.staker_address,
                    balance,
                    validator_key,
                    reward_address,
                };
                self.active_stake_sorted.remove(&active_stake);
                self.active_stake_sorted.insert(new_active_stake);
                self.active_stake_by_address.insert(*staker_address, new_active_stake);
                assert(self@.by_address =~= old(self)@.by_address.insert(
                    *staker_address,
                    new_active_stake,
                ));
                Ok(
                    Some(
                        ActiveStakeReceipt {
                            validator_key: active_stake.validator_key,
                            reward_address: active_stake.reward_address,
                        },
                    ),
                )
            },
            None => {
                let stake = ActiveStake {
                    staker_address: *staker_address,
                    balance: value,
                    validator_key,
                    reward_address,
                };
                self.active_stake_sorted.insert(stake);
                self.active_stake_by_address.insert(*staker_address, stake);
                assert(self@.by_address =~= old(self)@.by_address.insert(*staker_address, stake));
                Ok(None)
            },
        }
    }

    /// Undoes `stake`. A receipt brings back the stake that was there before, be it
    /// one of zero; without a receipt the stake was the first, and goes.
    pub fn revert_stake(
        &mut self,
        staker_address: &Address,
        value: Coin,
        receipt: Option<ActiveStakeReceipt>,
    ) -> (r: Result<(), AccountError>)
        requires
            revert_stake_allowed(old(self)@, *staker_address, value),
        ensures
            (final(self)@, r) == revert_stake_step(old(self)@, *staker_address, value, receipt),
    {
        self.balance = match balance_sub(self.balance, value) {
            Ok(balance) => balance,
            Err(e) => {
                return Err(e);
            },
        };
        let active_stake = match self.active_stake_by_address.get(staker_address) {
            Some(active_stake) => active_stake,
            None => {
                return Err(AccountError::InvalidForRecipient);
            },
        };
        if active_stake.balance.lunas > value.lunas || receipt.is_some() {
            let receipt = match receipt {
                Some(receipt) => receipt,
                None => {
                    return Err(AccountError::InvalidReceipt);
                },
            };
            let balance = match balance_sub(active_stake.balance, value) {
                Ok(balance) => balance,
                Err(e) => {
                    return Err(e);
                },
            };
            let new_active_stake = ActiveStake {
                staker_address: active_stake.staker_address,
                balance,
                validator_key: receipt.validator_key,
                reward_address: receipt.reward_address,
            };
            self.active_stake_sorted.remove(&active_stake);
            self.active_stake_sorted.insert(new_active_stake);
            self.active_stake_by_address.insert(*staker_address, new_active_stake);
        } else {
            self.active_stake_sorted.remove(&active_stake);
            let _ = self.active_stake_by_address.remove(staker_address);
        }
        Ok(())
    }

    /// Takes `total_value` out of the active stake of `staker_address`. Returns
    /// its key and reward address if nothing is left of it.
    pub fn retire_sender(
        &mut self,
        staker_address: &Address,
        total_value: Coin,
        _block_height: u32,
    ) -> (r: Result<Option<ActiveStakeReceipt>, AccountError>)
        requires
            retire_allowed(old(self)@, *staker_address, total_value),
        ensures
            (final(self)@, r) == retire_sender_step(old(self)@, *staker_address, total_value),
    {
        self.balance = match balance_sub(self.balance, total_value) {
            Ok(balance) => balance,
            Err(e) => {
                return Err(e);
            },
        };
        let active_stake = match self.active_stake_by_address.remove(staker_address) {
            Some(active_stake) => active_stake,
            None => {
                assert(self@.by_address =~= old(self)@.by_address);
                return Err(AccountError::InvalidForSender);
            },
        };
        self.active_stake_sorted.remove(&active_stake);
        if active_stake.balance.lunas > total_value.lunas {
            let balance = match balance_sub(active_stake.balance, total_value) {
                Ok(balance) => balance,
                Err(e) => {
                    return Err(e);
                },
            };
            let new_active_stake = ActiveStake {
                staker_address: *staker_address,
                balance,
                validator_key: active_stake.validator_key,
                reward_address: active_stake.reward_address,
            };
            self.active_stake_sorted.insert(new_active_stake);
            self.active_stake_by_address.insert(*staker_address, new_active_stake);
            assert(self@.by_address =~= old(self)@.by_address.insert(
                *staker_address,
                new_active_stake,
            ));
            Ok(None)
        } else {
            Ok(
                Some(
                    ActiveStakeReceipt {
                        validator_key: active_stake.validator_key,
                        reward_address: active_stake.reward_address,
                    },
                ),
            )
        }
    }

    /// Undoes `retire_sender`.
    pub fn revert_retire_sender(
        &mut self,
        staker_address: &Address,
        total_value: Coin,
        receipt: Option<ActiveStakeReceipt>,
    ) -> (r: Result<(), AccountError>)
        ensures
            (final(self)@, r) == revert_retire_sender_step(
                old(self)@,
                *staker_address,
                total_value,
                receipt,
            ),
    {
        self.balance = match balance_add(self.balance, total_value) {
            Ok(balance) => balance,
            Err(e) => {
                return Err(e);
            },
        };
        match self.active_stake_by_address.remove(staker_address) {
            Some(active_stake) => {
                if receipt.is_some() {
                    return Err(AccountError::InvalidReceipt);
                }
                let balance = match balance_add(active_stake.balance, total_value) {
                    Ok(balance) => balance,
                    Err(e) => {
                        return Err(e);
                    },
                };
                let new_active_stake = ActiveStake {
                    staker_address: *staker_address,
                    balance,
                    validator_key: active_stake.validator_key,
                    reward_address: active_stake.reward_address,
                };
                self.active_stake_sorted.remove(&active_stake);
                self.active_stake_sorted.insert(new_active_stake);
                self.active_stake_by_address.insert(*staker_address, new_active_stake);
                assert(self@.by_address =~= old(self)@.by_address.insert(
                    *staker_address,
                    new_active_stake,
                ));
            },
            None => {
                assert(self@.by_address =~= old(self)@.by_address);
                let receipt = match receipt {
                    Some(receipt) => receipt,
                    None => {
                        return Err(AccountError::InvalidReceipt);
                    },
                };
                let new_active_stake = ActiveStake {
                    staker_address: *staker_address,
                    balance: total_value,
                    validator_key: receipt.validator_key,
                    reward_address: receipt.reward_address,
                };
                self.active_stake_sorted.insert(new_active_stake);
                self.active_stake_by_address.insert(*staker_address, new_active_stake);
            },
        }
        Ok(())
    }

    /// Adds `value` to the inactive stake of `staker_address`. Returns the
    /// retire time that was recorded before, if there was such a stake.
    pub fn retire_recipient(
        &mut self,
        staker_address: &Address,
        value: Coin,
        block_height: u32,
    ) -> (r: Result<Option<InactiveStakeReceipt>, AccountError>)
        ensures
            (final(self)@, r) == retire_recipient_step(
                old(self)@,
                *staker_address,
                value,
                block_height,
            ),
    {
        self.balance = match balance_add(self.balance, value) {
            Ok(balance) => balance,
            Err(e) => {
                return Err(e);
            },
        };
        match self.inactive_stake_by_address.remove(staker_address) {
            Some(inactive_stake) => {
                let balance = match balance_add(inactive_stake.balance, value) {
                    Ok(balance) => balance,
                    Err(e) => {
                        return Err(e);
                    },
                };
                let new_inactive_stake = InactiveStake { balance, retire_time: block_height };
                self.inactive_stake_by_address.insert(*staker_address, new_inactive_stake);
                assert(self@.inactive =~= old(self)@.inactive.insert(
                    *staker_address,
                    new_inactive_stake,
                ));
                Ok(Some(InactiveStakeReceipt { retire_time: inactive_stake.retire_time }))
            },
            None => {
                let new_inactive_stake = InactiveStake {
                    balance: value,
                    retire_time: block_height,
                };
                self.inactive_stake_by_address.insert(*staker_address, new_inactive_stake);
                assert(self@.inactive =~= old(self)@.inactive.insert(
                    *staker_address,
                    new_inactive_stake,
                ));
                Ok(None)
            },
        }
    }

    /// Undoes `retire_recipient`. A receipt brings back the entry that was there
    /// before, be it one of zero; without a receipt the entry was the first, and goes.
    pub fn revert_retire_recipient(
        &mut self,
        staker_address: &Address,
        value: Coin,
        receipt: Option<InactiveStakeReceipt>,
    ) -> (r: Result<(), AccountError>)
        ensures
            (final(self)@, r) == revert_retire_recipient_step(
                old(self)@,
                *staker_address,
                value,
                receipt,
            ),
    {
        self.balance = match balance_sub(self.balance, value) {
            Ok(balance) => balance,
            Err(e) => {
                return Err(e);
            },
        };
        let inactive_stake = match self.inactive_stake_by_address.remove(staker_address) {
            Some(inactive_stake) => inactive_stake,
            None => {
                assert(self@.inactive =~= old(self)@.inactive);
                return Err(AccountError::InvalidForRecipient);
            },
        };
        if inactive_stake.balance.lunas > value.lunas || (inactive_stake.balance.lunas
            == value.lunas && receipt.is_some()) {
            let receipt = match receipt {
                Some(receipt) => receipt,
                None => {
                    return Err(AccountError::InvalidReceipt);
                },
            };
            let balance = match balance_sub(inactive_stake.balance, value) {
                Ok(balance) => balance,
                Err(e) => {
                    return Err(e);
                },
            };
            let new_inactive_stake = InactiveStake { balance, retire_time: receipt.retire_time };
            self.inactive_stake_by_address.insert(*staker_address, new_inactive_stake);
            assert(self@.inactive =~= old(self)@.inactive.insert(
                *staker_address,
                new_inactive_stake,
            ));
        } else if receipt.is_some() {
            return Err(AccountError::InvalidReceipt);
        }
        Ok(())
    }

    /// Takes `total_value` out of the inactive stake of `staker_address`. Returns
    /// its retire time if nothing is left of it.
    pub fn unstake(&mut self, staker_address: &Address, total_value: Coin) -> (r: Result<
        Option<InactiveStakeReceipt>,
        AccountError,
    >)
        requires
            unstake_allowed(old(self)@, *staker_address, total_value),
        ensures
            (final(self)@, r) == unstake_step(old(self)@, *staker_address, total_value),
    {
        self.balance = match balance_sub(self.balance, total_value) {
            Ok(balance) => balance,
            Err(e) => {
                return Err(e);
            },
        };
        let inactive_stake = match self.inactive_stake_by_address.remove(staker_address) {
            Some(inactive_stake) => inactive_stake,
            None => {
                assert(self@.inactive =~= old(self)@.inactive);
                return Err(AccountError::InvalidForSender);
            },
        };
        if inactive_stake.balance.lunas > total_value.lunas {
            let balance = match balance_sub(inactive_stake.balance, total_value) {
                Ok(balance) => balance,
                Err(e) => {
                    return Err(e);
                },
            };
            let new_inactive_stake = InactiveStake {
                balance,
                retire_time: inactive_stake.retire_time,
            };
            self.inactive_stake_by_address.insert(*staker_address, new_inactive_stake);
            assert(self@.inactive =~= old(self)@.inactive.insert(
                *staker_address,
                new_inactive_stake,
            ));
            Ok(None)
        } else {
            Ok(Some(InactiveStakeReceipt { retire_time: inactive_stake.retire_time }))
        }
    }

    /// Undoes `unstake`.
    pub fn revert_unstake(
        &mut self,
        staker_address: &Address,
        total_value: Coin,
        receipt: Option<InactiveStakeReceipt>,
    ) -> (r: Result<(), AccountError>)
        ensures
            (final(self)@, r) == revert_unstake_step(
                old(self)@,
                *staker_address,
                total_value,
                receipt,
            ),
    {
        self.balance = match balance_add(self.balance, total_value) {
            Ok(balance) => balance,
            Err(e) => {
                return Err(e);
            },
        };
        match self.inactive_stake_by_address.remove(staker_address) {
            Some(inactive_stake) => {
                if receipt.is_some() {
                    return Err(AccountError::InvalidReceipt);
                }
                let balance = match balance_add(inactive_stake.balance, total_value) {
                    Ok(balance) => balance,
                    Err(e) => {
                        return Err(e);
                    },
                };
                let new_inactive_stake = InactiveStake {
                    balance,
                    retire_time: inactive_stake.retire_time,
                };
                self.inactive_stake_by_address.insert(*staker_address, new_inactive_stake);
                assert(self@.inactive =~= old(self)@.inactive.insert(
                    *staker_address,
                    new_inactive_stake,
                ));
            },
            None => {
                assert(self@.inactive =~= old(self)@.inactive);
                let receipt = match receipt {
                    Some(receipt) => receipt,
                    None => {
                        return Err(AccountError::InvalidReceipt);
                    },
                };
                let new_inactive_stake = InactiveStake {
                    balance: total_value,
                    retire_time: receipt.retire_time,
                };
                self.inactive_stake_by_address.insert(*staker_address, new_inactive_stake);
            },
        }
        Ok(())
    }
}

/// All contracts count as equal: there is only one.
impl PartialEq for StakingContract {
    fn eq(&self, _other: &StakingContract) -> (b: bool) {
        true
    }
}

impl vstd::std_specs::cmp::PartialEqSpecImpl for StakingContract {
    open spec fn obeys_eq_spec() -> bool {
        true
    }

    open spec fn eq_spec(&self, _other: &StakingContract) -> bool {
        true
    }
}

impl Eq for StakingContract {

}

impl PartialOrd for StakingContract {
    fn partial_cmp(&self, other: &StakingContract) -> (o: Option<Ordering>) {
        Some(self.cmp(other))
    }
}

impl vstd::std_specs::cmp::PartialOrdSpecImpl for StakingContract {
    open spec fn obeys_partial_cmp_spec() -> bool {
        true
    }

    open spec fn partial_cmp_spec(&self, _other: &StakingContract) -> Option<Ordering> {
        Some(Ordering::Equal)
    }
}

impl StakingContract {
    /// All contracts rank equally.
    pub fn cmp(&self, _other: &StakingContract) -> (o: Ordering)
        ensures
            o == Ordering::Equal,
    {
        Ordering::Equal
    }
}

impl Clone for StakingContract {
    /// A contract in the same state.
    fn clone(&self) -> (c: StakingContract)
        ensures
            c@ == self@,
    {
        StakingContract {
            balance: self.balance,
            active_stake_sorted: self.active_stake_sorted.clone(),
            active_stake_by_address: self.active_stake_by_address.clone(),
            inactive_stake_by_address: self.inactive_stake_by_address.clone(),
        }
    }
}

impl Default for StakingContract {
    /// A contract without stakes, which is sound.
    fn default() -> (c: StakingContract)
        ensures
            c@ == (Ledger {
                balance: Coin { lunas: 0 },
                sorted: Map::empty(),
                by_address: Map::empty(),
                inactive: Map::empty(),
            }),
            c@.sound(),
    {
        StakingContract {
            balance: Coin::zero(),
            active_stake_sorted: StakeSet::new(),
            active_stake_by_address: SortedMap::new(),
            inactive_stake_by_address: SortedMap::new(),
        }
    }
}

} // verus!
