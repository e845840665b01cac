//! What each step does to the balances, the stakes and the rankings, in numbers.
//!
//! The largest amount of money is written out in these laws as
//! 9007199254740991 lunas.

use crate::address::Address;
use crate::bls::BlsPublicKey;
use crate::coin::Coin;
use crate::error::AccountError;
use crate::ledger::{
    retire_allowed, retire_recipient_step, retire_sender_step, revert_retire_recipient_step,
    revert_retire_sender_step, revert_stake_allowed, revert_stake_step, revert_unstake_step,
    stake_step, unstake_allowed, unstake_step, with_stake, without_stake, Ledger,
};
use crate::stake::{ActiveStake, ActiveStakeReceipt, InactiveStakeReceipt, StakeKey};
use crate::staking_contract::StakingContract;
use vstd::prelude::*;

verus! {

/// The ledger of a contract is what its four fields hold.
pub proof fn law_ledger_of_contract(c: StakingContract)
    ensures
        c@.balance.lunas == c.balance.lunas,
        forall|k: StakeKey| #[trigger]
            c@.sorted.contains_key(k) == c.active_stake_sorted@.contains_key(k),
        forall|k: StakeKey| #[trigger] c@.sorted[k] == c.active_stake_sorted@[k],
        forall|a: Address| #[trigger]
            c@.by_address.contains_key(a) == c.active_stake_by_address@.contains_key(a),
        forall|a: Address| #[trigger] c@.by_address[a] == c.active_stake_by_address@[a],
        forall|a: Address| #[trigger]
            c@.inactive.contains_key(a) == c.inactive_stake_by_address@.contains_key(a),
        forall|a: Address| #[trigger] c@.inactive[a] == c.inactive_stake_by_address@[a],
{
}

/// Adding a stake to the ranked ones makes its rank, made of its balance and its
/// staker, taken, and changes no other rank. If the rank was taken, nothing changes.
/// Taking a stake out frees its rank alone.
pub proof fn law_ranks(m: Map<StakeKey, ActiveStake>, s: ActiveStake, k: StakeKey)
    ensures
        ({
            let own = k.balance == s.balance && k.address == s.staker_address;
            let more = with_stake(m, s);
            let less = without_stake(m, s);
            &&& more.contains_key(k) <==> m.contains_key(k) || own
            &&& own && !m.contains_key(k) ==> more[k] == s
            &&& m.contains_key(k) ==> more[k] == m[k]
            &&& less.contains_key(k) <==> m.contains_key(k) && !own
            &&& less.contains_key(k) ==> less[k] == m[k]
        }),
{
}

/// Staking succeeds exactly if neither the balance of the contract nor that of the
/// stake leaves the range of money. Both grow by the value; the stake carries the
/// given key and reward address whether or not there was one before; the receipt
/// holds what it carried before, if there was one.
pub proof fn law_stake_in_numbers(
    l: Ledger,
    staker: Address,
    value: Coin,
    validator_key: BlsPublicKey,
    reward_address: Option<Address>,
)
    ensures
        ({
            let (m, r) = stake_step(l, staker, value, validator_key, reward_address);
            let had = l.by_address.contains_key(staker);
            let old = l.by_address[staker];
            let new = m.by_address[staker];
            &&& r is Ok <==> l.balance.lunas + value.lunas <= 9007199254740991 && (had
                ==> old.balance.lunas + value.lunas <= 9007199254740991)
            &&& r is Err ==> r->Err_0 == AccountError::InvalidCoinValue
            &&& r is Ok ==> {
                &&& m.balance.lunas == l.balance.lunas + value.lunas
                &&& m.by_address.contains_key(staker)
                &&& new.balance.lunas == value.lunas + if had {
                    old.balance.lunas as int
                } else {
                    0
                }
                &&& new.validator_key == validator_key
                &&& new.reward_address == reward_address
                &&& new.staker_address == if had {
                    old.staker_address
                } else {
                    staker
                }
                &&& r->Ok_0 is Some <==> had
                &&& had ==> r->Ok_0->0.validator_key == old.validator_key
                    && r->Ok_0->0.reward_address == old.reward_address
            }
        }),
{
}

/// What staking leaves as it was: inactive stakes, the stakes of all others and their
/// ranks. The old rank of the stake is freed and the new one is taken. Where the
/// balance of the contract would leave the range of money nothing changes at all.
pub proof fn law_stake_elsewhere(
    l: Ledger,
    staker: Address,
    value: Coin,
    validator_key: BlsPublicKey,
    reward_address: Option<Address>,
    a: Address,
    k: StakeKey,
)
    ensures
        ({
            let (m, r) = stake_step(l, staker, value, validator_key, reward_address);
            let had = l.by_address.contains_key(staker);
            let old = l.by_address[staker];
            let new = m.by_address[staker];
            let was = had && k.balance == old.balance && k.address == old.staker_address;
            let is = k.balance == new.balance && k.address == new.staker_address;
            &&& m.inactive == l.inactive
            &&& a != staker ==> m.by_address.contains_key(a) == l.by_address.contains_key(a)
                && m.by_address[a] == l.by_address[a]
            &&& l.balance.lunas + value.lunas > 9007199254740991 ==> m == l
            &&& r is Err ==> m.sorted == l.sorted
            &&& r is Err && l.balance.lunas + value.lunas <= 9007199254740991 ==> {
                &&& m.balance.lunas == l.balance.lunas + value.lunas
                &&& !m.by_address.contains_key(staker)
            }
            &&& r is Ok ==> {
                &&& m.sorted.contains_key(k) <==> is || (l.sorted.contains_key(k) && !was)
                &&& l.sorted.contains_key(k) && !was ==> m.sorted[k] == l.sorted[k]
                &&& is && (was || !l.sorted.contains_key(k)) ==> m.sorted[k] == new
            }
        }),
{
}

/// Undoing a stake succeeds exactly if the contract has the value, the staker has a
/// stake, and a receipt is there where more than the value is staked. With a receipt
/// the stake shrinks by the value and carries what the receipt holds; without one it
/// goes.
pub proof fn law_revert_stake_in_numbers(
    l: Ledger,
    staker: Address,
    value: Coin,
    receipt: Option<ActiveStakeReceipt>,
)
    requires
        l.balance.lunas >= value.lunas && l.by_address.contains_key(staker)
            ==> l.by_address[staker].balance.lunas >= value.lunas,
    ensures
        revert_stake_allowed(l, staker, value),
        ({
            let (m, r) = revert_stake_step(l, staker, value, receipt);
            let had = l.by_address.contains_key(staker);
            let old = l.by_address[staker];
            let new = m.by_address[staker];
            &&& r is Ok <==> value.lunas <= l.balance.lunas && had && (old.balance.lunas
                > value.lunas ==> receipt is Some)
            &&& r is Err ==> r->Err_0 == if value.lunas > l.balance.lunas {
                AccountError::InsufficientFunds { needed: value, balance: l.balance }
            } else if !had {
                AccountError::InvalidForRecipient
            } else {
                AccountError::InvalidReceipt
            }
            &&& m.inactive == l.inactive
            &&& value.lunas > l.balance.lunas ==> m == l
            &&& value.lunas <= l.balance.lunas ==> m.balance.lunas == l.balance.lunas - value.lunas
            &&& r is Err ==> m.sorted == l.sorted && m.by_address == l.by_address
            &&& r is Ok ==> {
                &&& m.by_address.contains_key(staker) <==> receipt is Some
                &&& receipt is Some ==> {
                    &&& new.balance.lunas == old.balance.lunas - value.lunas
                    &&& new.staker_address == old.staker_address
                    &&& new.validator_key == receipt->0.validator_key
                    &&& new.reward_address == receipt->0.reward_address
                }
            }
        }),
{
}

/// What undoing a stake leaves as it was: the stakes of all others and their ranks.
pub proof fn law_revert_stake_elsewhere(
    l: Ledger,
    staker: Address,
    value: Coin,
    receipt: Option<ActiveStakeReceipt>,
    a: Address,
    k: StakeKey,
)
    requires
        revert_stake_step(l, staker, value, receipt).1 is Ok,
    ensures
        ({
            let m = revert_stake_step(l, staker, value, receipt).0;
            let old = l.by_address[staker];
            let new = m.by_address[staker];
            let was = k.balance == old.balance && k.address == old.staker_address;
            let is = receipt is Some && k.balance == new.balance && k.address
                == new.staker_address;
            &&& a != staker ==> m.by_address.contains_key(a) == l.by_address.contains_key(a)
                && m.by_address[a] == l.by_address[a]
            &&& m.sorted.contains_key(k) <==> is || (l.sorted.contains_key(k) && !was)
            &&& l.sorted.contains_key(k) && !was ==> m.sorted[k] == l.sorted[k]
            &&& is && (was || !l.sorted.contains_key(k)) ==> m.sorted[k] == new
        }),
{
}

/// Taking value out of an active stake succeeds exactly if the contract has it and
/// the staker has a stake. What is left keeps key and reward address; where nothing
/// is left the stake goes, and the receipt holds them.
pub proof fn law_retire_sender_in_numbers(l: Ledger, staker: Address, total_value: Coin)
    requires
        l.balance.lunas >= total_value.lunas && l.by_address.contains_key(staker)
            ==> l.by_address[staker].balance.lunas >= total_value.lunas,
    ensures
        retire_allowed(l, staker, total_value),
        ({
            let (m, r) = retire_sender_step(l, staker, total_value);
            let had = l.by_address.contains_key(staker);
            let old = l.by_address[staker];
            let new = m.by_address[staker];
            &&& r is Ok <==> total_value.lunas <= l.balance.lunas && had
            &&& r is Err ==> r->Err_0 == if total_value.lunas > l.balance.lunas {
                AccountError::InsufficientFunds { needed: total_value, balance: l.balance }
            } else {
                AccountError::InvalidForSender
            }
            &&& m.inactive == l.inactive
            &&& total_value.lunas > l.balance.lunas ==> m == l
            &&& total_value.lunas <= l.balance.lunas ==> m.balance.lunas == l.balance.lunas
                - total_value.lunas
            &&& r is Err ==> m.sorted == l.sorted && m.by_address == l.by_address
            &&& r is Ok ==> {
                &&& m.by_address.contains_key(staker) <==> old.balance.lunas > total_value.lunas
                &&& r->Ok_0 is Some <==> old.balance.lunas == total_value.lunas
                &&& r->Ok_0 is Some ==> r->Ok_0->0.validator_key == old.validator_key
                    && r->Ok_0->0.reward_address == old.reward_address
                &&& m.by_address.contains_key(staker) ==> {
                    &&& new.balance.lunas == old.balance.lunas - total_value.lunas
                    &&& new.staker_address == staker
                    &&& new.validator_key == old.validator_key
                    &&& new.reward_address == old.reward_address
                }
            }
        }),
{
}

/// What retiring leaves as it was: the active stakes of all others and their ranks.
pub proof fn law_retire_sender_elsewhere(
    l: Ledger,
    staker: Address,
    total_value: Coin,
    a: Address,
    k: StakeKey,
)
    requires
        retire_sender_step(l, staker, total_value).1 is Ok,
    ensures
        ({
            let m = retire_sender_step(l, staker, total_value).0;
            let old = l.by_address[staker];
            let new = m.by_address[staker];
            let was = k.balance == old.balance && k.address == old.staker_address;
            let is = m.by_address.contains_key(staker) && k.balance == new.balance && k.address
                == new.staker_address;
            &&& a != staker ==> m.by_address.contains_key(a) == l.by_address.contains_key(a)
                && m.by_address[a] == l.by_address[a]
            &&& m.sorted.contains_key(k) <==> is || (l.sorted.contains_key(k) && !was)
            &&& l.sorted.contains_key(k) && !was ==> m.sorted[k] == l.sorted[k]
            &&& is && (was || !l.sorted.contains_key(k)) ==> m.sorted[k] == new
        }),
{
}

/// Undoing the paying side of a retirement succeeds exactly if no balance leaves the
/// range of money and there is a receipt just where there is no stake. The stake
/// grows by the value, or comes back with what the receipt holds.
pub proof fn law_revert_retire_sender_in_numbers(
    l: Ledger,
    staker: Address,
    total_value: Coin,
    receipt: Option<ActiveStakeReceipt>,
)
    ensures
        ({
            let (m, r) = revert_retire_sender_step(l, staker, total_value, receipt);
            let had = l.by_address.contains_key(staker);
            let old = l.by_address[staker];
            let new = m.by_address[staker];
            &&& r is Ok <==> {
                &&& l.balance.lunas + total_value.lunas <= 9007199254740991
                &&& had <==> receipt is None
                &&& had ==> old.balance.lunas + total_value.lunas <= 9007199254740991
            }
            &&& r is Err ==> r->Err_0 == if l.balance.lunas + total_value.lunas <= 9007199254740991
                && (had <==> receipt is Some) {
                AccountError::InvalidReceipt
            } else {
                AccountError::InvalidCoinValue
            }
            &&& m.inactive == l.inactive
            &&& l.balance.lunas + total_value.lunas > 9007199254740991 ==> m == l
            &&& l.balance.lunas + total_value.lunas <= 9007199254740991 ==> m.balance.lunas
                == l.balance.lunas + total_value.lunas
            &&& r is Err ==> m.sorted == l.sorted
            &&& r is Err && l.balance.lunas + total_value.lunas <= 9007199254740991
                ==> !m.by_address.contains_key(staker)
            &&& r is Ok ==> {
                &&& m.by_address.contains_key(staker)
                &&& new.staker_address == staker
                &&& new.balance.lunas == total_value.lunas + if had {
                    old.balance.lunas as int
                } else {
                    0
                }
                &&& new.validator_key == if had {
                    old.validator_key
                } else {
                    receipt->0.validator_key
                }
                &&& new.reward_address == if had {
                    old.reward_address
                } else {
                    receipt->0.reward_address
                }
            }
        }),
{
}

/// What undoing the paying side of a retirement leaves as it was: the active stakes
/// of all others and their ranks.
pub proof fn law_revert_retire_sender_elsewhere(
    l: Ledger,
    staker: Address,
    total_value: Coin,
    receipt: Option<ActiveStakeReceipt>,
    a: Address,
    k: StakeKey,
)
    ensures
        ({
            let (m, r) = revert_retire_sender_step(l, staker, total_value, receipt);
            let had = l.by_address.contains_key(staker);
            let old = l.by_address[staker];
            let new = m.by_address[staker];
            let was = had && k.balance == old.balance && k.address == old.staker_address;
            let is = k.balance == new.balance && k.address == new.staker_address;
            &&& a != staker ==> m.by_address.contains_key(a) == l.by_address.contains_key(a)
                && m.by_address[a] == l.by_address[a]
            &&& r is Ok ==> {
                &&& m.sorted.contains_key(k) <==> is || (l.sorted.contains_key(k) && !was)
                &&& l.sorted.contains_key(k) && !was ==> m.sorted[k] == l.sorted[k]
                &&& is && (was || !l.sorted.contains_key(k)) ==> m.sorted[k] == new
            }
        }),
{
}

/// Putting value into an inactive stake succeeds exactly if no balance leaves the
/// range of money. The entry grows by the value and was retired at this height; the
/// receipt holds the height that was recorded before, if there was an entry. Nothing
/// else changes.
pub proof fn law_retire_recipient_in_numbers(
    l: Ledger,
    staker: Address,
    value: Coin,
    block_height: u32,
    a: Address,
)
    ensures
        ({
            let (m, r) = retire_recipient_step(l, staker, value, block_height);
            let had = l.inactive.contains_key(staker);
            let old = l.inactive[staker];
            let new = m.inactive[staker];
            &&& r is Ok <==> l.balance.lunas + value.lunas <= 9007199254740991 && (had
                ==> old.balance.lunas + value.lunas <= 9007199254740991)
            &&& r is Err ==> r->Err_0 == AccountError::InvalidCoinValue
            &&& l.balance.lunas + value.lunas > 9007199254740991 ==> m == l
            &&& r is Err && l.balance.lunas + value.lunas <= 9007199254740991 ==> {
                &&& m.balance.lunas == l.balance.lunas + value.lunas
                &&& !m.inactive.contains_key(staker)
            }
            &&& m.sorted == l.sorted && m.by_address == l.by_address
            &&& a != staker ==> m.inactive.contains_key(a) == l.inactive.contains_key(a)
                && m.inactive[a] == l.inactive[a]
            &&& r is Ok ==> {
                &&& m.balance.lunas == l.balance.lunas + value.lunas
                &&& m.inactive.contains_key(staker)
                &&& new.retire_time == block_height
                &&& new.balance.lunas == value.lunas + if had {
                    old.balance.lunas as int
                } else {
                    0
                }
                &&& r->Ok_0 is Some <==> had
                &&& had ==> r->Ok_0->0.retire_time == old.retire_time
            }
        }),
{
}

/// Undoing the receiving side of a retirement succeeds exactly if the contract has the
/// value, the staker has an entry, and the receipt fits: it is needed where more than
/// the value is there, and refused where less is. With a receipt the entry shrinks by
/// the value and was retired when the receipt says; without one it goes.
pub proof fn law_revert_retire_recipient_in_numbers(
    l: Ledger,
    staker: Address,
    value: Coin,
    receipt: Option<InactiveStakeReceipt>,
    a: Address,
)
    ensures
        ({
            let (m, r) = revert_retire_recipient_step(l, staker, value, receipt);
            let had = l.inactive.contains_key(staker);
            let old = l.inactive[staker];
            let new = m.inactive[staker];
            &&& r is Ok <==> {
                &&& value.lunas <= l.balance.lunas
                &&& had
                &&& old.balance.lunas > value.lunas ==> receipt is Some
                &&& old.balance.lunas < value.lunas ==> receipt is None
            }
            &&& r is Err ==> r->Err_0 == if value.lunas > l.balance.lunas {
                AccountError::InsufficientFunds { needed: value, balance: l.balance }
            } else if !had {
                AccountError::InvalidForRecipient
            } else {
                AccountError::InvalidReceipt
            }
            &&& value.lunas > l.balance.lunas ==> m == l
            &&& value.lunas <= l.balance.lunas ==> m.balance.lunas == l.balance.lunas - value.lunas
            &&& r is Err && value.lunas <= l.balance.lunas ==> !m.inactive.contains_key(staker)
            &&& m.sorted == l.sorted && m.by_address == l.by_address
            &&& a != staker ==> m.inactive.contains_key(a) == l.inactive.contains_key(a)
                && m.inactive[a] == l.inactive[a]
            &&& r is Ok ==> {
                &&& m.inactive.contains_key(staker) <==> receipt is Some
                &&& receipt is Some ==> new.balance.lunas == old.balance.lunas - value.lunas
                    && new.retire_time == receipt->0.retire_time
            }
        }),
{
}

/// Taking value out of an inactive stake succeeds exactly if the contract has it and
/// the staker has an entry. What is left keeps its retire time; where nothing is left
/// the entry goes, and the receipt holds the retire time.
pub proof fn law_unstake_in_numbers(l: Ledger, staker: Address, total_value: Coin, a: Address)
    requires
        l.balance.lunas >= total_value.lunas && l.inactive.contains_key(staker)
            ==> l.inactive[staker].balance.lunas >= total_value.lunas,
    ensures
        unstake_allowed(l, staker, total_value),
        ({
            let (m, r) = unstake_step(l, staker, total_value);
            let had = l.inactive.contains_key(staker);
            let old = l.inactive[staker];
            let new = m.inactive[staker];
            &&& r is Ok <==> total_value.lunas <= l.balance.lunas && had
            &&& r is Err ==> r->Err_0 == if total_value.lunas > l.balance.lunas {
                AccountError::InsufficientFunds { needed: total_value, balance: l.balance }
            } else {
                AccountError::InvalidForSender
            }
            &&& total_value.lunas > l.balance.lunas ==> m == l
            &&& total_value.lunas <= l.balance.lunas ==> m.balance.lunas == l.balance.lunas
                - total_value.lunas
            &&& m.sorted == l.sorted && m.by_address == l.by_address
            &&& a != staker ==> m.inactive.contains_key(a) == l.inactive.contains_key(a)
                && m.inactive[a] == l.inactive[a]
            &&& r is Ok ==> {
                &&& m.inactive.contains_key(staker) <==> old.balance.lunas > total_value.lunas
                &&& r->Ok_0 is Some <==> old.balance.lunas == total_value.lunas
                &&& r->Ok_0 is Some ==> r->Ok_0->0.retire_time == old.retire_time
                &&& m.inactive.contains_key(staker) ==> new.balance.lunas == old.balance.lunas
                    - total_value.lunas && new.retire_time == old.retire_time
            }
        }),
{
}

/// Undoing an unstaking succeeds exactly if no balance leaves the range of money and
/// there is a receipt just where there is no entry. The entry grows by the value, or
/// comes back with the retire time of the receipt.
pub proof fn law_revert_unstake_in_numbers(
    l: Ledger,
    staker: Address,
    total_value: Coin,
    receipt: Option<InactiveStakeReceipt>,
    a: Address,
)
    ensures
        ({
            let (m, r) = revert_unstake_step(l, staker, total_value, receipt);
            let had = l.inactive.contains_key(staker);
            let old = l.inactive[staker];
            let new = m.inactive[staker];
            &&& r is Ok <==> {
                &&& l.balance.lunas + total_value.lunas <= 9007199254740991
                &&& had <==> receipt is None
                &&& had ==> old.balance.lunas + total_value.lunas <= 9007199254740991
            }
            &&& r is Err ==> r->Err_0 == if l.balance.lunas + total_value.lunas <= 9007199254740991
                && (had <==> receipt is Some) {
                AccountError::InvalidReceipt
            } else {
                AccountError::InvalidCoinValue
            }
            &&& l.balance.lunas + total_value.lunas > 9007199254740991 ==> m == l
            &&& l.balance.lunas + total_value.lunas <= 9007199254740991 ==> m.balance.lunas
                == l.balance.lunas + total_value.lunas
            &&& r is Err && l.balance.lunas + total_value.lunas <= 9007199254740991
                ==> !m.inactive.contains_key(staker)
            &&& m.sorted == l.sorted && m.by_address == l.by_address
            &&& a != staker ==> m.inactive.contains_key(a) == l.inactive.contains_key(a)
                && m.inactive[a] == l.inactive[a]
            &&& r is Ok ==> {
                &&& m.inactive.contains_key(staker)
                &&& new.balance.lunas == total_value.lunas + if had {
                    old.balance.lunas as int
                } else {
                    0
                }
                &&& new.retire_time == if had {
                    old.retire_time
                } else {
                    receipt->0.retire_time
                }
            }
        }),
{
}

} // verus!
