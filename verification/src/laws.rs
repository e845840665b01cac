//! What holds of the contract as a whole.

use crate::address::Address;
use crate::bls::BlsPublicKey;
use crate::coin::{Coin, MAX_SAFE_VALUE};
use crate::error::AccountError;
use crate::ledger::{
    retire_recipient_step, retire_sender_step, revert_retire_recipient_step,
    revert_retire_sender_step, revert_stake_allowed, revert_stake_step, revert_unstake_step,
    stake_step, unstake_step, Ledger,
};
use crate::stake::{ActiveStake, ActiveStakeReceipt, InactiveStakeReceipt, StakeKey};
use crate::totals::{
    active_amount, amounts_safe, inactive_amount, lemma_stake_within_total, lemma_sum_insert,
};
use vstd::prelude::*;

verus! {

/// A change was undone: the ledger is `l` again, and there is no error.
pub open spec fn undone(l: Ledger) -> (Ledger, Result<(), AccountError>) {
    (l, Ok(()))
}

/// In a consistent ledger, a stake that gives way to another one of the same
/// staker leaves the ledger consistent.
proof fn lemma_replacing(l: Ledger, staker: Address, after: ActiveStake)
    requires
        l.consistent(),
        l.by_address.contains_key(staker),
        after.staker_address == staker,
    ensures
        ({
            let m = l.replacing(staker, l.by_address[staker], after);
            &&& m.consistent()
            &&& m.sorted == l.sorted.remove(l.by_address[staker].key()).insert(after.key(), after)
        }),
{
    let before = l.by_address[staker];
    let m = l.replacing(staker, before, after);
    let rest = l.sorted.remove(before.key());
    if rest.contains_key(after.key()) {
        assert(l.sorted.contains_key(after.key()));
        assert(l.by_address[staker] == l.sorted[after.key()]);
        assert(false);
    }
    assert(m.sorted == rest.insert(after.key(), after));
    assert forall|a: Address| #[trigger] m.by_address.contains_key(a) implies {
        &&& m.by_address[a].staker_address == a
        &&& m.sorted.contains_key(m.by_address[a].key())
    } by {
        if a != staker {
            assert(l.by_address.contains_key(a));
        }
    }
    assert forall|k: StakeKey| #[trigger] m.sorted.contains_key(k) implies {
        &&& m.sorted[k].key() == k
        &&& m.by_address.contains_key(k.address)
        &&& m.by_address[k.address] == m.sorted[k]
    } by {
        if k != after.key() {
            assert(l.sorted.contains_key(k));
            if k.address == staker {
                assert(l.sorted[k] == before);
            }
        }
    }
}

/// In a consistent ledger, a first stake of a staker leaves it consistent.
proof fn lemma_adding(l: Ledger, staker: Address, stake: ActiveStake)
    requires
        l.consistent(),
        !l.by_address.contains_key(staker),
        stake.staker_address == staker,
    ensures
        l.adding(staker, stake).consistent(),
        l.adding(staker, stake).sorted == l.sorted.insert(stake.key(), stake),
        !l.sorted.contains_key(stake.key()),
{
    let m = l.adding(staker, stake);
    if l.sorted.contains_key(stake.key()) {
        assert(l.by_address.contains_key(stake.key().address));
    }
    assert forall|a: Address| #[trigger] m.by_address.contains_key(a) implies {
        &&& m.by_address[a].staker_address == a
        &&& m.sorted.contains_key(m.by_address[a].key())
    } by {
        if a != staker {
            assert(l.by_address.contains_key(a));
        }
    }
    assert forall|k: StakeKey| #[trigger] m.sorted.contains_key(k) implies {
        &&& m.sorted[k].key() == k
        &&& m.by_address.contains_key(k.address)
        &&& m.by_address[k.address] == m.sorted[k]
    } by {
        if k != stake.key() {
            assert(l.sorted.contains_key(k));
        }
    }
}

/// In a consistent ledger, taking out the stake of a staker leaves it consistent.
pub proof fn lemma_dropping(l: Ledger, staker: Address)
    requires
        l.consistent(),
        l.by_address.contains_key(staker),
    ensures
        l.dropping(staker, l.by_address[staker]).consistent(),
{
    let before = l.by_address[staker];
    let m = l.dropping(staker, before);
    assert forall|a: Address| #[trigger] m.by_address.contains_key(a) implies {
        &&& m.by_address[a].staker_address == a
        &&& m.sorted.contains_key(m.by_address[a].key())
    } by {
        assert(l.by_address.contains_key(a));
    }
    assert forall|k: StakeKey| #[trigger] m.sorted.contains_key(k) implies {
        &&& m.sorted[k].key() == k
        &&& m.by_address.contains_key(k.address)
        &&& m.by_address[k.address] == m.sorted[k]
    } by {
        assert(l.sorted.contains_key(k));
        if k.address == staker {
            assert(l.sorted[k] == before);
        }
    }
}

/// Staking either succeeds and leaves a sound ledger sound, or changes nothing.
/// It succeeds exactly if the balance stays within the safe range. The stake
/// then has grown by `value` and carries the given key and reward address.
pub proof fn law_stake(
    l: Ledger,
    staker: Address,
    value: Coin,
    validator_key: BlsPublicKey,
    reward_address: Option<Address>,
)
    requires
        l.sound(),
    ensures
        ({
            let (m, r) = stake_step(l, staker, value, validator_key, reward_address);
            &&& m.sound()
            &&& r is Err ==> m == l
            &&& r is Ok <==> l.balance.lunas + value.lunas <= MAX_SAFE_VALUE
            &&& r is Ok ==> {
                &&& m.balance.lunas == l.balance.lunas + value.lunas
                &&& m.active_of(staker) == l.active_of(staker) + value.lunas
                &&& m.by_address[staker].validator_key == validator_key
                &&& m.by_address[staker].reward_address == reward_address
            }
        }),
{
    let (m, r) = stake_step(l, staker, value, validator_key, reward_address);
    lemma_stake_within_total(l, staker);
    if r is Ok {
        let after = m.by_address[staker];
        lemma_sum_insert(l.by_address, active_amount(), staker, after);
        if l.by_address.contains_key(staker) {
            lemma_replacing(l, staker, after);
        } else {
            lemma_adding(l, staker, after);
        }
    }
}

/// Taking at most what a staker has out of the active stakes succeeds and leaves
/// a sound ledger sound. Key and reward address stay with what is left, and a
/// staker with nothing left is no longer listed.
pub proof fn law_retire_sender(l: Ledger, staker: Address, total_value: Coin)
    requires
        l.sound(),
        l.by_address.contains_key(staker),
        total_value.lunas <= l.active_of(staker),
    ensures
        ({
            let (m, r) = retire_sender_step(l, staker, total_value);
            &&& m.sound()
            &&& r is Ok
            &&& m.balance.lunas == l.balance.lunas - total_value.lunas
            &&& m.active_of(staker) == l.active_of(staker) - total_value.lunas
            &&& m.inactive == l.inactive
            &&& m.by_address.contains_key(staker) <==> total_value.lunas < l.active_of(staker)
            &&& m.by_address.contains_key(staker) ==> {
                &&& m.by_address[staker].validator_key == l.by_address[staker].validator_key
                &&& m.by_address[staker].reward_address == l.by_address[staker].reward_address
            }
        }),
{
    let (m, r) = retire_sender_step(l, staker, total_value);
    lemma_stake_within_total(l, staker);
    let after = m.by_address[staker];
    lemma_sum_insert(l.by_address, active_amount(), staker, after);
    if m.by_address.contains_key(staker) {
        lemma_replacing(l, staker, after);
    } else {
        lemma_dropping(l, staker);
    }
}

/// Putting stake into the inactive stakes either succeeds and leaves a sound
/// ledger sound, or changes nothing. The staker then has `value` more there,
/// retired at this height.
pub proof fn law_retire_recipient(l: Ledger, staker: Address, value: Coin, block_height: u32)
    requires
        l.sound(),
    ensures
        ({
            let (m, r) = retire_recipient_step(l, staker, value, block_height);
            &&& m.sound()
            &&& r is Err ==> m == l
            &&& r is Ok <==> l.balance.lunas + value.lunas <= MAX_SAFE_VALUE
            &&& r is Ok ==> {
                &&& m.balance.lunas == l.balance.lunas + value.lunas
                &&& m.inactive_of(staker) == l.inactive_of(staker) + value.lunas
                &&& m.inactive[staker].retire_time == block_height
                &&& m.by_address == l.by_address
            }
        }),
{
    let (m, r) = retire_recipient_step(l, staker, value, block_height);
    lemma_stake_within_total(l, staker);
    if r is Ok {
        lemma_sum_insert(l.inactive, inactive_amount(), staker, m.inactive[staker]);
    }
}

/// Paying out at most the inactive stake of a staker succeeds and leaves a sound
/// ledger sound. What is left keeps its retire time, and a staker with nothing left
/// is no longer listed.
pub proof fn law_unstake(l: Ledger, staker: Address, total_value: Coin)
    requires
        l.sound(),
        l.inactive.contains_key(staker),
        total_value.lunas <= l.inactive_of(staker),
    ensures
        ({
            let (m, r) = unstake_step(l, staker, total_value);
            &&& m.sound()
            &&& r is Ok
            &&& m.balance.lunas == l.balance.lunas - total_value.lunas
            &&& m.inactive_of(staker) == l.inactive_of(staker) - total_value.lunas
            &&& m.by_address == l.by_address
            &&& m.inactive.contains_key(staker) <==> total_value.lunas < l.inactive_of(staker)
            &&& m.inactive.contains_key(staker) ==> m.inactive[staker].retire_time
                == l.inactive[staker].retire_time
        }),
{
    let (m, r) = unstake_step(l, staker, total_value);
    lemma_stake_within_total(l, staker);
    lemma_sum_insert(l.inactive, inactive_amount(), staker, m.inactive[staker]);
}

/// Undoing a stake gives the ledger back as it was.
pub proof fn law_revert_stake(
    l: Ledger,
    staker: Address,
    value: Coin,
    validator_key: BlsPublicKey,
    reward_address: Option<Address>,
)
    requires
        l.consistent(),
        stake_step(l, staker, value, validator_key, reward_address).1 is Ok,
    ensures
        ({
            let (m, r) = stake_step(l, staker, value, validator_key, reward_address);
            &&& revert_stake_allowed(m, staker, value)
            &&& revert_stake_step(m, staker, value, r->Ok_0) == undone(l)
        }),
{
    let (m, r) = stake_step(l, staker, value, validator_key, reward_address);
    let after = m.by_address[staker];
    let (n, q) = revert_stake_step(m, staker, value, r->Ok_0);
    if l.by_address.contains_key(staker) {
        let before = l.by_address[staker];
        lemma_replacing(l, staker, after);
        lemma_replacing(m, staker, before);
        assert(n.sorted =~= l.sorted);
        assert(n.by_address =~= l.by_address);
    } else {
        lemma_adding(l, staker, after);
        assert(n.sorted =~= l.sorted);
        assert(n.by_address =~= l.by_address);
    }
}

/// Undoing the paying side of a retirement gives the ledger back as it was.
pub proof fn law_revert_retire_sender(l: Ledger, staker: Address, total_value: Coin)
    requires
        l.consistent(),
        amounts_safe(l),
        retire_sender_step(l, staker, total_value).1 is Ok,
        total_value.lunas <= l.active_of(staker),
    ensures
        ({
            let (m, r) = retire_sender_step(l, staker, total_value);
            revert_retire_sender_step(m, staker, total_value, r->Ok_0) == undone(l)
        }),
{
    let (m, r) = retire_sender_step(l, staker, total_value);
    let before = l.by_address[staker];
    assert(l.sorted.contains_key(before.key()));
    let (n, q) = revert_retire_sender_step(m, staker, total_value, r->Ok_0);
    if m.by_address.contains_key(staker) {
        let after = m.by_address[staker];
        lemma_replacing(l, staker, after);
        lemma_replacing(m, staker, before);
        assert(n.sorted =~= l.sorted);
        assert(n.by_address =~= l.by_address);
    } else {
        lemma_dropping(l, staker);
        lemma_adding(m, staker, before);
        assert(n.sorted =~= l.sorted);
        assert(n.by_address =~= l.by_address);
    }
}

/// Undoing the receiving side of a retirement gives the ledger back as it was.
pub proof fn law_revert_retire_recipient(l: Ledger, staker: Address, value: Coin, block_height: u32)
    requires
        retire_recipient_step(l, staker, value, block_height).1 is Ok,
    ensures
        ({
            let (m, r) = retire_recipient_step(l, staker, value, block_height);
            revert_retire_recipient_step(m, staker, value, r->Ok_0) == undone(l)
        }),
{
    let (m, r) = retire_recipient_step(l, staker, value, block_height);
    let (n, q) = revert_retire_recipient_step(m, staker, value, r->Ok_0);
    assert(n.inactive =~= l.inactive);
}

/// Undoing an unstaking gives the ledger back as it was.
pub proof fn law_revert_unstake(l: Ledger, staker: Address, total_value: Coin)
    requires
        amounts_safe(l),
        unstake_step(l, staker, total_value).1 is Ok,
        total_value.lunas <= l.inactive_of(staker),
    ensures
        ({
            let (m, r) = unstake_step(l, staker, total_value);
            revert_unstake_step(m, staker, total_value, r->Ok_0) == undone(l)
        }),
{
    let (m, r) = unstake_step(l, staker, total_value);
    let (n, q) = revert_unstake_step(m, staker, total_value, r->Ok_0);
    assert(n.inactive =~= l.inactive);
}

/// Undoing a stake leaves a sound ledger sound.
pub proof fn law_revert_stake_keeps_sound(
    l: Ledger,
    staker: Address,
    value: Coin,
    receipt: Option<ActiveStakeReceipt>,
)
    requires
        l.sound(),
        revert_stake_allowed(l, staker, value),
        revert_stake_step(l, staker, value, receipt).1 is Ok,
    ensures
        revert_stake_step(l, staker, value, receipt).0.sound(),
{
    let (m, r) = revert_stake_step(l, staker, value, receipt);
    lemma_sum_insert(l.by_address, active_amount(), staker, m.by_address[staker]);
    if m.by_address.contains_key(staker) {
        lemma_replacing(l, staker, m.by_address[staker]);
    } else {
        lemma_dropping(l, staker);
    }
}

/// Undoing the paying side of a retirement leaves a sound ledger sound.
pub proof fn law_revert_retire_sender_keeps_sound(
    l: Ledger,
    staker: Address,
    total_value: Coin,
    receipt: Option<ActiveStakeReceipt>,
)
    requires
        l.sound(),
        revert_retire_sender_step(l, staker, total_value, receipt).1 is Ok,
    ensures
        revert_retire_sender_step(l, staker, total_value, receipt).0.sound(),
{
    let (m, r) = revert_retire_sender_step(l, staker, total_value, receipt);
    lemma_sum_insert(l.by_address, active_amount(), staker, m.by_address[staker]);
    if l.by_address.contains_key(staker) {
        lemma_replacing(l, staker, m.by_address[staker]);
    } else {
        lemma_adding(l, staker, m.by_address[staker]);
    }
}

/// Undoing the receiving side of a retirement leaves a sound ledger sound, if
/// the staker has what is to be taken back.
pub proof fn law_revert_retire_recipient_keeps_sound(
    l: Ledger,
    staker: Address,
    value: Coin,
    receipt: Option<InactiveStakeReceipt>,
)
    requires
        l.sound(),
        value.lunas <= l.inactive_of(staker),
        revert_retire_recipient_step(l, staker, value, receipt).1 is Ok,
    ensures
        revert_retire_recipient_step(l, staker, value, receipt).0.sound(),
{
    let (m, r) = revert_retire_recipient_step(l, staker, value, receipt);
    lemma_sum_insert(l.inactive, inactive_amount(), staker, m.inactive[staker]);
}

/// Undoing an unstaking leaves a sound ledger sound.
pub proof fn law_revert_unstake_keeps_sound(
    l: Ledger,
    staker: Address,
    total_value: Coin,
    receipt: Option<InactiveStakeReceipt>,
)
    requires
        l.sound(),
        revert_unstake_step(l, staker, total_value, receipt).1 is Ok,
    ensures
        revert_unstake_step(l, staker, total_value, receipt).0.sound(),
{
    let (m, r) = revert_unstake_step(l, staker, total_value, receipt);
    lemma_sum_insert(l.inactive, inactive_amount(), staker, m.inactive[staker]);
}

/// The two ledgers hold the same of a staker.
pub open spec fn same_for(l: Ledger, m: Ledger, staker: Address) -> bool {
    &&& m.by_address.get(staker) == l.by_address.get(staker)
    &&& m.inactive.get(staker) == l.inactive.get(staker)
    &&& forall|k: StakeKey|
        k.address == staker ==> #[trigger] m.sorted.contains_key(k) == l.sorted.contains_key(k)
            && (m.sorted.contains_key(k) ==> m.sorted[k] == l.sorted[k])
}

/// No step of one staker, done or undone, with success or without, touches what
/// another staker has.
pub proof fn law_other_stakers_untouched(
    l: Ledger,
    staker: Address,
    other: Address,
    value: Coin,
    validator_key: BlsPublicKey,
    reward_address: Option<Address>,
    block_height: u32,
    active_receipt: Option<ActiveStakeReceipt>,
    inactive_receipt: Option<InactiveStakeReceipt>,
)
    requires
        l.consistent(),
        other != staker,
    ensures
        same_for(l, stake_step(l, staker, value, validator_key, reward_address).0, other),
        same_for(l, revert_stake_step(l, staker, value, active_receipt).0, other),
        same_for(l, retire_sender_step(l, staker, value).0, other),
        same_for(l, revert_retire_sender_step(l, staker, value, active_receipt).0, other),
        same_for(l, retire_recipient_step(l, staker, value, block_height).0, other),
        same_for(l, revert_retire_recipient_step(l, staker, value, inactive_receipt).0, other),
        same_for(l, unstake_step(l, staker, value).0, other),
        same_for(l, revert_unstake_step(l, staker, value, inactive_receipt).0, other),
{
}

} // verus!
