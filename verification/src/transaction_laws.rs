//! What holds of the contract across the transactions that it takes part in.

use crate::address::Address;
use crate::bls::is_g2_point;
use crate::coin::MAX_SAFE_VALUE;
use crate::error::AccountError;
use crate::interaction::{
    active_receipt, commit_incoming_step, commit_outgoing_step, inactive_receipt, outgoing_answer,
    receipt_key_valid, revert_incoming_allowed, revert_incoming_step, revert_outgoing_step,
};
use crate::laws::{
    law_retire_recipient, law_retire_sender, law_revert_retire_recipient, law_revert_retire_sender,
    law_revert_stake, law_revert_unstake, law_stake, law_unstake, undone,
};
use crate::ledger::{receipt_of, Ledger};
use crate::policy::{unlock_height, Policy};
use crate::stake::{
    active_receipt_bytes, inactive_receipt_bytes, law_active_receipt_round_trip,
    law_inactive_receipt_round_trip, ActiveStakeReceipt, InactiveStakeReceipt, StakeKey,
};
use crate::totals::{amounts_safe, lemma_stake_within_total};
use crate::transaction::{total_of, Transaction};
use vstd::prelude::*;

verus! {

/// In a sound ledger every amount is within the safe range.
pub proof fn law_sound_amounts(l: Ledger)
    requires
        l.sound(),
    ensures
        amounts_safe(l),
{
    assert forall|k: StakeKey| #[trigger] l.sorted.contains_key(k) implies l.sorted[k].balance.lunas
        <= MAX_SAFE_VALUE by {
        lemma_stake_within_total(l, k.address);
    }
    assert forall|a: Address| #[trigger] l.inactive.contains_key(
        a,
    ) implies l.inactive[a].balance.lunas <= MAX_SAFE_VALUE by {
        lemma_stake_within_total(l, a);
    }
}

/// A receipt for active stake is read back as it was written.
proof fn lemma_active_receipt(r: ActiveStakeReceipt)
    ensures
        is_g2_point(r.validator_key@) ==> active_receipt(Some(active_receipt_bytes(r))) == Ok::<
            Option<ActiveStakeReceipt>,
            AccountError,
        >(Some(r)),
{
    law_active_receipt_round_trip(r, Seq::empty());
    assert(active_receipt_bytes(r) + Seq::<u8>::empty() =~= active_receipt_bytes(r));
}

/// A receipt for inactive stake is read back as it was written.
proof fn lemma_inactive_receipt(r: InactiveStakeReceipt)
    ensures
        inactive_receipt(Some(inactive_receipt_bytes(r))) == Ok::<
            Option<InactiveStakeReceipt>,
            AccountError,
        >(Some(r)),
{
    law_inactive_receipt_round_trip(r, Seq::empty());
    assert(inactive_receipt_bytes(r) + Seq::<u8>::empty() =~= inactive_receipt_bytes(r));
}

/// Receiving a transaction leaves a sound ledger sound, and a transaction that
/// is refused changes nothing.
pub proof fn law_incoming_keeps_sound(
    l: Ledger,
    tx: Transaction,
    block_height: u32,
    signed_by: Result<Address, AccountError>,
)
    requires
        l.sound(),
    ensures
        ({
            let (m, r) = commit_incoming_step(l, tx, block_height, signed_by);
            m.sound() && (r is Err ==> m == l)
        }),
{
    if tx.sender != tx.recipient {
        if tx.data is Ok {
            let data = tx.data->Ok_0;
            law_stake(l, tx.sender, tx.value, data.validator_key, data.reward_address);
        }
    } else if signed_by is Ok {
        law_retire_recipient(l, signed_by->Ok_0, tx.value, block_height);
    }
}

/// Sending a transaction leaves a sound ledger sound. It succeeds exactly if the
/// check allows it, and a transaction that is refused changes nothing.
pub proof fn law_outgoing_keeps_sound(
    l: Ledger,
    tx: Transaction,
    block_height: u32,
    policy: Policy,
    signed_by: Result<Address, AccountError>,
)
    requires
        l.sound(),
    ensures
        ({
            let (m, r) = commit_outgoing_step(l, tx, block_height, policy, signed_by);
            &&& m.sound()
            &&& r is Err ==> m == l
            &&& r is Ok <==> outgoing_answer(l, tx, block_height, policy, signed_by) is Ok
        }),
{
    if outgoing_answer(l, tx, block_height, policy, signed_by) is Ok {
        let staker = signed_by->Ok_0;
        let total = total_of(tx)->Ok_0;
        if tx.sender != tx.recipient {
            law_unstake(l, staker, total);
        } else {
            law_retire_sender(l, staker, total);
        }
    }
}

/// Stake is paid out exactly if the signer has inactive stake, the delay after
/// the macro block that follows its retirement is over, and the stake covers
/// value and fee. The contract then holds that much less, as does the signer.
pub proof fn law_unstake_after_delay(
    l: Ledger,
    tx: Transaction,
    block_height: u32,
    policy: Policy,
    staker: Address,
)
    requires
        l.sound(),
        tx.sender != tx.recipient,
    ensures
        ({
            let (m, r) = commit_outgoing_step(l, tx, block_height, policy, Ok(staker));
            &&& r is Ok <==> {
                &&& l.inactive.contains_key(staker)
                &&& block_height >= unlock_height(policy, l.inactive[staker].retire_time)
                &&& total_of(tx) is Ok
                &&& tx.value.lunas + tx.fee.lunas <= l.inactive_of(staker)
            }
            &&& r is Ok ==> {
                &&& m.balance.lunas == l.balance.lunas - tx.value.lunas - tx.fee.lunas
                &&& m.inactive_of(staker) == l.inactive_of(staker) - tx.value.lunas - tx.fee.lunas
                &&& m.by_address == l.by_address
            }
        }),
{
    if outgoing_answer(l, tx, block_height, policy, Ok(staker)) is Ok {
        law_unstake(l, staker, total_of(tx)->Ok_0);
    }
}

/// A retirement moves stake: once the contract has sent and received it, the
/// value has gone from the active stake of the signer to the inactive one, whose
/// retire time is the current height, and the fee has left the contract. It goes
/// through exactly if the active stake covers value and fee.
pub proof fn law_retirement_moves_stake(
    l: Ledger,
    tx: Transaction,
    block_height: u32,
    policy: Policy,
    staker: Address,
)
    requires
        l.sound(),
        tx.sender == tx.recipient,
    ensures
        ({
            let (m, r) = commit_outgoing_step(l, tx, block_height, policy, Ok(staker));
            let (n, q) = commit_incoming_step(m, tx, block_height, Ok(staker));
            &&& r is Ok <==> {
                &&& l.by_address.contains_key(staker)
                &&& total_of(tx) is Ok
                &&& tx.value.lunas + tx.fee.lunas <= l.active_of(staker)
            }
            &&& r is Ok ==> {
                &&& q is Ok
                &&& n.sound()
                &&& n.balance.lunas == l.balance.lunas - tx.fee.lunas
                &&& n.active_of(staker) == l.active_of(staker) - tx.value.lunas - tx.fee.lunas
                &&& n.inactive_of(staker) == l.inactive_of(staker) + tx.value.lunas
                &&& n.inactive[staker].retire_time == block_height
            }
        }),
{
    if outgoing_answer(l, tx, block_height, policy, Ok(staker)) is Ok {
        law_retire_sender(l, staker, total_of(tx)->Ok_0);
        let m = commit_outgoing_step(l, tx, block_height, policy, Ok(staker)).0;
        law_retire_recipient(m, staker, tx.value, block_height);
    }
}

/// Undoing a received transaction with its receipt is possible and gives the
/// ledger back as it was.
pub proof fn law_revert_incoming(
    l: Ledger,
    tx: Transaction,
    block_height: u32,
    signed_by: Result<Address, AccountError>,
)
    requires
        l.consistent(),
        commit_incoming_step(l, tx, block_height, signed_by).1 is Ok,
    ensures
        ({
            let (m, r) = commit_incoming_step(l, tx, block_height, signed_by);
            (tx.sender != tx.recipient ==> receipt_key_valid(l, tx.sender, r->Ok_0)) ==> {
                &&& revert_incoming_allowed(m, tx, r->Ok_0)
                &&& revert_incoming_step(m, tx, r->Ok_0, signed_by) == undone(l)
            }
        }),
{
    if tx.sender != tx.recipient {
        let data = tx.data->Ok_0;
        law_revert_stake(l, tx.sender, tx.value, data.validator_key, data.reward_address);
        if l.by_address.contains_key(tx.sender) {
            lemma_active_receipt(receipt_of(l.by_address[tx.sender]));
        }
    } else {
        let staker = signed_by->Ok_0;
        law_revert_retire_recipient(l, staker, tx.value, block_height);
        if l.inactive.contains_key(staker) {
            lemma_inactive_receipt(
                InactiveStakeReceipt { retire_time: l.inactive[staker].retire_time },
            );
        }
    }
}

/// Undoing a sent transaction with its receipt gives the ledger back as it was.
pub proof fn law_revert_outgoing(
    l: Ledger,
    tx: Transaction,
    block_height: u32,
    policy: Policy,
    signed_by: Result<Address, AccountError>,
)
    requires
        l.consistent(),
        amounts_safe(l),
        commit_outgoing_step(l, tx, block_height, policy, signed_by).1 is Ok,
    ensures
        ({
            let (m, r) = commit_outgoing_step(l, tx, block_height, policy, signed_by);
            (tx.sender == tx.recipient ==> receipt_key_valid(l, signed_by->Ok_0, r->Ok_0))
                ==> revert_outgoing_step(m, tx, r->Ok_0, signed_by) == undone(l)
        }),
{
    let staker = signed_by->Ok_0;
    let total = total_of(tx)->Ok_0;
    if tx.sender != tx.recipient {
        law_revert_unstake(l, staker, total);
        lemma_inactive_receipt(
            InactiveStakeReceipt { retire_time: l.inactive[staker].retire_time },
        );
    } else {
        law_revert_retire_sender(l, staker, total);
        lemma_active_receipt(receipt_of(l.by_address[staker]));
    }
}

/// A retirement that was sent and received can be undone on both sides, the
/// later one first, and the ledger is as it was.
pub proof fn law_revert_retirement(
    l: Ledger,
    tx: Transaction,
    block_height: u32,
    policy: Policy,
    staker: Address,
)
    requires
        l.sound(),
        tx.sender == tx.recipient,
        commit_outgoing_step(l, tx, block_height, policy, Ok(staker)).1 is Ok,
    ensures
        ({
            let (m, r) = commit_outgoing_step(l, tx, block_height, policy, Ok(staker));
            let (n, q) = commit_incoming_step(m, tx, block_height, Ok(staker));
            let (k, back) = revert_incoming_step(n, tx, q->Ok_0, Ok(staker));
            receipt_key_valid(l, staker, r->Ok_0) ==> {
                &&& back is Ok
                &&& revert_outgoing_step(k, tx, r->Ok_0, Ok(staker)) == undone(l)
            }
        }),
{
    law_retirement_moves_stake(l, tx, block_height, policy, staker);
    law_outgoing_keeps_sound(l, tx, block_height, policy, Ok(staker));
    law_sound_amounts(l);
    law_revert_outgoing(l, tx, block_height, policy, Ok(staker));
    let m = commit_outgoing_step(l, tx, block_height, policy, Ok(staker)).0;
    law_retire_sender(l, staker, total_of(tx)->Ok_0);
    law_revert_retire_recipient(m, staker, tx.value, block_height);
    if m.inactive.contains_key(staker) {
        lemma_inactive_receipt(
            InactiveStakeReceipt { retire_time: m.inactive[staker].retire_time },
        );
    }
}

} // verus!
