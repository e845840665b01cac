//! What transactions do to a contract, in numbers.
//!
//! The largest amount of money is written out in these laws as
//! 9007199254740991 lunas.

use crate::address::Address;
use crate::base_laws::law_unlock_height;
use crate::bls::is_g2_point;
use crate::codec::be_bytes;
use crate::coin::Coin;
use crate::error::{AccountError, TransactionError};
use crate::interaction::{
    active_receipt, commit_incoming_step, commit_outgoing_step, committed_view, inactive_receipt,
    outgoing_answer, receipt_view, revert_incoming_allowed, revert_incoming_step,
    revert_outgoing_step,
};
use crate::ledger::{
    retire_recipient_step, retire_sender_step, revert_retire_recipient_step,
    revert_retire_sender_step, revert_stake_step, revert_unstake_step, stake_step, Ledger,
};
use crate::policy::Policy;
use crate::stake::{
    law_active_receipt_round_trip, law_inactive_receipt_round_trip, parse_active_receipt,
    parse_inactive_receipt, ActiveStakeReceipt, InactiveStakeReceipt,
};
use crate::step_laws::{
    law_retire_recipient_in_numbers, law_retire_sender_in_numbers, law_stake_elsewhere,
    law_stake_in_numbers, law_unstake_in_numbers,
};
use crate::transaction::{total_of, Transaction};
use vstd::prelude::*;

verus! {

/// A receipt that a commit returned, or that is handed back, is its bytes, all of them.
pub proof fn law_receipt_is_its_bytes(v: Vec<u8>, e: AccountError)
    ensures
        committed_view(Ok(Some(v))) == Ok::<Option<Seq<u8>>, AccountError>(Some(v@)),
        committed_view(Ok(None)) == Ok::<Option<Seq<u8>>, AccountError>(None),
        committed_view(Err(e)) == Err::<Option<Seq<u8>>, AccountError>(e),
        receipt_view(Some(&v)) == Some(v@),
        receipt_view(None) == None::<Seq<u8>>,
{
}

/// No receipt is read as none. A receipt is read from the front of its bytes, and bytes
/// that cannot be read are an error that tells why.
pub proof fn law_receipt_read(
    b: Seq<u8>,
    r: ActiveStakeReceipt,
    q: InactiveStakeReceipt,
    tail: Seq<u8>,
)
    ensures
        active_receipt(None) == Ok::<Option<ActiveStakeReceipt>, AccountError>(None),
        inactive_receipt(None) == Ok::<Option<InactiveStakeReceipt>, AccountError>(None),
        parse_active_receipt(b) is Err ==> active_receipt(Some(b)) == Err::<
            Option<ActiveStakeReceipt>,
            AccountError,
        >(AccountError::InvalidSerialization(parse_active_receipt(b)->Err_0)),
        parse_inactive_receipt(b) is Err ==> inactive_receipt(Some(b)) == Err::<
            Option<InactiveStakeReceipt>,
            AccountError,
        >(AccountError::InvalidSerialization(parse_inactive_receipt(b)->Err_0)),
        is_g2_point(r.validator_key@) ==> active_receipt(
            Some(
                r.validator_key@ + (match r.reward_address {
                    Some(a) => seq![1u8] + a.bytes@,
                    None => seq![0u8],
                }) + tail,
            ),
        ) == Ok::<Option<ActiveStakeReceipt>, AccountError>(Some(r)),
        inactive_receipt(Some(be_bytes(q.retire_time as nat, 4) + tail)) == Ok::<
            Option<InactiveStakeReceipt>,
            AccountError,
        >(Some(q)),
{
    law_active_receipt_round_trip(r, tail);
    law_inactive_receipt_round_trip(q, tail);
}

/// A stake transaction, from another account to the contract: if its data can be read
/// and no balance leaves the range of money, the sender's active stake grows by its
/// value and carries the key and the reward address of its data, whether or not there
/// was a stake before; the contract grows by the same; the receipt holds what the
/// stake carried before, as bytes. Who signed, and when, plays no part.
pub proof fn law_stake_transaction(
    l: Ledger,
    tx: Transaction,
    block_height: u32,
    signed_by: Result<Address, AccountError>,
    a: Address,
)
    requires
        tx.sender != tx.recipient,
    ensures
        ({
            let (m, r) = commit_incoming_step(l, tx, block_height, signed_by);
            let had = l.by_address.contains_key(tx.sender);
            let old = l.by_address[tx.sender];
            let new = m.by_address[tx.sender];
            &&& r is Ok <==> {
                &&& tx.data is Ok
                &&& l.balance.lunas + tx.value.lunas <= 9007199254740991
                &&& had ==> old.balance.lunas + tx.value.lunas <= 9007199254740991
            }
            &&& r is Err ==> r->Err_0 == match tx.data {
                Err(e) => AccountError::InvalidTransaction(e),
                Ok(_) => AccountError::InvalidCoinValue,
            }
            &&& tx.data is Err ==> m == l
            &&& tx.data is Ok ==> m == stake_step(
                l,
                tx.sender,
                tx.value,
                tx.data->Ok_0.validator_key,
                tx.data->Ok_0.reward_address,
            ).0
            &&& m.inactive == l.inactive
            &&& a != tx.sender ==> m.by_address.contains_key(a) == l.by_address.contains_key(a)
                && m.by_address[a] == l.by_address[a]
            &&& r is Ok ==> {
                &&& m.balance.lunas == l.balance.lunas + tx.value.lunas
                &&& m.by_address.contains_key(tx.sender)
                &&& new.balance.lunas == tx.value.lunas + if had {
                    old.balance.lunas as int
                } else {
                    0
                }
                &&& new.staker_address == if had {
                    old.staker_address
                } else {
                    tx.sender
                }
                &&& new.validator_key == tx.data->Ok_0.validator_key
                &&& new.reward_address == tx.data->Ok_0.reward_address
                &&& r->Ok_0 is Some <==> had
                &&& had ==> r->Ok_0->0 == old.validator_key@ + (match old.reward_address {
                    Some(x) => seq![1u8] + x.bytes@,
                    None => seq![0u8],
                })
            }
        }),
{
    if tx.data is Ok {
        let data = tx.data->Ok_0;
        let k = crate::stake::StakeKey { balance: tx.value, address: a };
        law_stake_in_numbers(l, tx.sender, tx.value, data.validator_key, data.reward_address);
        law_stake_elsewhere(
            l,
            tx.sender,
            tx.value,
            data.validator_key,
            data.reward_address,
            a,
            k,
        );
    }
}

/// The receiving side of a retirement: the value joins the inactive stake of whoever
/// signed, which counts as retired at this height; the receipt holds the height that
/// was recorded before, in four bytes. The data plays no part.
pub proof fn law_retirement_received(
    l: Ledger,
    tx: Transaction,
    block_height: u32,
    signed_by: Result<Address, AccountError>,
    a: Address,
)
    requires
        tx.sender == tx.recipient,
    ensures
        ({
            let (m, r) = commit_incoming_step(l, tx, block_height, signed_by);
            let staker = signed_by->Ok_0;
            let had = l.inactive.contains_key(staker);
            let old = l.inactive[staker];
            let new = m.inactive[staker];
            &&& r is Ok <==> {
                &&& signed_by is Ok
                &&& l.balance.lunas + tx.value.lunas <= 9007199254740991
                &&& had ==> old.balance.lunas + tx.value.lunas <= 9007199254740991
            }
            &&& r is Err ==> r->Err_0 == match signed_by {
                Err(e) => e,
                Ok(_) => AccountError::InvalidCoinValue,
            }
            &&& signed_by is Err ==> m == l
            &&& signed_by is Ok ==> m == retire_recipient_step(
                l,
                staker,
                tx.value,
                block_height,
            ).0
            &&& m.sorted == l.sorted && m.by_address == l.by_address
            &&& a != staker ==> m.inactive.contains_key(a) == l.inactive.contains_key(a)
                && m.inactive[a] == l.inactive[a]
            &&& r is Ok ==> {
                &&& m.balance.lunas == l.balance.lunas + tx.value.lunas
                &&& m.inactive.contains_key(staker)
                &&& new.retire_time == block_height
                &&& new.balance.lunas == tx.value.lunas + if had {
                    old.balance.lunas as int
                } else {
                    0
                }
                &&& r->Ok_0 is Some <==> had
                &&& had ==> r->Ok_0->0 == be_bytes(old.retire_time as nat, 4)
            }
        }),
{
    if signed_by is Ok {
        law_retire_recipient_in_numbers(l, signed_by->Ok_0, tx.value, block_height, a);
    }
}

/// The paying side of a retirement: it goes through exactly if it is signed, the signer
/// has active stake that covers value and fee together, and the contract does. Both
/// shrink by that. The height plays no part.
pub proof fn law_retirement_sent(
    l: Ledger,
    tx: Transaction,
    block_height: u32,
    policy: Policy,
    signed_by: Result<Address, AccountError>,
)
    requires
        tx.sender == tx.recipient,
    ensures
        ({
            let (m, r) = commit_outgoing_step(l, tx, block_height, policy, signed_by);
            let answer = outgoing_answer(l, tx, block_height, policy, signed_by);
            let staker = signed_by->Ok_0;
            let had = l.by_address.contains_key(staker);
            let old = l.by_address[staker];
            let new = m.by_address[staker];
            let total = tx.value.lunas + tx.fee.lunas;
            &&& answer is Ok <==> signed_by is Ok && had && total <= 9007199254740991 && total
                <= old.balance.lunas
            &&& answer is Err ==> answer->Err_0 == if signed_by is Err {
                signed_by->Err_0
            } else if !had {
                AccountError::InvalidForSender
            } else if total > 9007199254740991 {
                AccountError::InvalidTransaction(TransactionError::Overflow)
            } else {
                AccountError::InsufficientFunds {
                    needed: Coin { lunas: total as u64 },
                    balance: old.balance,
                }
            }
            &&& answer is Err ==> m == l && r is Err && r->Err_0 == answer->Err_0
            &&& r is Ok <==> answer is Ok && total <= l.balance.lunas
            &&& r is Err ==> m == l
            &&& answer is Ok && r is Err ==> r->Err_0 == (AccountError::InsufficientFunds {
                needed: Coin { lunas: total as u64 },
                balance: l.balance,
            })
            &&& m.inactive == l.inactive
            &&& answer is Ok ==> m == retire_sender_step(
                l,
                staker,
                Coin { lunas: total as u64 },
            ).0
            &&& r is Ok ==> {
                &&& m.balance.lunas == l.balance.lunas - total
                &&& m.by_address.contains_key(staker) <==> old.balance.lunas > total
                &&& m.by_address.contains_key(staker) ==> {
                    &&& new.balance.lunas == old.balance.lunas - total
                    &&& new.validator_key == old.validator_key
                    &&& new.reward_address == old.reward_address
                }
                &&& r->Ok_0 is Some <==> old.balance.lunas == total
                &&& r->Ok_0 is Some ==> r->Ok_0->0 == old.validator_key@ + (
                match old.reward_address {
                    Some(x) => seq![1u8] + x.bytes@,
                    None => seq![0u8],
                })
            }
        }),
{
    if outgoing_answer(l, tx, block_height, policy, signed_by) is Ok {
        law_retire_sender_in_numbers(l, signed_by->Ok_0, total_of(tx)->Ok_0);
    }
}

/// An unstake transaction goes through exactly if it is signed, the signer has inactive
/// stake, the height is at or past the macro block `m` after the retirement and the
/// whole delay, and the stake, as well as the contract, covers value and fee together.
/// Both shrink by that.
pub proof fn law_unstake_transaction(
    l: Ledger,
    tx: Transaction,
    block_height: u32,
    policy: Policy,
    signed_by: Result<Address, AccountError>,
    m: int,
    a: Address,
)
    requires
        tx.sender != tx.recipient,
        policy.epoch_length > 0,
        signed_by is Ok && l.inactive.contains_key(signed_by->Ok_0) ==> {
            &&& m % policy.epoch_length as int == 0
            &&& l.inactive[signed_by->Ok_0].retire_time < m
            &&& m <= l.inactive[signed_by->Ok_0].retire_time + policy.epoch_length
        },
    ensures
        ({
            let (n, r) = commit_outgoing_step(l, tx, block_height, policy, signed_by);
            let answer = outgoing_answer(l, tx, block_height, policy, signed_by);
            let staker = signed_by->Ok_0;
            let had = l.inactive.contains_key(staker);
            let old = l.inactive[staker];
            let new = n.inactive[staker];
            let total = tx.value.lunas + tx.fee.lunas;
            let unlocked = block_height >= m + policy.unstake_delay;
            &&& answer is Ok <==> signed_by is Ok && had && unlocked && total <= 9007199254740991
                && total <= old.balance.lunas
            &&& answer is Err ==> answer->Err_0 == if signed_by is Err {
                signed_by->Err_0
            } else if !had || !unlocked {
                AccountError::InvalidForSender
            } else if total > 9007199254740991 {
                AccountError::InvalidTransaction(TransactionError::Overflow)
            } else {
                AccountError::InsufficientFunds {
                    needed: Coin { lunas: total as u64 },
                    balance: old.balance,
                }
            }
            &&& answer is Err ==> n == l && r is Err && r->Err_0 == answer->Err_0
            &&& r is Ok <==> answer is Ok && total <= l.balance.lunas
            &&& r is Err ==> n == l
            &&& answer is Ok && r is Err ==> r->Err_0 == (AccountError::InsufficientFunds {
                needed: Coin { lunas: total as u64 },
                balance: l.balance,
            })
            &&& n.sorted == l.sorted && n.by_address == l.by_address
            &&& a != staker ==> n.inactive.contains_key(a) == l.inactive.contains_key(a)
                && n.inactive[a] == l.inactive[a]
            &&& r is Ok ==> {
                &&& n.balance.lunas == l.balance.lunas - total
                &&& n.inactive.contains_key(staker) <==> old.balance.lunas > total
                &&& n.inactive.contains_key(staker) ==> new.balance.lunas == old.balance.lunas
                    - total && new.retire_time == old.retire_time
                &&& r->Ok_0 is Some <==> old.balance.lunas == total
                &&& r->Ok_0 is Some ==> r->Ok_0->0 == be_bytes(
                    old.retire_time as nat,
                    4,
                )
            }
        }),
{
    if signed_by is Ok && l.inactive.contains_key(signed_by->Ok_0) {
        law_unlock_height(policy, l.inactive[signed_by->Ok_0].retire_time, m);
    }
    if outgoing_answer(l, tx, block_height, policy, signed_by) is Ok {
        law_unstake_in_numbers(l, signed_by->Ok_0, total_of(tx)->Ok_0, a);
    }
}

/// Undoing a received transaction undoes a stake of its value by its sender, or, where
/// the contract sent it to itself, the receiving side of a retirement of its value by
/// whoever signed, with the receipt as it is read. What cannot be read changes nothing.
pub proof fn law_incoming_undone(
    l: Ledger,
    tx: Transaction,
    receipt: Option<Seq<u8>>,
    signed_by: Result<Address, AccountError>,
)
    ensures
        ({
            let (m, r) = revert_incoming_step(l, tx, receipt, signed_by);
            let active = active_receipt(receipt);
            let inactive = inactive_receipt(receipt);
            &&& tx.sender != tx.recipient && active is Err ==> m == l && r is Err && r->Err_0
                == active->Err_0
            &&& tx.sender != tx.recipient && active is Ok ==> (m, r) == revert_stake_step(
                l,
                tx.sender,
                tx.value,
                active->Ok_0,
            )
            &&& tx.sender == tx.recipient && signed_by is Err ==> m == l && r is Err && r->Err_0
                == signed_by->Err_0
            &&& tx.sender == tx.recipient && signed_by is Ok && inactive is Err ==> m == l && r
                is Err && r->Err_0 == inactive->Err_0
            &&& tx.sender == tx.recipient && signed_by is Ok && inactive is Ok ==> (m, r)
                == revert_retire_recipient_step(l, signed_by->Ok_0, tx.value, inactive->Ok_0)
        }),
{
}

/// A received transaction cannot be undone only where it was a stake, its receipt can be
/// read, the contract has its value, and its sender has a stake of less than that.
pub proof fn law_incoming_cannot_be_undone(l: Ledger, tx: Transaction, receipt: Option<Seq<u8>>)
    ensures
        !revert_incoming_allowed(l, tx, receipt) <==> {
            &&& tx.sender != tx.recipient
            &&& active_receipt(receipt) is Ok
            &&& l.balance.lunas >= tx.value.lunas
            &&& l.by_address.contains_key(tx.sender)
            &&& l.by_address[tx.sender].balance.lunas < tx.value.lunas
        },
{
}

/// Undoing a sent transaction undoes an unstaking by whoever signed, or, where the
/// contract sent it to itself, the paying side of a retirement, of its value and fee
/// together, with the receipt as it is read. What cannot be read, or is no money,
/// changes nothing.
pub proof fn law_outgoing_undone(
    l: Ledger,
    tx: Transaction,
    receipt: Option<Seq<u8>>,
    signed_by: Result<Address, AccountError>,
)
    ensures
        ({
            let (m, r) = revert_outgoing_step(l, tx, receipt, signed_by);
            let retires = tx.sender == tx.recipient;
            let active = active_receipt(receipt);
            let inactive = inactive_receipt(receipt);
            let total = tx.value.lunas + tx.fee.lunas;
            let sum = Coin { lunas: total as u64 };
            let unread = if retires {
                active is Err
            } else {
                inactive is Err
            };
            &&& signed_by is Err ==> m == l && r is Err && r->Err_0 == signed_by->Err_0
            &&& signed_by is Ok && unread ==> m == l && r is Err && r->Err_0 == if retires {
                active->Err_0
            } else {
                inactive->Err_0
            }
            &&& signed_by is Ok && !unread && total > 9007199254740991 ==> m == l && r is Err
                && r->Err_0 == AccountError::InvalidTransaction(TransactionError::Overflow)
            &&& signed_by is Ok && !unread && total <= 9007199254740991 && retires ==> (m, r)
                == revert_retire_sender_step(l, signed_by->Ok_0, sum, active->Ok_0)
            &&& signed_by is Ok && !unread && total <= 9007199254740991 && !retires ==> (m, r)
                == revert_unstake_step(l, signed_by->Ok_0, sum, inactive->Ok_0)
        }),
{
}

} // verus!
