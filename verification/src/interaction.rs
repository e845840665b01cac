//! How the contract takes part in transactions and inherents.
//!
//! A transaction between the contract and another account stakes or unstakes; a
//! transaction of the contract to itself retires, and then the contract is on
//! both sides of it. Committing returns the bytes of a receipt; reverting takes
//! them back.

use crate::address::Address;
use crate::bls::is_g2_point;
use crate::coin::{balance_sufficient, sufficient, Coin};
use crate::error::AccountError;
use crate::ledger::{
    retire_recipient_step, retire_sender_step, revert_retire_recipient_step,
    revert_retire_sender_step, revert_stake_allowed, revert_stake_step, revert_unstake_step,
    stake_step, unstake_step, Ledger,
};
use crate::policy::{unlock_height, Policy};
use crate::stake::{
    active_receipt_bytes, inactive_receipt_bytes, parse_active_receipt, parse_inactive_receipt,
    ActiveStakeReceipt, InactiveStakeReceipt,
};
use crate::staking_contract::StakingContract;
use crate::transaction::{signer, total_of, Transaction};
use vstd::prelude::*;

verus! {

/// The bytes of a receipt that may be missing.
pub type ReceiptBytes = Option<Seq<u8>>;

/// What a commit returns, with the receipt as a byte sequence.
pub open spec fn committed_view(r: Result<Option<Vec<u8>>, AccountError>) -> Result<
    ReceiptBytes,
    AccountError,
> {
    match r {
        Ok(Some(v)) => Ok(Some(v@)),
        Ok(None) => Ok(None),
        Err(e) => Err(e),
    }
}

/// A receipt as it is handed back, as a byte sequence.
pub open spec fn receipt_view(r: Option<&Vec<u8>>) -> ReceiptBytes {
    match r {
        Some(v) => Some(v@),
        None => None,
    }
}

/// The outcome of a step on active stake, its receipt written out.
pub open spec fn active_outcome(
    o: (Ledger, Result<Option<ActiveStakeReceipt>, AccountError>),
) -> (Ledger, Result<ReceiptBytes, AccountError>) {
    (
        o.0,
        match o.1 {
            Ok(Some(r)) => Ok(Some(active_receipt_bytes(r))),
            Ok(None) => Ok(None),
            Err(e) => Err(e),
        },
    )
}

/// The outcome of a step on inactive stake, its receipt written out.
pub open spec fn inactive_outcome(
    o: (Ledger, Result<Option<InactiveStakeReceipt>, AccountError>),
) -> (Ledger, Result<ReceiptBytes, AccountError>) {
    (
        o.0,
        match o.1 {
            Ok(Some(r)) => Ok(Some(inactive_receipt_bytes(r))),
            Ok(None) => Ok(None),
            Err(e) => Err(e),
        },
    )
}

/// A receipt for active stake, read from its bytes.
pub open spec fn active_receipt(r: ReceiptBytes) -> Result<
    Option<ActiveStakeReceipt>,
    AccountError,
> {
    match r {
        None => Ok(None),
        Some(b) => match parse_active_receipt(b) {
            Ok((receipt, _)) => Ok(Some(receipt)),
            Err(e) => Err(AccountError::InvalidSerialization(e)),
        },
    }
}

/// A receipt for inactive stake, read from its bytes.
pub open spec fn inactive_receipt(r: ReceiptBytes) -> Result<
    Option<InactiveStakeReceipt>,
    AccountError,
> {
    match r {
        None => Ok(None),
        Some(b) => match parse_inactive_receipt(b) {
            Ok((receipt, _)) => Ok(Some(receipt)),
            Err(e) => Err(AccountError::InvalidSerialization(e)),
        },
    }
}

/// Receiving a transaction: a stake, or the receiving side of a retirement.
pub open spec fn commit_incoming_step(
    l: Ledger,
    tx: Transaction,
    block_height: u32,
    signed_by: Result<Address, AccountError>,
) -> (Ledger, Result<ReceiptBytes, AccountError>) {
    if tx.sender != tx.recipient {
        match tx.data {
            Err(e) => (l, Err(AccountError::InvalidTransaction(e))),
            Ok(data) => active_outcome(
                stake_step(l, tx.sender, tx.value, data.validator_key, data.reward_address),
            ),
        }
    } else {
        match signed_by {
            Err(e) => (l, Err(e)),
            Ok(staker) => inactive_outcome(
                retire_recipient_step(l, staker, tx.value, block_height),
            ),
        }
    }
}

/// Undoing a received transaction can only take out what is there.
pub open spec fn revert_incoming_allowed(l: Ledger, tx: Transaction, receipt: ReceiptBytes) -> bool {
    tx.sender != tx.recipient && active_receipt(receipt) is Ok ==> revert_stake_allowed(
        l,
        tx.sender,
        tx.value,
    )
}

/// Undoing a received transaction.
pub open spec fn revert_incoming_step(
    l: Ledger,
    tx: Transaction,
    receipt: ReceiptBytes,
    signed_by: Result<Address, AccountError>,
) -> (Ledger, Result<(), AccountError>) {
    if tx.sender != tx.recipient {
        match active_receipt(receipt) {
            Err(e) => (l, Err(e)),
            Ok(r) => revert_stake_step(l, tx.sender, tx.value, r),
        }
    } else {
        match signed_by {
            Err(e) => (l, Err(e)),
            Ok(staker) => match inactive_receipt(receipt) {
                Err(e) => (l, Err(e)),
                Ok(r) => revert_retire_recipient_step(l, staker, tx.value, r),
            },
        }
    }
}

/// Whether a total is covered by a balance.
pub open spec fn covered(balance: Coin, tx: Transaction) -> Result<(), AccountError> {
    match total_of(tx) {
        Err(e) => Err(AccountError::InvalidTransaction(e)),
        Ok(total) => sufficient(balance, total),
    }
}

/// What the contract answers to a transaction that it is to send: unstaking
/// needs inactive stake that is no longer locked, retiring needs active stake,
/// and either needs enough of it.
pub open spec fn outgoing_answer(
    l: Ledger,
    tx: Transaction,
    block_height: u32,
    policy: Policy,
    signed_by: Result<Address, AccountError>,
) -> Result<(), AccountError> {
    match signed_by {
        Err(e) => Err(e),
        Ok(staker) => if tx.sender != tx.recipient {
            match l.inactive.get(staker) {
                None => Err(AccountError::InvalidForSender),
                Some(stake) => if block_height < unlock_height(policy, stake.retire_time) {
                    Err(AccountError::InvalidForSender)
                } else {
                    covered(stake.balance, tx)
                },
            }
        } else {
            match l.by_address.get(staker) {
                None => Err(AccountError::InvalidForSender),
                Some(stake) => covered(stake.balance, tx),
            }
        },
    }
}

/// Sending a transaction: an unstaking, or the paying side of a retirement.
pub open spec fn commit_outgoing_step(
    l: Ledger,
    tx: Transaction,
    block_height: u32,
    policy: Policy,
    signed_by: Result<Address, AccountError>,
) -> (Ledger, Result<ReceiptBytes, AccountError>) {
    match outgoing_answer(l, tx, block_height, policy, signed_by) {
        Err(e) => (l, Err(e)),
        Ok(()) => {
            let staker = signed_by->Ok_0;
            let total = total_of(tx)->Ok_0;
            if tx.sender != tx.recipient {
                inactive_outcome(unstake_step(l, staker, total))
            } else {
                active_outcome(retire_sender_step(l, staker, total))
            }
        },
    }
}

/// Undoing a sent transaction.
pub open spec fn revert_outgoing_step(
    l: Ledger,
    tx: Transaction,
    receipt: ReceiptBytes,
    signed_by: Result<Address, AccountError>,
) -> (Ledger, Result<(), AccountError>) {
    match signed_by {
        Err(e) => (l, Err(e)),
        Ok(staker) => if tx.sender != tx.recipient {
            match inactive_receipt(receipt) {
                Err(e) => (l, Err(e)),
                Ok(r) => match total_of(tx) {
                    Err(e) => (l, Err(AccountError::InvalidTransaction(e))),
                    Ok(total) => revert_unstake_step(l, staker, total, r),
                },
            }
        } else {
            match active_receipt(receipt) {
                Err(e) => (l, Err(e)),
                Ok(r) => match total_of(tx) {
                    Err(e) => (l, Err(AccountError::InvalidTransaction(e))),
                    Ok(total) => revert_retire_sender_step(l, staker, total, r),
                },
            }
        },
    }
}

/// If there is a receipt for the active stake of `staker` in `l`, the key in it is
/// a point of the curve, so that the receipt can be read back.
pub open spec fn receipt_key_valid(l: Ledger, staker: Address, receipt: ReceiptBytes) -> bool {
    receipt is Some ==> is_g2_point(l.by_address[staker].validator_key@)
}

/// Reads a receipt for active stake that may be missing.
pub fn read_active_receipt(receipt: Option<&Vec<u8>>) -> (r: Result<
    Option<ActiveStakeReceipt>,
    AccountError,
>)
    ensures
        r == active_receipt(receipt_view(receipt)),
{
    match receipt {
        Some(v) => match ActiveStakeReceipt::deserialize(v.as_slice()) {
            Ok(receipt) => Ok(Some(receipt)),
            Err(e) => Err(AccountError::InvalidSerialization(e)),
        },
        None => Ok(None),
    }
}

/// Reads a receipt for inactive stake that may be missing.
pub fn read_inactive_receipt(receipt: Option<&Vec<u8>>) -> (r: Result<
    Option<InactiveStakeReceipt>,
    AccountError,
>)
    ensures
        r == inactive_receipt(receipt_view(receipt)),
{
    match receipt {
        Some(v) => match InactiveStakeReceipt::deserialize(v.as_slice()) {
            Ok(receipt) => Ok(Some(receipt)),
            Err(e) => Err(AccountError::InvalidSerialization(e)),
        },
        None => Ok(None),
    }
}

/// Writes out the receipt of a step on active stake.
fn write_active_receipt(r: Result<Option<ActiveStakeReceipt>, AccountError>) -> (out: Result<
    Option<Vec<u8>>,
    AccountError,
>)
    ensures
        forall|l: Ledger|
            #[trigger] active_outcome((l, r)) == (l, committed_view(out)),
        match r {
            Ok(Some(receipt)) => is_g2_point(receipt.validator_key@),
            _ => !(committed_view(out) matches Ok(Some(_))),
        },
{
    match r {
        Ok(Some(receipt)) => Ok(Some(receipt.serialize_to_vec())),
        Ok(None) => Ok(None),
        Err(e) => Err(e),
    }
}

/// Writes out the receipt of a step on inactive stake.
fn write_inactive_receipt(r: Result<Option<InactiveStakeReceipt>, AccountError>) -> (out: Result<
    Option<Vec<u8>>,
    AccountError,
>)
    ensures
        forall|l: Ledger|
            #[trigger] inactive_outcome((l, r)) == (l, committed_view(out)),
{
    match r {
        Ok(Some(receipt)) => Ok(Some(receipt.serialize_to_vec())),
        Ok(None) => Ok(None),
        Err(e) => Err(e),
    }
}

/// The kind of an account.
#[derive(Clone, Copy, Debug, PartialEq, Eq, Structural)]
pub enum AccountType {
    Basic,
    Vesting,
    HTLC,
    Staking,
}

/// The kind of an inherent.
#[derive(Clone, Copy, Debug, PartialEq, Eq, Structural)]
pub enum InherentType {
    Reward,
    Slash,
}

/// A change that a block brings without a transaction.
#[derive(Clone, Copy, Debug, PartialEq, Eq)]
pub struct Inherent {
    pub ty: InherentType,
    pub target: Address,
    pub value: Coin,
}

impl StakingContract {
    /// A staking contract cannot be created by a transaction.
    pub fn new_contract(
        _account_type: AccountType,
        _balance: Coin,
        _transaction: &Transaction,
        _block_height: u32,
    ) -> (r: Result<StakingContract, AccountError>)
        ensures
            r == Err::<StakingContract, AccountError>(AccountError::InvalidForRecipient),
    {
        Err(AccountError::InvalidForRecipient)
    }

    /// A staking contract cannot be created by a transaction.
    pub fn create(
        _balance: Coin,
        _transaction: &Transaction,
        _block_height: u32,
    ) -> (r: Result<StakingContract, AccountError>)
        ensures
            r == Err::<StakingContract, AccountError>(AccountError::InvalidForRecipient),
    {
        Err(AccountError::InvalidForRecipient)
    }

    /// Any transaction may be sent to the contract.
    pub fn check_incoming_transaction(
        &self,
        _transaction: &Transaction,
        _block_height: u32,
    ) -> (r: Result<(), AccountError>)
        ensures
            r == Ok::<(), AccountError>(()),
    {
        Ok(())
    }

    /// Receives a transaction.
    pub fn commit_incoming_transaction(
        &mut self,
        transaction: &Transaction,
        block_height: u32,
    ) -> (r: Result<Option<Vec<u8>>, AccountError>)
        ensures
            (final(self)@, committed_view(r)) == commit_incoming_step(
                old(self)@,
                *transaction,
                block_height,
                signer(*transaction),
            ),
            transaction.sender != transaction.recipient && r is Ok ==> receipt_key_valid(
                old(self)@,
                transaction.sender,
                committed_view(r)->Ok_0,
            ),
    {
        let signed_by = Self::get_signer(transaction);
        self.commit_incoming_signed(transaction, block_height, signed_by)
    }

    /// Receives a transaction whose signer is known.
    pub fn commit_incoming_signed(
        &mut self,
        transaction: &Transaction,
        block_height: u32,
        signed_by: Result<Address, AccountError>,
    ) -> (r: Result<Option<Vec<u8>>, AccountError>)
        ensures
            (final(self)@, committed_view(r)) == commit_incoming_step(
                old(self)@,
                *transaction,
                block_height,
                signed_by,
            ),
            transaction.sender != transaction.recipient && r is Ok ==> receipt_key_valid(
                old(self)@,
                transaction.sender,
                committed_view(r)->Ok_0,
            ),
    {
        if !transaction.sender.same(&transaction.recipient) {
            match transaction.data {
                Ok(data) => {
                    let receipt = self.stake(
                        &transaction.sender,
                        transaction.value,
                        data.validator_key,
                        data.reward_address,
                    );
                    write_active_receipt(receipt)
                },
                Err(e) => Err(AccountError::InvalidTransaction(e)),
            }
        } else {
            match signed_by {
                Ok(staker_address) => {
                    let receipt = self.retire_recipient(
                        &staker_address,
                        transaction.value,
                        block_height,
                    );
                    write_inactive_receipt(receipt)
                },
                Err(e) => Err(e),
            }
        }
    }

    /// Undoes a received transaction.
    pub fn revert_incoming_transaction(
        &mut self,
        transaction: &Transaction,
        _block_height: u32,
        receipt: Option<&Vec<u8>>,
    ) -> (r: Result<(), AccountError>)
        requires
            revert_incoming_allowed(old(self)@, *transaction, receipt_view(receipt)),
        ensures
            (final(self)@, r) == revert_incoming_step(
                old(self)@,
                *transaction,
                receipt_view(receipt),
                signer(*transaction),
            ),
    {
        let signed_by = Self::get_signer(transaction);
        self.revert_incoming_signed(transaction, receipt, signed_by)
    }

    /// Undoes a received transaction whose signer is known.
    pub fn revert_incoming_signed(
        &mut self,
        transaction: &Transaction,
        receipt: Option<&Vec<u8>>,
        signed_by: Result<Address, AccountError>,
    ) -> (r: Result<(), AccountError>)
        requires
            revert_incoming_allowed(old(self)@, *transaction, receipt_view(receipt)),
        ensures
            (final(self)@, r) == revert_incoming_step(
                old(self)@,
                *transaction,
                receipt_view(receipt),
                signed_by,
            ),
    {
        if !transaction.sender.same(&transaction.recipient) {
            match read_active_receipt(receipt) {
                Ok(receipt) => self.revert_stake(&transaction.sender, transaction.value, receipt),
                Err(e) => Err(e),
            }
        } else {
            match signed_by {
                Ok(staker_address) => match read_inactive_receipt(receipt) {
                    Ok(receipt) => self.revert_retire_recipient(
                        &staker_address,
                        transaction.value,
                        receipt,
                    ),
                    Err(e) => Err(e),
                },
                Err(e) => Err(e),
            }
        }
    }

    /// Undoes a received transaction, if the stake that it added is there.
    pub fn try_revert_incoming_transaction(
        &mut self,
        transaction: &Transaction,
        block_height: u32,
        receipt: Option<&Vec<u8>>,
    ) -> (r: Option<Result<(), AccountError>>)
        ensures
            r is Some <==> revert_incoming_allowed(
                old(self)@,
                *transaction,
                receipt_view(receipt),
            ),
            match r {
                Some(r) => (final(self)@, r) == revert_incoming_step(
                    old(self)@,
                    *transaction,
                    receipt_view(receipt),
                    signer(*transaction),
                ),
                None => final(self)@ == old(self)@,
            },
    {
        if !transaction.sender.same(&transaction.recipient) {
            match read_active_receipt(receipt) {
                Ok(_) => {
                    if self.balance.lunas >= transaction.value.lunas {
                        match self.active_stake_by_address.get(&transaction.sender) {
                            Some(stake) => {
                                if stake.balance.lunas < transaction.value.lunas {
                                    return None;
                                }
                            },
                            None => {},
                        }
                    }
                },
                Err(_) => {},
            }
        }
        Some(self.revert_incoming_transaction(transaction, block_height, receipt))
    }

    /// Whether the contract may send a transaction.
    pub fn check_outgoing_transaction(
        &self,
        transaction: &Transaction,
        block_height: u32,
        policy: &Policy,
    ) -> (r: Result<(), AccountError>)
        requires
            policy.epoch_length > 0,
        ensures
            r == outgoing_answer(
                self@,
                *transaction,
                block_height,
                *policy,
                signer(*transaction),
            ),
    {
        let signed_by = Self::get_signer(transaction);
        self.check_outgoing_signed(transaction, block_height, policy, signed_by)
    }

    /// Whether the contract may send a transaction whose signer is known.
    pub fn check_outgoing_signed(
        &self,
        transaction: &Transaction,
        block_height: u32,
        policy: &Policy,
        signed_by: Result<Address, AccountError>,
    ) -> (r: Result<(), AccountError>)
        requires
            policy.epoch_length > 0,
        ensures
            r == outgoing_answer(self@, *transaction, block_height, *policy, signed_by),
    {
        let staker_address = match signed_by {
            Ok(staker_address) => staker_address,
            Err(e) => {
                return Err(e);
            },
        };
        let balance = if !transaction.sender.same(&transaction.recipient) {
            let inactive_stake = match self.inactive_stake_by_address.get(&staker_address) {
                Some(inactive_stake) => inactive_stake,
                None => {
                    return Err(AccountError::InvalidForSender);
                },
            };
            if (block_height as u64) < policy.next_macro_block(inactive_stake.retire_time) + (
            policy.unstake_delay as u64) {
                return Err(AccountError::InvalidForSender);
            }
            inactive_stake.balance
        } else {
            match self.active_stake_by_address.get(&staker_address) {
                Some(active_stake) => active_stake.balance,
                None => {
                    return Err(AccountError::InvalidForSender);
                },
            }
        };
        match transaction.total_value() {
            Ok(total) => balance_sufficient(balance, total),
            Err(e) => Err(AccountError::InvalidTransaction(e)),
        }
    }

    /// Sends a transaction.
    pub fn commit_outgoing_transaction(
        &mut self,
        transaction: &Transaction,
        block_height: u32,
        policy: &Policy,
    ) -> (r: Result<Option<Vec<u8>>, AccountError>)
        requires
            policy.epoch_length > 0,
        ensures
            (final(self)@, committed_view(r)) == commit_outgoing_step(
                old(self)@,
                *transaction,
                block_height,
                *policy,
                signer(*transaction),
            ),
            transaction.sender == transaction.recipient && r is Ok ==> receipt_key_valid(
                old(self)@,
                signer(*transaction)->Ok_0,
                committed_view(r)->Ok_0,
            ),
    {
        let signed_by = Self::get_signer(transaction);
        self.commit_outgoing_signed(transaction, block_height, policy, signed_by)
    }

    /// Sends a transaction whose signer is known.
    pub fn commit_outgoing_signed(
        &mut self,
        transaction: &Transaction,
        block_height: u32,
        policy: &Policy,
        signed_by: Result<Address, AccountError>,
    ) -> (r: Result<Option<Vec<u8>>, AccountError>)
        requires
            policy.epoch_length > 0,
        ensures
            (final(self)@, committed_view(r)) == commit_outgoing_step(
                old(self)@,
                *transaction,
                block_height,
                *policy,
                signed_by,
            ),
            transaction.sender == transaction.recipient && r is Ok ==> receipt_key_valid(
                old(self)@,
                signed_by->Ok_0,
                committed_view(r)->Ok_0,
            ),
    {
        match self.check_outgoing_signed(transaction, block_height, policy, signed_by) {
            Ok(()) => {},
            Err(e) => {
                return Err(e);
            },
        }
        let staker_address = match signed_by {
            Ok(staker_address) => staker_address,
            Err(e) => {
                return Err(e);
            },
        };
        let total_value = match transaction.total_value() {
            Ok(total_value) => total_value,
            Err(e) => {
                return Err(AccountError::InvalidTransaction(e));
            },
        };
        if !transaction.sender.same(&transaction.recipient) {
            let receipt = self.unstake(&staker_address, total_value);
            write_inactive_receipt(receipt)
        } else {
            let receipt = self.retire_sender(&staker_address, total_value, block_height);
            write_active_receipt(receipt)
        }
    }

    /// Undoes a sent transaction.
    pub fn revert_outgoing_transaction(
        &mut self,
        transaction: &Transaction,
        _block_height: u32,
        receipt: Option<&Vec<u8>>,
    ) -> (r: Result<(), AccountError>)
        ensures
            (final(self)@, r) == revert_outgoing_step(
                old(self)@,
                *transaction,
                receipt_view(receipt),
                signer(*transaction),
            ),
    {
        let signed_by = Self::get_signer(transaction);
        self.revert_outgoing_signed(transaction, receipt, signed_by)
    }

    /// Undoes a sent transaction whose signer is known.
    pub fn revert_outgoing_signed(
        &mut self,
        transaction: &Transaction,
        receipt: Option<&Vec<u8>>,
        signed_by: Result<Address, AccountError>,
    ) -> (r: Result<(), AccountError>)
        ensures
            (final(self)@, r) == revert_outgoing_step(
                old(self)@,
                *transaction,
                receipt_view(receipt),
                signed_by,
            ),
    {
        let staker_address = match signed_by {
            Ok(staker_address) => staker_address,
            Err(e) => {
                return Err(e);
            },
        };
        if !transaction.sender.same(&transaction.recipient) {
            let receipt = match read_inactive_receipt(receipt) {
                Ok(receipt) => receipt,
                Err(e) => {
                    return Err(e);
                },
            };
            match transaction.total_value() {
                Ok(total_value) => self.revert_unstake(&staker_address, total_value, receipt),
                Err(e) => Err(AccountError::InvalidTransaction(e)),
            }
        } else {
            let receipt = match read_active_receipt(receipt) {
                Ok(receipt) => receipt,
                Err(e) => {
                    return Err(e);
                },
            };
            match transaction.total_value() {
                Ok(total_value) => self.revert_retire_sender(
                    &staker_address,
                    total_value,
                    receipt,
                ),
                Err(e) => Err(AccountError::InvalidTransaction(e)),
            }
        }
    }

    /// The contract takes no rewards.
    pub fn check_inherent(&self, inherent: &Inherent) -> (r: Result<(), AccountError>)
        requires
            inherent.ty == InherentType::Reward,
        ensures
            r == Err::<(), AccountError>(AccountError::InvalidInherent),
    {
        Err(AccountError::InvalidInherent)
    }
}

} // verus!
