//! What the contract reads of a transaction.

use crate::address::Address;
use crate::bls::BlsPublicKey;
use crate::codec::{address_of, lemma_address_of};
use crate::coin::{Coin, MAX_SAFE_VALUE};
use crate::error::{AccountError, SerializingError, TransactionError};
use crate::staking_contract::StakingContract;
use nimiq_serde::Deserialize;
use vstd::prelude::*;

verus! {

/// What the sender of a stake asks for.
#[derive(Clone, Copy, Debug, PartialEq, Eq)]
pub struct StakingTransactionData {
    pub validator_key: BlsPublicKey,
    pub reward_address: Option<Address>,
}

/// A transaction that involves the contract.
#[derive(Debug)]
pub struct Transaction {
    pub sender: Address,
    pub recipient: Address,
    pub value: Coin,
    pub fee: Coin,
    /// The data field, read as a staking request.
    pub data: Result<StakingTransactionData, TransactionError>,
    /// The signature proof, as it was sent.
    pub proof: Vec<u8>,
}

/// What `Transaction::total_value` returns.
pub open spec fn total_of(tx: Transaction) -> Result<Coin, TransactionError> {
    if tx.value.lunas + tx.fee.lunas <= MAX_SAFE_VALUE {
        Ok(Coin { lunas: (tx.value.lunas + tx.fee.lunas) as u64 })
    } else {
        Err(TransactionError::Overflow)
    }
}

impl Transaction {
    /// Value and fee together.
    pub fn total_value(&self) -> (r: Result<Coin, TransactionError>)
        ensures
            r == total_of(*self),
    {
        match self.value.checked_add(self.fee) {
            Some(total) => Ok(total),
            None => Err(TransactionError::Overflow),
        }
    }
}

/// The address of the account that a signature proof signs for: the first 20
/// bytes of the hash-tree root that its key and its path lead to. Where the bytes
/// are not a signature proof, whether they end before the proof does.
pub uninterp spec fn proof_signer(proof: Seq<u8>) -> Result<Seq<u8>, bool>;

/// Calls `nimiq_transaction::PoWSignatureProof::deserialize_from_vec`, then
/// `into_pos` and `nimiq_transaction::SignatureProof::compute_signer`: the bytes of
/// the address that the proof at the front of `proof` signs for. Where the bytes
/// cannot be read as a proof, tells whether the error is
/// `nimiq_serde::DeserializeError::unexpected_end`. The outcome depends on the bytes
/// alone; which address or which error comes out is not spelled out.
#[verifier::external_body]
fn signer_of_proof(proof: &[u8]) -> (a: Result<[u8; 20], bool>)
    ensures
        match a {
            Ok(a) => proof_signer(proof@) == Ok::<Seq<u8>, bool>(a@),
            Err(ended) => proof_signer(proof@) == Err::<Seq<u8>, bool>(ended),
        },
{
    match nimiq_transaction::PoWSignatureProof::deserialize_from_vec(proof) {
        Ok(p) => Ok(p.into_pos().compute_signer().0),
        Err(e) => Err(e == nimiq_serde::DeserializeError::unexpected_end()),
    }
}

/// Why a proof could not be read: it ends early, or it is not a proof.
pub open spec fn proof_error(ended: bool) -> AccountError {
    AccountError::InvalidSerialization(
        if ended {
            SerializingError::UnexpectedEnd
        } else {
            SerializingError::InvalidEncoding
        },
    )
}

/// Who signed a transaction.
pub open spec fn signer(tx: Transaction) -> Result<Address, AccountError> {
    signer_from(proof_signer(tx.proof@))
}

/// Who signed, by what was read of the proof.
pub open spec fn signer_from(read: Result<Seq<u8>, bool>) -> Result<Address, AccountError> {
    match read {
        Ok(a) => Ok(address_of(a)),
        Err(ended) => Err(proof_error(ended)),
    }
}

/// Who signed, by what was read of the proof.
pub fn signer_answer(read: Result<[u8; 20], bool>) -> (r: Result<Address, AccountError>)
    ensures
        r == match read {
            Ok(bytes) => Ok(Address { bytes }),
            Err(ended) => Err(proof_error(ended)),
        },
{
    match read {
        Ok(bytes) => Ok(Address { bytes }),
        Err(true) => Err(AccountError::InvalidSerialization(SerializingError::UnexpectedEnd)),
        Err(false) => Err(AccountError::InvalidSerialization(SerializingError::InvalidEncoding)),
    }
}

impl StakingContract {
    /// Reads from the proof who signed the transaction.
    pub fn get_signer(transaction: &Transaction) -> (r: Result<Address, AccountError>)
        ensures
            r == signer(*transaction),
    {
        let read = signer_of_proof(transaction.proof.as_slice());
        proof {
            if read is Ok {
                lemma_address_of(Address { bytes: read->Ok_0 });
            }
        }
        signer_answer(read)
    }
}

} // verus!
