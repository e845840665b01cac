use bls12_381::{G2Affine, G2Projective, Scalar};
use nimiq_staking::address::Address;
use nimiq_staking::bls::BlsPublicKey;
use nimiq_staking::coin::{Coin, MAX_SAFE_VALUE};
use nimiq_staking::error::{AccountError, SerializingError, TransactionError};
use nimiq_staking::interaction::{AccountType, Inherent, InherentType};
use nimiq_staking::policy::Policy;
use nimiq_staking::staking_contract::StakingContract;
use nimiq_staking::transaction::{signer_answer, StakingTransactionData, Transaction};

// A signature proof of one key, and one of several keys with a path of two nodes.
const PROOF: &str = "08600ec9f0d44dc8d43275c705d7780caa31497d2620da4d7838d10574a6dfa100410b82decb73b7c6f4047b4fb504000c364edd9a3337e5194b60f896d31904ccab8bf310cf808fd98a9b3b13096b6701d53bbba8402465d08cb99948c8407500";
const MULTISIG_PROOF: &str = "c79090f344bf7ed4cdd6c25512ee61d1d5fe9cff643263342996ba3448df189f0280de8d7ee7e54f301095294d494024430c8b251b4ebf9b1384922dc7f9dd24422f830e231d26cdc3bbd1f55f1918757568522acae62c21e8046190ea84d6e8ff160caadca71723067d5080d6c3858b61ef8cdf286326818e90ddbefe23af2d529cef7654be5b99bb418786d49e164b24f9db1c482545d8e4473804a53b889e4b07";
const SIGNER: &str = "eb933bf41fdcc9bc2ebf439305a0b2c64d5aea34";
const MULTISIG_SIGNER: &str = "ec47a63df65cbaea2e153fe4a22d054293d65b7c";

const POLICY: Policy = Policy {
    epoch_length: 10,
    unstake_delay: 5,
    two_third_validators: 2,
};

fn coin(lunas: u64) -> Coin {
    Coin { lunas }
}

fn address(n: u8) -> Address {
    Address { bytes: [n; 20] }
}

fn address_from(hex_str: &str) -> Address {
    let mut bytes = [0u8; 20];
    bytes.copy_from_slice(&hex::decode(hex_str).unwrap());
    Address { bytes }
}

fn key(n: u64) -> BlsPublicKey {
    let point = G2Affine::from(G2Projective::generator() * Scalar::from(n));
    BlsPublicKey::from_bytes(point.to_compressed()).unwrap()
}

const CONTRACT: u8 = 200;

fn stake_tx(sender: Address, value: u64, k: u64) -> Transaction {
    Transaction {
        sender,
        recipient: address(CONTRACT),
        value: coin(value),
        fee: coin(1),
        data: Ok(StakingTransactionData {
            validator_key: key(k),
            reward_address: Some(address(9)),
        }),
        proof: Vec::new(),
    }
}

fn retire_tx(value: u64, fee: u64) -> Transaction {
    Transaction {
        sender: address(CONTRACT),
        recipient: address(CONTRACT),
        value: coin(value),
        fee: coin(fee),
        data: Err(TransactionError::InvalidData),
        proof: hex::decode(PROOF).unwrap(),
    }
}

fn unstake_tx(value: u64, fee: u64) -> Transaction {
    Transaction {
        sender: address(CONTRACT),
        recipient: address(50),
        value: coin(value),
        fee: coin(fee),
        data: Err(TransactionError::InvalidData),
        proof: hex::decode(PROOF).unwrap(),
    }
}

fn staked_contract(value: u64) -> StakingContract {
    let mut contract = StakingContract::default();
    contract
        .commit_incoming_transaction(&stake_tx(address_from(SIGNER), value, 4), 1)
        .unwrap();
    contract
}

fn retired_contract(height: u32) -> StakingContract {
    let mut contract = staked_contract(100);
    let tx = retire_tx(60, 2);
    contract
        .commit_outgoing_transaction(&tx, height, &POLICY)
        .unwrap();
    contract.commit_incoming_transaction(&tx, height).unwrap();
    contract
}

#[test]
fn signer_is_read_from_the_proof() {
    assert_eq!(
        StakingContract::get_signer(&retire_tx(1, 0)),
        Ok(address_from(SIGNER))
    );
    let mut tx = retire_tx(1, 0);
    tx.proof = hex::decode(MULTISIG_PROOF).unwrap();
    assert_eq!(
        StakingContract::get_signer(&tx),
        Ok(address_from(MULTISIG_SIGNER))
    );
}

#[test]
fn proof_that_cannot_be_read() {
    let mut tx = retire_tx(1, 0);
    tx.proof.truncate(40);
    let expected = AccountError::InvalidSerialization(SerializingError::UnexpectedEnd);
    assert_eq!(StakingContract::get_signer(&tx), Err(expected));

    let mut contract = staked_contract(100);
    let before = contract.serialize();
    assert_eq!(contract.commit_incoming_transaction(&tx, 3), Err(expected));
    assert_eq!(
        contract.commit_outgoing_transaction(&tx, 3, &POLICY),
        Err(expected)
    );
    assert_eq!(
        contract.check_outgoing_transaction(&tx, 3, &POLICY),
        Err(expected)
    );
    assert_eq!(
        contract.try_revert_incoming_transaction(&tx, 3, None),
        Some(Err(expected))
    );
    assert_eq!(
        contract.revert_outgoing_transaction(&tx, 3, None),
        Err(expected)
    );
    assert_eq!(contract.serialize(), before);
}

#[test]
fn every_proof_that_ends_early_is_told_apart() {
    let full = hex::decode(MULTISIG_PROOF).unwrap();
    for n in 0..full.len() {
        let mut tx = retire_tx(1, 0);
        tx.proof = full[..n].to_vec();
        assert_eq!(
            StakingContract::get_signer(&tx),
            Err(AccountError::InvalidSerialization(
                SerializingError::UnexpectedEnd
            ))
        );
    }
}

#[test]
fn answer_for_what_was_read_of_a_proof() {
    assert_eq!(signer_answer(Ok([4u8; 20])), Ok(address(4)));
    assert_eq!(
        signer_answer(Err(true)),
        Err(AccountError::InvalidSerialization(
            SerializingError::UnexpectedEnd
        ))
    );
    assert_eq!(
        signer_answer(Err(false)),
        Err(AccountError::InvalidSerialization(
            SerializingError::InvalidEncoding
        ))
    );
}

#[test]
fn stake_on_a_stake_of_zero_can_be_undone() {
    let mut contract = StakingContract::default();
    contract
        .commit_incoming_transaction(&stake_tx(address(1), 0, 1), 1)
        .unwrap();
    let before = contract.serialize().unwrap();
    let tx = stake_tx(address(1), 5, 2);
    let receipt = contract.commit_incoming_transaction(&tx, 2).unwrap();
    assert_eq!(
        contract.revert_incoming_transaction(&tx, 2, receipt.as_ref()),
        Ok(())
    );
    assert_eq!(contract.serialize().unwrap(), before);
}

#[test]
fn contract_cannot_be_created() {
    let tx = stake_tx(address(1), 10, 1);
    assert_eq!(
        StakingContract::new_contract(AccountType::Staking, coin(0), &tx, 1).err(),
        Some(AccountError::InvalidForRecipient)
    );
    assert_eq!(
        StakingContract::create(coin(0), &tx, 1).err(),
        Some(AccountError::InvalidForRecipient)
    );
}

#[test]
fn any_transaction_may_come_in() {
    let contract = StakingContract::default();
    let tx = stake_tx(address(1), 10, 1);
    assert_eq!(contract.check_incoming_transaction(&tx, 1), Ok(()));
}

#[test]
fn stake_transaction_and_revert() {
    let mut contract = StakingContract::default();
    let empty = contract.serialize();
    let tx = stake_tx(address(1), 10, 1);
    assert_eq!(contract.commit_incoming_transaction(&tx, 1), Ok(None));
    let stake = contract.active_stake_by_address.get(&address(1)).unwrap();
    assert_eq!(stake.balance, coin(10));
    assert_eq!(stake.validator_key, key(1));
    assert_eq!(stake.reward_address, Some(address(9)));

    let once = contract.serialize();
    let again = stake_tx(address(1), 5, 2);
    let receipt = contract.commit_incoming_transaction(&again, 2).unwrap();
    let bytes = receipt.clone().unwrap();
    assert_eq!(&bytes[..96], &key(1).as_bytes()[..]);
    assert_eq!(bytes[96], 1);
    assert_eq!(&bytes[97..], &[9u8; 20]);

    assert_eq!(
        contract.revert_incoming_transaction(&again, 2, receipt.as_ref()),
        Ok(())
    );
    assert_eq!(contract.serialize(), once);
    assert_eq!(contract.revert_incoming_transaction(&tx, 1, None), Ok(()));
    assert_eq!(contract.serialize(), empty);
}

#[test]
fn stake_transaction_with_bad_data() {
    let mut contract = StakingContract::default();
    let mut tx = stake_tx(address(1), 10, 1);
    tx.data = Err(TransactionError::InvalidData);
    assert_eq!(
        contract.commit_incoming_transaction(&tx, 1),
        Err(AccountError::InvalidTransaction(
            TransactionError::InvalidData
        ))
    );
    assert_eq!(contract.balance, coin(0));
}

#[test]
fn receipt_that_cannot_be_read() {
    let mut contract = staked_contract(100);
    let before = contract.serialize();
    let tx = stake_tx(address_from(SIGNER), 10, 1);
    let short = vec![1u8, 2, 3];
    let expected = AccountError::InvalidSerialization(SerializingError::UnexpectedEnd);
    assert_eq!(
        contract.revert_incoming_transaction(&tx, 1, Some(&short)),
        Err(expected)
    );
    assert_eq!(
        contract.try_revert_incoming_transaction(&retire_tx(1, 0), 1, Some(&short)),
        Some(Err(expected))
    );
    assert_eq!(
        contract.revert_outgoing_transaction(&retire_tx(1, 0), 1, Some(&short)),
        Err(expected)
    );
    assert_eq!(
        contract.revert_outgoing_transaction(&unstake_tx(1, 0), 1, Some(&short)),
        Err(expected)
    );
    assert_eq!(contract.serialize(), before);
}

#[test]
fn revert_of_more_than_is_staked_is_not_tried() {
    let mut contract = staked_contract(100);
    contract.stake(&address(2), coin(1000), key(2), None).unwrap();
    let before = contract.serialize();
    let tx = stake_tx(address_from(SIGNER), 101, 1);
    assert_eq!(contract.try_revert_incoming_transaction(&tx, 1, None), None);
    assert_eq!(contract.serialize(), before);
}

#[test]
fn retirement_moves_stake_and_can_be_undone() {
    let mut contract = staked_contract(100);
    let start = contract.serialize();
    let signer = address_from(SIGNER);
    let tx = retire_tx(60, 2);
    assert_eq!(contract.check_outgoing_transaction(&tx, 7, &POLICY), Ok(()));
    let sent = contract.commit_outgoing_transaction(&tx, 7, &POLICY).unwrap();
    assert_eq!(sent, None);
    let received = contract.commit_incoming_transaction(&tx, 7).unwrap();
    assert_eq!(received, None);
    assert_eq!(contract.balance, coin(98));
    let stake = contract.active_stake_by_address.get(&signer).unwrap();
    assert_eq!(stake.balance, coin(38));
    let inactive = contract.inactive_stake_by_address.get(&signer).unwrap();
    assert_eq!((inactive.balance, inactive.retire_time), (coin(60), 7));

    assert_eq!(
        contract.try_revert_incoming_transaction(&tx, 7, received.as_ref()),
        Some(Ok(()))
    );
    assert_eq!(
        contract.revert_outgoing_transaction(&tx, 7, sent.as_ref()),
        Ok(())
    );
    assert_eq!(contract.serialize(), start);
}

#[test]
fn retirement_of_everything_can_be_undone() {
    let mut contract = staked_contract(100);
    let start = contract.serialize();
    let tx = retire_tx(98, 2);
    let sent = contract.commit_outgoing_transaction(&tx, 7, &POLICY).unwrap();
    let bytes = sent.clone().unwrap();
    assert_eq!(bytes.len(), 117);
    assert_eq!(&bytes[..96], &key(4).as_bytes()[..]);
    let received = contract.commit_incoming_transaction(&tx, 7).unwrap();
    assert_eq!(contract.active_stake_by_address.len(), 0);
    assert_eq!(
        contract.try_revert_incoming_transaction(&tx, 7, received.as_ref()),
        Some(Ok(()))
    );
    assert_eq!(
        contract.revert_outgoing_transaction(&tx, 7, sent.as_ref()),
        Ok(())
    );
    assert_eq!(contract.serialize(), start);
}

#[test]
fn retirement_without_enough_stake() {
    let mut contract = staked_contract(100);
    let before = contract.serialize();
    assert_eq!(
        contract.commit_outgoing_transaction(&retire_tx(99, 2), 7, &POLICY),
        Err(AccountError::InsufficientFunds {
            needed: coin(101),
            balance: coin(100)
        })
    );
    assert_eq!(
        contract.commit_outgoing_transaction(&retire_tx(MAX_SAFE_VALUE, 2), 7, &POLICY),
        Err(AccountError::InvalidTransaction(TransactionError::Overflow))
    );
    assert_eq!(contract.serialize(), before);
    let mut empty = StakingContract::default();
    assert_eq!(
        empty.commit_outgoing_transaction(&retire_tx(1, 0), 7, &POLICY),
        Err(AccountError::InvalidForSender)
    );
}

#[test]
fn stake_is_locked_until_the_delay_is_over() {
    // Retired at 7: the next macro block is 10, and the delay ends at 15.
    let mut contract = retired_contract(7);
    let start = contract.serialize();
    let tx = unstake_tx(29, 1);
    for height in [7u32, 10, 14] {
        assert_eq!(
            contract.commit_outgoing_transaction(&tx, height, &POLICY),
            Err(AccountError::InvalidForSender)
        );
        assert_eq!(contract.serialize(), start);
    }
    assert_eq!(
        contract.commit_outgoing_transaction(&tx, 15, &POLICY),
        Ok(None)
    );
    let inactive = contract
        .inactive_stake_by_address
        .get(&address_from(SIGNER))
        .unwrap();
    assert_eq!((inactive.balance, inactive.retire_time), (coin(30), 7));
    assert_eq!(contract.balance, coin(68));
    assert_eq!(
        contract.revert_outgoing_transaction(&tx, 15, None),
        Ok(())
    );
    assert_eq!(contract.serialize(), start);
}

#[test]
fn unstaking_everything_can_be_undone() {
    let mut contract = retired_contract(7);
    let start = contract.serialize();
    let tx = unstake_tx(60, 0);
    let receipt = contract
        .commit_outgoing_transaction(&tx, 15, &POLICY)
        .unwrap();
    assert_eq!(receipt, Some(vec![0u8, 0, 0, 7]));
    assert_eq!(contract.inactive_stake_by_address.len(), 0);
    assert_eq!(
        contract.revert_outgoing_transaction(&tx, 15, receipt.as_ref()),
        Ok(())
    );
    assert_eq!(contract.serialize(), start);
}

#[test]
fn unstaking_more_than_there_is() {
    let mut contract = retired_contract(7);
    assert_eq!(
        contract.commit_outgoing_transaction(&unstake_tx(60, 1), 15, &POLICY),
        Err(AccountError::InsufficientFunds {
            needed: coin(61),
            balance: coin(60)
        })
    );
    let mut never_retired = staked_contract(100);
    assert_eq!(
        never_retired.commit_outgoing_transaction(&unstake_tx(1, 0), 1000, &POLICY),
        Err(AccountError::InvalidForSender)
    );
    assert_eq!(
        contract.revert_outgoing_transaction(&unstake_tx(MAX_SAFE_VALUE, 1), 15, None),
        Err(AccountError::InvalidTransaction(TransactionError::Overflow))
    );
    assert_eq!(
        contract.revert_outgoing_transaction(&retire_tx(MAX_SAFE_VALUE, 1), 15, None),
        Err(AccountError::InvalidTransaction(TransactionError::Overflow))
    );
}

#[test]
fn another_signer_has_nothing_to_retire() {
    let mut contract = staked_contract(100);
    let mut tx = retire_tx(10, 0);
    tx.proof = hex::decode(MULTISIG_PROOF).unwrap();
    assert_eq!(
        contract.commit_outgoing_transaction(&tx, 7, &POLICY),
        Err(AccountError::InvalidForSender)
    );
}

#[test]
fn known_signer_decides() {
    let mut contract = staked_contract(100);
    let mut tx = retire_tx(10, 1);
    tx.proof = Vec::new();
    let signer = Ok(address_from(SIGNER));
    assert_eq!(
        contract.check_outgoing_signed(&tx, 7, &POLICY, signer),
        Ok(())
    );
    let sent = contract.commit_outgoing_signed(&tx, 7, &POLICY, signer);
    assert_eq!(sent, Ok(None));
    let received = contract.commit_incoming_signed(&tx, 7, signer);
    assert_eq!(received, Ok(None));
    assert_eq!(contract.balance, coin(99));
    assert_eq!(contract.revert_incoming_signed(&tx, None, signer), Ok(()));
    assert_eq!(contract.revert_outgoing_signed(&tx, None, signer), Ok(()));
    assert_eq!(contract.balance, coin(100));
    let refused = Err(AccountError::InvalidReceipt);
    assert_eq!(
        contract.commit_incoming_signed(&tx, 7, refused),
        Err(AccountError::InvalidReceipt)
    );
}

#[test]
fn rewards_are_refused() {
    let contract = StakingContract::default();
    let inherent = Inherent {
        ty: InherentType::Reward,
        target: address(CONTRACT),
        value: coin(5),
    };
    assert_eq!(
        contract.check_inherent(&inherent),
        Err(AccountError::InvalidInherent)
    );
}

#[test]
fn macro_blocks_are_multiples_of_the_epoch() {
    assert_eq!(POLICY.next_macro_block(0), 10);
    assert_eq!(POLICY.next_macro_block(9), 10);
    assert_eq!(POLICY.next_macro_block(10), 20);
    assert_eq!(POLICY.next_macro_block(u32::MAX), 4_294_967_300);
}
