use bls12_381::{G2Affine, G2Projective, Scalar};
use nimiq_staking::address::Address;
use nimiq_staking::bls::BlsPublicKey;
use nimiq_staking::coin::{Coin, MAX_SAFE_VALUE};
use nimiq_staking::error::AccountError;
use nimiq_staking::stake::{ActiveStake, ActiveStakeReceipt, InactiveStakeReceipt};
use nimiq_staking::staking_contract::StakingContract;
use std::cmp::Ordering;

fn coin(lunas: u64) -> Coin {
    Coin { lunas }
}

fn address(n: u8) -> Address {
    Address { bytes: [n; 20] }
}

fn key(n: u64) -> BlsPublicKey {
    let point = G2Affine::from(G2Projective::generator() * Scalar::from(n));
    BlsPublicKey::from_bytes(point.to_compressed()).unwrap()
}

fn active(contract: &StakingContract, staker: u8) -> Option<u64> {
    contract
        .active_stake_by_address
        .get(&address(staker))
        .map(|s| s.balance.lunas)
}

fn inactive(contract: &StakingContract, staker: u8) -> Option<(u64, u32)> {
    contract
        .inactive_stake_by_address
        .get(&address(staker))
        .map(|s| (s.balance.lunas, s.retire_time))
}

fn ranks(contract: &StakingContract) -> Vec<(u64, u8)> {
    let mut out = Vec::new();
    for (_, stake) in contract.active_stake_sorted.entries().iter() {
        out.push((stake.balance.lunas, stake.staker_address.bytes[0]));
    }
    out
}

fn staked(stakes: &[(u8, u64)]) -> StakingContract {
    let mut contract = StakingContract::default();
    for (staker, value) in stakes.iter() {
        contract
            .stake(&address(*staker), coin(*value), key(*staker as u64), None)
            .unwrap();
    }
    contract
}

#[test]
fn default_contract_is_empty() {
    let contract = StakingContract::default();
    assert_eq!(contract.balance, coin(0));
    assert_eq!(contract.active_stake_sorted.len(), 0);
    assert_eq!(contract.active_stake_by_address.len(), 0);
    assert_eq!(contract.inactive_stake_by_address.len(), 0);
}

#[test]
fn first_stake_is_recorded() {
    let mut contract = StakingContract::default();
    let receipt = contract.stake(&address(1), coin(150), key(1), Some(address(9)));
    assert_eq!(receipt, Ok(None));
    assert_eq!(contract.balance, coin(150));
    let stake = contract.active_stake_by_address.get(&address(1)).unwrap();
    assert_eq!(stake.staker_address, address(1));
    assert_eq!(stake.balance, coin(150));
    assert_eq!(stake.validator_key, key(1));
    assert_eq!(stake.reward_address, Some(address(9)));
    assert_eq!(ranks(&contract), vec![(150, 1)]);
}

#[test]
fn second_stake_adds_up_and_takes_on_new_data() {
    let mut contract = staked(&[(1, 150)]);
    let receipt = contract.stake(&address(1), coin(50), key(7), Some(address(9)));
    assert_eq!(
        receipt,
        Ok(Some(ActiveStakeReceipt {
            validator_key: key(1),
            reward_address: None
        }))
    );
    assert_eq!(contract.balance, coin(200));
    let stake = contract.active_stake_by_address.get(&address(1)).unwrap();
    assert_eq!(stake.balance, coin(200));
    assert_eq!(stake.validator_key, key(7));
    assert_eq!(stake.reward_address, Some(address(9)));
    assert_eq!(ranks(&contract), vec![(200, 1)]);
}

#[test]
fn stakes_are_ranked_by_balance_and_address() {
    let contract = staked(&[(3, 50), (1, 50), (2, 90), (4, 10)]);
    assert_eq!(ranks(&contract), vec![(90, 2), (50, 1), (50, 3), (10, 4)]);
}

#[test]
fn stake_that_leaves_the_safe_range() {
    let mut contract = staked(&[(1, MAX_SAFE_VALUE)]);
    let before = contract.serialize();
    assert_eq!(
        contract.stake(&address(1), coin(1), key(1), None),
        Err(AccountError::InvalidCoinValue)
    );
    assert_eq!(contract.serialize(), before);
}

#[test]
fn stake_and_revert() {
    let mut contract = staked(&[(1, 150), (2, 20)]);
    let before = contract.serialize();
    let receipt = contract
        .stake(&address(1), coin(50), key(7), Some(address(9)))
        .unwrap();
    assert_eq!(
        contract.revert_stake(&address(1), coin(50), receipt),
        Ok(())
    );
    assert_eq!(contract.serialize(), before);

    let receipt = contract.stake(&address(3), coin(5), key(3), None).unwrap();
    assert_eq!(receipt, None);
    assert_eq!(contract.revert_stake(&address(3), coin(5), receipt), Ok(()));
    assert_eq!(contract.serialize(), before);
}

#[test]
fn stake_on_a_stake_of_zero_can_be_reverted() {
    let mut contract = StakingContract::default();
    assert_eq!(
        contract.stake(&address(1), coin(0), key(1), None),
        Ok(None)
    );
    let before = contract.serialize().unwrap();
    let receipt = contract
        .stake(&address(1), coin(5), key(2), Some(address(9)))
        .unwrap();
    assert!(receipt.is_some());
    assert_eq!(contract.revert_stake(&address(1), coin(5), receipt), Ok(()));
    assert_eq!(contract.balance, coin(0));
    let stake = contract.active_stake_by_address.get(&address(1)).unwrap();
    assert_eq!(stake.balance, coin(0));
    assert_eq!(stake.validator_key, key(1));
    assert_eq!(stake.reward_address, None);
    assert_eq!(ranks(&contract), vec![(0, 1)]);
    assert_eq!(contract.serialize().unwrap(), before);
    // The first stake, of zero, goes entirely.
    assert_eq!(contract.revert_stake(&address(1), coin(0), None), Ok(()));
    assert_eq!(active(&contract, 1), None);
}

#[test]
fn revert_stake_errors() {
    let mut contract = staked(&[(1, 150)]);
    assert_eq!(
        contract.revert_stake(&address(1), coin(151), None),
        Err(AccountError::InsufficientFunds {
            needed: coin(151),
            balance: coin(150)
        })
    );
    assert_eq!(
        contract.revert_stake(&address(2), coin(10), None),
        Err(AccountError::InvalidForRecipient)
    );
    // The balance has been taken out all the same.
    assert_eq!(contract.balance, coin(140));
    assert_eq!(
        contract.revert_stake(&address(1), coin(10), None),
        Err(AccountError::InvalidReceipt)
    );
}

#[test]
fn receipt_brings_back_a_stake_of_zero() {
    let mut contract = staked(&[(1, 150)]);
    let receipt = ActiveStakeReceipt {
        validator_key: key(3),
        reward_address: Some(address(9)),
    };
    assert_eq!(
        contract.revert_stake(&address(1), coin(150), Some(receipt)),
        Ok(())
    );
    let stake = contract.active_stake_by_address.get(&address(1)).unwrap();
    assert_eq!(stake.balance, coin(0));
    assert_eq!(stake.validator_key, key(3));
    assert_eq!(stake.reward_address, Some(address(9)));
}

#[test]
fn retire_part_and_revert() {
    let mut contract = staked(&[(1, 150)]);
    let start = contract.serialize();
    assert_eq!(contract.retire_sender(&address(1), coin(60), 1), Ok(None));
    assert_eq!(contract.balance, coin(90));
    assert_eq!(active(&contract, 1), Some(90));
    assert_eq!(ranks(&contract), vec![(90, 1)]);
    let middle = contract.serialize();
    assert_eq!(
        contract.retire_recipient(&address(1), coin(58), 17),
        Ok(None)
    );
    assert_eq!(contract.balance, coin(148));
    assert_eq!(inactive(&contract, 1), Some((58, 17)));

    assert_eq!(
        contract.revert_retire_recipient(&address(1), coin(58), None),
        Ok(())
    );
    assert_eq!(contract.serialize(), middle);
    assert_eq!(
        contract.revert_retire_sender(&address(1), coin(60), None),
        Ok(())
    );
    assert_eq!(contract.serialize(), start);
}

#[test]
fn retire_all_and_revert() {
    let mut contract = staked(&[(1, 150), (2, 3)]);
    let start = contract.serialize();
    let receipt = contract.retire_sender(&address(1), coin(150), 1).unwrap();
    assert_eq!(
        receipt,
        Some(ActiveStakeReceipt {
            validator_key: key(1),
            reward_address: None
        })
    );
    assert_eq!(active(&contract, 1), None);
    assert_eq!(ranks(&contract), vec![(3, 2)]);
    assert_eq!(
        contract.revert_retire_sender(&address(1), coin(150), receipt),
        Ok(())
    );
    assert_eq!(contract.serialize(), start);
}

#[test]
fn retiring_again_resets_the_retire_time() {
    let mut contract = staked(&[(1, 150)]);
    contract.retire_sender(&address(1), coin(60), 5).unwrap();
    contract.retire_recipient(&address(1), coin(60), 5).unwrap();
    contract.retire_sender(&address(1), coin(40), 8).unwrap();
    let middle = contract.serialize();
    let receipt = contract.retire_recipient(&address(1), coin(40), 8).unwrap();
    assert_eq!(receipt, Some(InactiveStakeReceipt { retire_time: 5 }));
    assert_eq!(inactive(&contract, 1), Some((100, 8)));
    assert_eq!(contract.balance, coin(150));
    assert_eq!(
        contract.revert_retire_recipient(&address(1), coin(40), receipt),
        Ok(())
    );
    assert_eq!(contract.serialize(), middle);
    assert_eq!(inactive(&contract, 1), Some((60, 5)));
}

#[test]
fn retiring_onto_an_entry_of_zero_can_be_reverted() {
    let mut contract = staked(&[(1, 150)]);
    contract.retire_recipient(&address(1), coin(0), 5).unwrap();
    let before = contract.serialize().unwrap();
    let receipt = contract.retire_recipient(&address(1), coin(10), 6).unwrap();
    assert_eq!(receipt, Some(InactiveStakeReceipt { retire_time: 5 }));
    assert_eq!(
        contract.revert_retire_recipient(&address(1), coin(10), receipt),
        Ok(())
    );
    assert_eq!(inactive(&contract, 1), Some((0, 5)));
    assert_eq!(contract.serialize().unwrap(), before);
}

#[test]
fn retire_sender_errors() {
    let mut contract = staked(&[(1, 150)]);
    assert_eq!(
        contract.retire_sender(&address(2), coin(10), 1),
        Err(AccountError::InvalidForSender)
    );
    assert_eq!(
        contract.retire_sender(&address(1), coin(1000), 1),
        Err(AccountError::InsufficientFunds {
            needed: coin(1000),
            balance: coin(140)
        })
    );
}

#[test]
fn revert_retire_sender_errors() {
    let mut contract = staked(&[(1, 150)]);
    let receipt = ActiveStakeReceipt {
        validator_key: key(1),
        reward_address: None,
    };
    assert_eq!(
        contract.revert_retire_sender(&address(2), coin(1), None),
        Err(AccountError::InvalidReceipt)
    );
    assert_eq!(
        contract.revert_retire_sender(&address(1), coin(1), Some(receipt)),
        Err(AccountError::InvalidReceipt)
    );
    // The stake is still ranked, but no longer found by address.
    assert_eq!(active(&contract, 1), None);
    assert_eq!(ranks(&contract), vec![(150, 1)]);
    assert_eq!(
        contract.revert_retire_sender(&address(1), coin(MAX_SAFE_VALUE), None),
        Err(AccountError::InvalidCoinValue)
    );
}

#[test]
fn revert_retire_recipient_errors() {
    let mut contract = staked(&[(1, 150)]);
    assert_eq!(
        contract.revert_retire_recipient(&address(1), coin(10), None),
        Err(AccountError::InvalidForRecipient)
    );
    contract.retire_recipient(&address(1), coin(30), 4).unwrap();
    assert_eq!(
        contract.revert_retire_recipient(&address(1), coin(10), None),
        Err(AccountError::InvalidReceipt)
    );
    // The entry is gone then.
    assert_eq!(inactive(&contract, 1), None);
    // A receipt for more than there is, is not taken.
    contract.retire_recipient(&address(1), coin(30), 4).unwrap();
    assert_eq!(
        contract.revert_retire_recipient(
            &address(1),
            coin(31),
            Some(InactiveStakeReceipt { retire_time: 1 })
        ),
        Err(AccountError::InvalidReceipt)
    );
}

#[test]
fn unstake_and_revert() {
    let mut contract = staked(&[(1, 150)]);
    contract.retire_sender(&address(1), coin(100), 5).unwrap();
    contract.retire_recipient(&address(1), coin(100), 5).unwrap();
    let start = contract.serialize();

    assert_eq!(contract.unstake(&address(1), coin(30)), Ok(None));
    assert_eq!(contract.balance, coin(120));
    assert_eq!(inactive(&contract, 1), Some((70, 5)));
    let receipt = contract.unstake(&address(1), coin(70)).unwrap();
    assert_eq!(receipt, Some(InactiveStakeReceipt { retire_time: 5 }));
    assert_eq!(inactive(&contract, 1), None);
    assert_eq!(contract.balance, coin(50));

    assert_eq!(
        contract.revert_unstake(&address(1), coin(70), receipt),
        Ok(())
    );
    assert_eq!(inactive(&contract, 1), Some((70, 5)));
    assert_eq!(contract.revert_unstake(&address(1), coin(30), None), Ok(()));
    assert_eq!(contract.serialize(), start);
}

#[test]
fn unstake_errors() {
    let mut contract = staked(&[(1, 150)]);
    assert_eq!(
        contract.unstake(&address(1), coin(10)),
        Err(AccountError::InvalidForSender)
    );
    assert_eq!(
        contract.unstake(&address(1), coin(500)),
        Err(AccountError::InsufficientFunds {
            needed: coin(500),
            balance: coin(140)
        })
    );
    assert_eq!(
        contract.revert_unstake(&address(1), coin(10), None),
        Err(AccountError::InvalidReceipt)
    );
    contract.retire_recipient(&address(1), coin(5), 3).unwrap();
    assert_eq!(
        contract.revert_unstake(
            &address(1),
            coin(10),
            Some(InactiveStakeReceipt { retire_time: 1 })
        ),
        Err(AccountError::InvalidReceipt)
    );
}

#[test]
fn other_stakers_are_untouched() {
    let mut contract = staked(&[(1, 150), (2, 70)]);
    contract.retire_recipient(&address(2), coin(4), 2).unwrap();
    contract.stake(&address(1), coin(5), key(1), None).unwrap();
    contract.retire_sender(&address(1), coin(55), 3).unwrap();
    contract.retire_recipient(&address(1), coin(55), 3).unwrap();
    contract.unstake(&address(1), coin(50)).unwrap();
    assert_eq!(active(&contract, 2), Some(70));
    assert_eq!(inactive(&contract, 2), Some((4, 2)));
    assert_eq!(active(&contract, 1), Some(100));
    assert_eq!(inactive(&contract, 1), Some((5, 3)));
    // The balance is what the stakes add up to.
    assert_eq!(contract.balance, coin(70 + 4 + 100 + 5));
}

#[test]
fn clones_are_independent() {
    let contract = staked(&[(1, 150), (2, 70)]);
    let mut copy = contract.clone();
    assert_eq!(copy.serialize(), contract.serialize());
    copy.stake(&address(3), coin(1), key(3), None).unwrap();
    assert_eq!(contract.active_stake_sorted.len(), 2);
    assert_eq!(copy.active_stake_sorted.len(), 3);
}

#[test]
fn contracts_count_as_equal() {
    let a = staked(&[(1, 150)]);
    let b = StakingContract::default();
    assert!(a == b);
    assert_eq!(a.cmp(&b), Ordering::Equal);
    assert_eq!(a.partial_cmp(&b), Some(Ordering::Equal));
}

#[test]
fn active_stakes_compare_by_balance_and_address() {
    let stake = |staker: u8, balance: u64, k: u64| ActiveStake {
        staker_address: address(staker),
        balance: coin(balance),
        validator_key: key(k),
        reward_address: None,
    };
    assert_eq!(stake(2, 90, 1).cmp(&stake(1, 50, 1)), Ordering::Less);
    assert_eq!(stake(1, 50, 1).cmp(&stake(2, 90, 1)), Ordering::Greater);
    assert_eq!(stake(1, 50, 1).cmp(&stake(2, 50, 1)), Ordering::Less);
    assert_eq!(stake(1, 50, 1).cmp(&stake(1, 50, 2)), Ordering::Equal);
    assert!(stake(1, 50, 1) == stake(1, 50, 2));
    assert!(stake(1, 50, 1) != stake(1, 51, 1));
    assert!(stake(1, 51, 1) < stake(1, 50, 1));
}

#[test]
fn coin_arithmetic() {
    assert_eq!(coin(2).checked_add(coin(3)), Some(coin(5)));
    assert_eq!(coin(MAX_SAFE_VALUE).checked_add(coin(1)), None);
    assert_eq!(coin(u64::MAX).checked_add(coin(1)), None);
    assert_eq!(coin(5).checked_sub(coin(3)), Some(coin(2)));
    assert_eq!(coin(3).checked_sub(coin(5)), None);
    assert_eq!(MAX_SAFE_VALUE as f64 as u64, MAX_SAFE_VALUE);
}
