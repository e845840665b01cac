use bls12_381::{G2Affine, G2Projective, Scalar};
use nimiq_staking::address::Address;
use nimiq_staking::bls::{BlsPublicKey, BlsSignature};
use nimiq_staking::coin::Coin;
use nimiq_staking::selection::{draw_number, number_of_hash, ActiveValidator};
use nimiq_staking::staking_contract::StakingContract;
use nimiq_staking::weighted_lookup::WeightedLookup;

fn address(n: u8) -> Address {
    Address { bytes: [n; 20] }
}

fn key(n: u64) -> BlsPublicKey {
    let point = G2Affine::from(G2Projective::generator() * Scalar::from(n));
    BlsPublicKey::from_bytes(point.to_compressed()).unwrap()
}

fn seed() -> BlsSignature {
    let mut bytes = [0u8; 48];
    for (i, b) in bytes.iter_mut().enumerate() {
        *b = i as u8;
    }
    BlsSignature { bytes }
}

fn contract(stakes: &[(u8, u64)]) -> StakingContract {
    let mut contract = StakingContract::default();
    for (staker, value) in stakes.iter() {
        let reward = if *staker == 1 { Some(address(77)) } else { None };
        contract
            .stake(
                &address(*staker),
                Coin { lunas: *value },
                key(*staker as u64),
                reward,
            )
            .unwrap();
    }
    contract
}

fn stakers(stakes: &[nimiq_staking::stake::ActiveStake]) -> Vec<u8> {
    let mut out = Vec::new();
    for s in stakes.iter() {
        out.push(s.staker_address.bytes[0]);
    }
    out
}

#[test]
fn numbers_are_drawn_from_seed_and_place() {
    assert_eq!(draw_number(&seed(), 0), 13984336273525152041);
    assert_eq!(draw_number(&seed(), 1), 1634543715751159911);
    assert_eq!(draw_number(&seed(), 2), 6630089077190503975);
}

#[test]
fn number_is_the_front_of_the_hash() {
    let mut hash = [9u8; 32];
    hash[..8].copy_from_slice(&[1, 2, 3, 4, 5, 6, 7, 8]);
    assert_eq!(number_of_hash(&hash), 0x0102_0304_0506_0708);
    assert_eq!(number_of_hash(&[0xff; 32]), u64::MAX);
}

#[test]
fn small_stakes_are_not_considered() {
    let c = contract(&[(3, 5), (1, 100), (2, 60)]);
    let (stakes, min_stake) = c.potential_validators(10).unwrap();
    assert_eq!(stakers(&stakes), vec![1, 2]);
    assert_eq!(min_stake, Coin { lunas: 53 });
}

#[test]
fn number_of_considered_stakes_is_bounded() {
    let c = contract(&[(1, 100), (2, 100), (3, 100), (4, 100)]);
    let (stakes, min_stake) = c.potential_validators(2).unwrap();
    assert_eq!(stakers(&stakes), vec![1, 2]);
    assert_eq!(min_stake, Coin { lunas: 100 });
    let (stakes, min_stake) = c.potential_validators(0).unwrap();
    assert_eq!(stakes.len(), 0);
    assert_eq!(min_stake, Coin { lunas: 0 });
}

#[test]
fn selection_follows_the_draws() {
    let c = contract(&[(3, 5), (1, 100), (2, 60)]);
    let set = c.build_validator_set(&seed(), 10, 4);
    // The draws are 41, 71 and 135 of 160.
    let first = ActiveValidator {
        staking_address: address(1),
        reward_address_opt: Some(address(77)),
    };
    let second = ActiveValidator {
        staking_address: address(2),
        reward_address_opt: None,
    };
    assert_eq!(set.active, vec![first, first, second]);
    assert_eq!(set.min_required_stake, Coin { lunas: 53 });
    assert_eq!(set.active[0].reward_address(), &address(77));
    assert_eq!(set.active[2].reward_address(), &address(2));
}

#[test]
fn number_of_picks_is_bounded() {
    let c = contract(&[(3, 5), (1, 100), (2, 60)]);
    assert_eq!(c.build_validator_set(&seed(), 10, 2).active.len(), 2);
    assert_eq!(c.build_validator_set(&seed(), 10, 0).active.len(), 0);
    assert_eq!(c.build_validator_set(&seed(), 1, 7).active.len(), 1);
    let nobody = StakingContract::default().build_validator_set(&seed(), 10, 7);
    assert_eq!(nobody.active.len(), 0);
    assert_eq!(nobody.min_required_stake, Coin { lunas: 0 });
}

#[test]
fn stakes_share_out_the_numbers() {
    let c = contract(&[(1, 100), (2, 60)]);
    let draws: Vec<u64> = (0..160u64).collect();
    let set = c.validators_drawn(10, &draws).unwrap();
    assert_eq!(set.min_required_stake, Coin { lunas: 80 });
    let mut count = [0u64; 3];
    for v in set.active.iter() {
        count[v.staking_address.bytes[0] as usize] += 1;
    }
    assert_eq!(count, [0, 100, 60]);
    let set = c.validators_drawn(10, &vec![160 + 99, 160 + 100]).unwrap();
    assert_eq!(set.active[0].staking_address, address(1));
    assert_eq!(set.active[1].staking_address, address(2));
    assert_eq!(c.validators_drawn(10, &Vec::new()).unwrap().active.len(), 0);
}

#[test]
fn selections_that_are_not_possible() {
    // No stake to share the numbers out over.
    let c = contract(&[(1, 0)]);
    assert!(c.validators_drawn(10, &vec![1]).is_none());
    assert!(c.validators_drawn(10, &Vec::new()).is_some());
    assert!(c.try_build_validator_set(&seed(), 10, 1).is_none());
    assert!(c.try_build_validator_set(&seed(), 10, 0).is_some());

    // A stake that is ranked but not on record matters only if it is drawn.
    let mut c = contract(&[(1, 100), (2, 60)]);
    assert!(c.active_stake_by_address.remove(&address(2)).is_some());
    assert!(c.validators_drawn(10, &vec![99, 0]).is_some());
    assert!(c.try_build_validator_set(&seed(), 1, 1).is_some());

    // Stakes that cannot be added up.
    let mut c = contract(&[(1, 100), (2, 60)]);
    for n in [1u8, 2] {
        let mut stake = c.active_stake_by_address.get(&address(n)).unwrap();
        stake.balance = Coin {
            lunas: u64::MAX - n as u64,
        };
        c.active_stake_sorted.insert(stake);
    }
    assert!(c.potential_validators(10).is_none());
    assert!(c.try_build_validator_set(&seed(), 10, 1).is_none());
}

#[test]
fn possible_selection_is_the_same_either_way() {
    let c = contract(&[(3, 5), (1, 100), (2, 60)]);
    let a = c.build_validator_set(&seed(), 10, 4);
    let b = c.try_build_validator_set(&seed(), 10, 4).unwrap();
    assert_eq!(a.active, b.active);
    assert_eq!(a.min_required_stake, b.min_required_stake);
}

#[test]
fn inactive_stake_plays_no_part() {
    let c = contract(&[(3, 5), (1, 100), (2, 60)]);
    let mut d = contract(&[(3, 5), (1, 100), (2, 60)]);
    d.retire_recipient(&address(3), Coin { lunas: 900 }, 4)
        .unwrap();
    d.retire_recipient(&address(9), Coin { lunas: 900 }, 4)
        .unwrap();
    let a = c.build_validator_set(&seed(), 10, 3);
    let b = d.build_validator_set(&seed(), 10, 3);
    assert_eq!(a.active, b.active);
    assert_eq!(a.min_required_stake, b.min_required_stake);
}

#[test]
fn positions_belong_to_the_items_that_cover_them() {
    let t = WeightedLookup::new(vec![(address(1), 2), (address(2), 0), (address(3), 1)]);
    assert_eq!(t.range(), 3);
    assert_eq!(t.find(0), Some(address(1)));
    assert_eq!(t.find(1), Some(address(1)));
    assert_eq!(t.find(2), Some(address(3)));
    assert_eq!(t.find(3), None);
}
