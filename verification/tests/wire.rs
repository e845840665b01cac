use beserial::Serialize;
use bls12_381::{G2Affine, G2Projective, Scalar};
use nimiq_staking::address::Address;
use nimiq_staking::bls::BlsPublicKey;
use nimiq_staking::codec::Cursor;
use nimiq_staking::coin::{Coin, MAX_SAFE_VALUE};
use nimiq_staking::contract_reader::ContractReader;
use nimiq_staking::error::SerializingError;
use nimiq_staking::stake::{ActiveStake, InactiveStake};
use nimiq_staking::staking_contract::StakingContract;

fn coin(lunas: u64) -> Coin {
    Coin { lunas }
}

fn address(n: u8) -> Address {
    Address { bytes: [n; 20] }
}

fn key(n: u64) -> BlsPublicKey {
    let point = G2Affine::from(G2Projective::generator() * Scalar::from(n));
    BlsPublicKey::from_bytes(point.to_compressed()).unwrap()
}

fn sample() -> StakingContract {
    let mut c = StakingContract::default();
    c.stake(&address(5), coin(300), key(5), None).unwrap();
    c.stake(&address(6), coin(700), key(6), Some(address(60)))
        .unwrap();
    c.retire_sender(&address(6), coin(100), 11).unwrap();
    c.retire_recipient(&address(6), coin(100), 11).unwrap();
    c.stake(&address(8), coin(40), key(8), None).unwrap();
    c.retire_sender(&address(8), coin(40), 12).unwrap();
    c.retire_recipient(&address(8), coin(40), 12).unwrap();
    c.stake(&address(7), coin(30), key(7), None).unwrap();
    c.retire_sender(&address(7), coin(30), 13).unwrap();
    c.retire_recipient(&address(7), coin(30), 13).unwrap();
    c
}

// The layout, written with the primitives of the serialization crate.
fn sample_bytes() -> Vec<u8> {
    let mut out = Vec::new();
    1070u64.serialize(&mut out).unwrap();
    2u32.serialize(&mut out).unwrap();

    out.extend_from_slice(&[6u8; 20]);
    600u64.serialize(&mut out).unwrap();
    out.extend_from_slice(key(6).as_bytes());
    true.serialize(&mut out).unwrap();
    out.extend_from_slice(&[60u8; 20]);
    true.serialize(&mut out).unwrap();
    100u64.serialize(&mut out).unwrap();
    11u32.serialize(&mut out).unwrap();

    out.extend_from_slice(&[5u8; 20]);
    300u64.serialize(&mut out).unwrap();
    out.extend_from_slice(key(5).as_bytes());
    false.serialize(&mut out).unwrap();
    false.serialize(&mut out).unwrap();

    2u32.serialize(&mut out).unwrap();
    out.extend_from_slice(&[7u8; 20]);
    30u64.serialize(&mut out).unwrap();
    13u32.serialize(&mut out).unwrap();
    out.extend_from_slice(&[8u8; 20]);
    40u64.serialize(&mut out).unwrap();
    12u32.serialize(&mut out).unwrap();
    out
}

#[test]
fn contract_layout() {
    assert_eq!(sample().serialize(), Ok(sample_bytes()));
}

#[test]
fn empty_contract_layout() {
    assert_eq!(StakingContract::default().serialize(), Ok(vec![0u8; 16]));
    assert_eq!(StakingContract::default().serialized_size(), 16);
}

#[test]
fn contract_size() {
    assert_eq!(sample().serialized_size(), sample_bytes().len());
    assert_eq!(sample().serialized_size(), 16 + 145 + 13 + 125 + 1 + 64);
}

#[test]
fn contract_round_trip() {
    let mut bytes = sample_bytes();
    let n = bytes.len();
    bytes.extend_from_slice(&[1, 2, 3]);
    let (c, taken) = StakingContract::deserialize(&bytes).unwrap();
    assert_eq!(taken, n);
    assert_eq!(c.serialize(), Ok(bytes[..n].to_vec()));
    assert_eq!(c.balance, coin(1070));
    assert_eq!(c.active_stake_by_address.len(), 2);
    assert_eq!(c.active_stake_sorted.len(), 2);
    assert_eq!(c.inactive_stake_by_address.len(), 3);
    let stake = c.active_stake_by_address.get(&address(6)).unwrap();
    assert_eq!(stake.balance, coin(600));
    assert_eq!(stake.validator_key, key(6));
    assert_eq!(stake.reward_address, Some(address(60)));
    let inactive = c.inactive_stake_by_address.get(&address(6)).unwrap();
    assert_eq!(
        inactive,
        InactiveStake {
            balance: coin(100),
            retire_time: 11
        }
    );
}

#[test]
fn contract_that_ends_early() {
    let bytes = sample_bytes();
    for n in 0..bytes.len() {
        assert_eq!(
            StakingContract::deserialize(&bytes[..n]).err(),
            Some(SerializingError::UnexpectedEnd)
        );
    }
}

#[test]
fn contract_is_read_piece_by_piece() {
    let bytes = sample_bytes();
    let mut reader = ContractReader::new();
    let mut pos: usize = 0;
    let mut pieces = Vec::new();
    while reader.wanted() > 0 {
        let n = reader.wanted();
        pieces.push(n);
        reader = reader.feed(&bytes[pos..pos + n]).unwrap();
        pos += n;
    }
    let expected = vec![
        8, 4, 20, 8, 96, 1, 20, 1, 8, 4, 20, 8, 96, 1, 1, 4, 20, 8, 4, 20, 8, 4,
    ];
    assert_eq!(pieces, expected);
    assert_eq!(pos, bytes.len());
    let (c, behind) = reader.finish().unwrap();
    assert_eq!(behind, 0);
    assert_eq!(c.serialize(), Ok(bytes));
}

#[test]
fn contract_is_read_in_any_pieces() {
    let mut bytes = sample_bytes();
    bytes.extend_from_slice(&[7, 7]);
    for size in [1usize, 5, 97, 1000] {
        let mut reader = ContractReader::new();
        let mut pos: usize = 0;
        while pos < bytes.len() {
            let end = if pos + size < bytes.len() {
                pos + size
            } else {
                bytes.len()
            };
            reader = reader.feed(&bytes[pos..end]).unwrap();
            pos = end;
        }
        let (c, behind) = reader.finish().unwrap();
        assert_eq!(behind, 2);
        assert_eq!(c.serialize(), Ok(sample_bytes()));
    }
}

#[test]
fn contract_reader_reports_what_it_sees() {
    let mut bytes = sample_bytes();
    bytes[12 + 20] = 0xff;
    let early = ContractReader::new().feed(&bytes[..12 + 27]).unwrap();
    assert_eq!(early.wanted(), 1);
    assert_eq!(early.finish().err(), Some(SerializingError::UnexpectedEnd));
    assert_eq!(
        ContractReader::new().feed(&bytes[..12 + 28]).err(),
        Some(SerializingError::Overflow)
    );
}

#[test]
fn contract_with_an_amount_out_of_range() {
    let mut bytes = sample_bytes();
    bytes[..8].copy_from_slice(&(MAX_SAFE_VALUE + 1).to_be_bytes());
    assert_eq!(
        StakingContract::deserialize(&bytes).err(),
        Some(SerializingError::Overflow)
    );
    bytes[..8].copy_from_slice(&MAX_SAFE_VALUE.to_be_bytes());
    assert!(StakingContract::deserialize(&bytes).is_ok());
}

#[test]
fn contract_with_an_invalid_tag_or_key() {
    let mut bytes = sample_bytes();
    bytes[12 + 20 + 8 + 96] = 7;
    assert_eq!(
        StakingContract::deserialize(&bytes).err(),
        Some(SerializingError::InvalidValue)
    );
    let mut bytes = sample_bytes();
    bytes[12 + 20 + 8] = 0;
    assert_eq!(
        StakingContract::deserialize(&bytes).err(),
        Some(SerializingError::InvalidValue)
    );
}

#[test]
fn of_two_stakes_of_one_address_the_later_counts() {
    let stake = |balance: u64| ActiveStake {
        staker_address: address(1),
        balance: coin(balance),
        validator_key: key(1),
        reward_address: None,
    };
    let mut bytes = Vec::new();
    30u64.serialize(&mut bytes).unwrap();
    2u32.serialize(&mut bytes).unwrap();
    for balance in [20u64, 10] {
        stake(balance).serialize(&mut bytes).unwrap();
        bytes.push(0);
    }
    0u32.serialize(&mut bytes).unwrap();
    let (c, _) = StakingContract::deserialize(&bytes).unwrap();
    assert_eq!(c.active_stake_sorted.len(), 2);
    assert_eq!(
        c.active_stake_by_address.get(&address(1)).unwrap().balance,
        coin(10)
    );
}

#[test]
fn active_stake_round_trip() {
    for reward in [None, Some(address(3))] {
        let stake = ActiveStake {
            staker_address: address(1),
            balance: coin(99),
            validator_key: key(4),
            reward_address: reward,
        };
        let mut bytes = Vec::new();
        stake.serialize(&mut bytes).unwrap();
        assert_eq!(bytes.len(), stake.serialized_size());
        let mut cursor = Cursor::new(&bytes);
        let back = ActiveStake::deserialize(&mut cursor).unwrap();
        assert_eq!(back.staker_address, address(1));
        assert_eq!(back.balance, coin(99));
        assert_eq!(back.validator_key, key(4));
        assert_eq!(back.reward_address, reward);
        assert_eq!(cursor.consumed(), bytes.len());
    }
}

#[test]
fn inactive_stake_round_trip() {
    let stake = InactiveStake {
        balance: coin(99),
        retire_time: 300,
    };
    let mut bytes = Vec::new();
    stake.serialize(&mut bytes).unwrap();
    assert_eq!(bytes, vec![0, 0, 0, 0, 0, 0, 0, 99, 0, 0, 1, 44]);
    assert_eq!(stake.serialized_size(), 12);
    assert_eq!(InactiveStake::serialized_size_opt(&Some(stake)), 13);
    assert_eq!(InactiveStake::serialized_size_opt(&None), 1);
    let mut cursor = Cursor::new(&bytes);
    assert_eq!(InactiveStake::deserialize(&mut cursor), Ok(stake));

    let mut bytes = Vec::new();
    InactiveStake::serialize_opt(&Some(stake), &mut bytes).unwrap();
    InactiveStake::serialize_opt(&None, &mut bytes).unwrap();
    bytes.push(5);
    let mut cursor = Cursor::new(&bytes);
    assert_eq!(InactiveStake::deserialize_opt(&mut cursor), Ok(Some(stake)));
    assert_eq!(InactiveStake::deserialize_opt(&mut cursor), Ok(None));
    assert_eq!(
        InactiveStake::deserialize_opt(&mut cursor),
        Err(SerializingError::InvalidValue)
    );
}

#[test]
fn amounts_out_of_range_are_not_written() {
    let over = coin(MAX_SAFE_VALUE + 1);
    let overflow = SerializingError::Overflow;

    let mut c = sample();
    c.balance = over;
    assert_eq!(c.serialize(), Err(overflow));
    c.balance = coin(MAX_SAFE_VALUE);
    assert!(c.serialize().is_ok());

    let inactive = InactiveStake {
        balance: over,
        retire_time: 1,
    };
    let mut out = vec![9u8];
    assert_eq!(inactive.serialize(&mut out), Err(overflow));
    assert_eq!(
        InactiveStake::serialize_opt(&Some(inactive), &mut out),
        Err(overflow)
    );
    let active = ActiveStake {
        staker_address: address(1),
        balance: over,
        validator_key: key(1),
        reward_address: None,
    };
    assert_eq!(active.serialize(&mut out), Err(overflow));
    assert_eq!(out, vec![9u8]);

    // With an active stake, with an inactive one beside it, and with one alone.
    let mut c = sample();
    c.active_stake_sorted.insert(active);
    assert_eq!(c.serialize(), Err(overflow));
    for staker in [6u8, 7] {
        let mut c = sample();
        c.inactive_stake_by_address.insert(address(staker), inactive);
        assert_eq!(c.serialize(), Err(overflow));
    }
}
