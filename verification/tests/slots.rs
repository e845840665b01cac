use nimiq_staking::address::Address;
use nimiq_staking::bls::LazyPublicKey;
use nimiq_staking::codec::Cursor;
use nimiq_staking::coin::{Coin, MAX_SAFE_VALUE};
use nimiq_staking::error::SerializingError;
use nimiq_staking::policy::Policy;
use nimiq_staking::slots_reader::SlotsReader;
use nimiq_staking::validators::{Slot, Slots, Validator, Validators};

fn address(n: u8) -> Address {
    Address { bytes: [n; 20] }
}

fn key(n: u8) -> LazyPublicKey {
    LazyPublicKey {
        compressed: [n; 96],
    }
}

fn slot(k: u8, reward: Option<u8>) -> Slot {
    Slot {
        public_key: key(k),
        reward_address_opt: reward.map(address),
        staker_address: address(k),
    }
}

fn slots(keys: &[u8]) -> Slots {
    let mut v = Vec::new();
    for k in keys.iter() {
        v.push(slot(*k, None));
    }
    Slots::new(v, Coin { lunas: 25 })
}

#[test]
fn rewards_go_to_the_reward_address() {
    assert_eq!(slot(1, Some(8)).reward_address(), &address(8));
    assert_eq!(slot(1, None).reward_address(), &address(1));
}

#[test]
fn slots_are_listed() {
    let s = slots(&[4, 5, 6]);
    assert_eq!(s.len(), 3);
    assert_eq!(s.slash_fine(), Coin { lunas: 25 });
    assert_eq!(s.get(1), &slot(5, None));
    let mut keys = Vec::new();
    for slot in s.iter() {
        keys.push(slot.public_key);
    }
    assert_eq!(keys, vec![key(4), key(5), key(6)]);
    let mut keys = Vec::new();
    for slot in s {
        keys.push(slot.public_key);
    }
    assert_eq!(keys, vec![key(4), key(5), key(6)]);
}

#[test]
fn votes_must_exceed_two_thirds() {
    let policy = Policy {
        epoch_length: 10,
        unstake_delay: 5,
        two_third_validators: 341,
    };
    let s = slots(&[1]);
    assert!(!s.enough_votes(0, &policy));
    assert!(!s.enough_votes(341, &policy));
    assert!(s.enough_votes(342, &policy));
}

#[test]
fn neighbouring_slots_are_merged() {
    let v: Validators = slots(&[1, 1, 2, 3, 3, 3, 1]).into_validators();
    let expected = vec![
        Validator {
            public_key: key(1),
            num_slots: 2,
        },
        Validator {
            public_key: key(2),
            num_slots: 1,
        },
        Validator {
            public_key: key(3),
            num_slots: 3,
        },
        Validator {
            public_key: key(1),
            num_slots: 1,
        },
    ];
    assert_eq!(v, expected);
}

#[test]
fn one_slot_is_one_validator() {
    let v = slots(&[9]).into_validators();
    assert_eq!(
        v,
        vec![Validator {
            public_key: key(9),
            num_slots: 1
        }]
    );
}

#[test]
fn slots_that_cannot_be_merged() {
    assert_eq!(slots(&[]).try_into_validators(), None);
    assert_eq!(slots(&vec![3u8; 65536]).try_into_validators(), None);
    let mut keys = vec![3u8; 65535];
    keys.push(4);
    keys.extend_from_slice(&[3u8; 10]);
    let v = slots(&keys).try_into_validators().unwrap();
    assert_eq!(v.len(), 3);
    assert_eq!(v[0].num_slots, 65535);
    assert_eq!(v[2].num_slots, 10);
    let v = slots(&[1, 1, 2]).try_into_validators().unwrap();
    assert_eq!(v, slots(&[1, 1, 2]).into_validators());
}

#[test]
fn slots_are_read_piece_by_piece() {
    let s = Slots::new(vec![slot(1, Some(8)), slot(2, None)], Coin { lunas: 25 });
    let bytes = s.serialize().unwrap();
    let mut reader = SlotsReader::new();
    let mut pos: usize = 0;
    let mut pieces = Vec::new();
    while reader.wanted() > 0 {
        let n = reader.wanted();
        pieces.push(n);
        reader = reader.feed(&bytes[pos..pos + n]).unwrap();
        pos += n;
    }
    assert_eq!(pieces, vec![2, 96, 1, 20, 20, 96, 1, 20, 8]);
    assert_eq!(pos, bytes.len());
    let (back, behind) = reader.finish().unwrap();
    assert_eq!(back, s);
    assert_eq!(behind, 0);

    // A piece at a time that is not what the reader asked for, and then too much.
    let mut reader = SlotsReader::new();
    for b in bytes.iter() {
        assert!(reader.wanted() > 0);
        reader = reader.feed(&[*b]).unwrap();
    }
    reader = reader.feed(&[1, 2, 3]).unwrap();
    assert_eq!(reader.wanted(), 0);
    let (back, behind) = reader.finish().unwrap();
    assert_eq!(back, s);
    assert_eq!(behind, 3);
}

#[test]
fn slots_reader_reports_what_it_sees() {
    let s = Slots::new(vec![slot(1, Some(8))], Coin { lunas: 25 });
    let mut bytes = s.serialize().unwrap();
    for n in 0..bytes.len() {
        let reader = SlotsReader::new().feed(&bytes[..n]).unwrap();
        assert_eq!(reader.finish().err(), Some(SerializingError::UnexpectedEnd));
    }
    bytes[98] = 2;
    assert!(SlotsReader::new().feed(&bytes[..98]).is_ok());
    assert_eq!(
        SlotsReader::new().feed(&bytes[..99]).err(),
        Some(SerializingError::InvalidValue)
    );
}

#[test]
fn a_long_stretch_is_one_validator() {
    let v = slots(&vec![3u8; 65535]).into_validators();
    assert_eq!(v.len(), 1);
    assert_eq!(v[0].num_slots, 65535);
}

#[test]
fn slots_layout_and_round_trip() {
    let s = Slots::new(vec![slot(1, Some(8)), slot(2, None)], Coin { lunas: 25 });
    let mut bytes = s.serialize().unwrap();
    let mut expected = vec![0u8, 2];
    expected.extend_from_slice(&[1u8; 96]);
    expected.push(1);
    expected.extend_from_slice(&[8u8; 20]);
    expected.extend_from_slice(&[1u8; 20]);
    expected.extend_from_slice(&[2u8; 96]);
    expected.push(0);
    expected.extend_from_slice(&[2u8; 20]);
    expected.extend_from_slice(&25u64.to_be_bytes());
    assert_eq!(bytes, expected);
    let n = bytes.len();
    assert_eq!(s.serialized_size(), n);
    bytes.push(44);
    let (back, taken) = Slots::deserialize(&bytes).unwrap();
    assert_eq!(taken, n);
    assert_eq!(back, s);
    for short in [0usize, 1, 2, 90, n - 1] {
        assert_eq!(
            Slots::deserialize(&bytes[..short]).err(),
            Some(SerializingError::UnexpectedEnd)
        );
    }
    bytes[n - 8..n].copy_from_slice(&(MAX_SAFE_VALUE + 1).to_be_bytes());
    assert_eq!(
        Slots::deserialize(&bytes).err(),
        Some(SerializingError::Overflow)
    );
    bytes[98] = 9;
    assert_eq!(
        Slots::deserialize(&bytes).err(),
        Some(SerializingError::InvalidValue)
    );
}

#[test]
fn fine_out_of_range_is_not_written() {
    let fine = Coin {
        lunas: MAX_SAFE_VALUE + 1,
    };
    let s = Slots::new(vec![slot(1, None)], fine);
    assert_eq!(s.serialize(), Err(SerializingError::Overflow));
    assert_eq!(s.serialized_size(), 2 + 117 + 8);
}

#[test]
fn validator_round_trip() {
    let v = Validator {
        public_key: key(7),
        num_slots: 258,
    };
    let mut bytes = Vec::new();
    v.serialize(&mut bytes);
    assert_eq!(bytes.len(), 98);
    assert_eq!(v.serialized_size(), 98);
    for n in 0..98 {
        let mut cursor = Cursor::new(&bytes[..n]);
        assert_eq!(
            Validator::deserialize(&mut cursor),
            Err(SerializingError::UnexpectedEnd)
        );
        assert!(cursor.lacked() > 0);
        assert!(cursor.lacked() <= 98 - n);
    }
    assert_eq!(&bytes[96..], &[1u8, 2]);
    let mut cursor = Cursor::new(&bytes);
    assert_eq!(Validator::deserialize(&mut cursor), Ok(v));
}

#[test]
fn slot_round_trip() {
    let s = slot(7, Some(3));
    let mut bytes = Vec::new();
    s.serialize(&mut bytes);
    let mut cursor = Cursor::new(&bytes);
    assert_eq!(Slot::deserialize(&mut cursor), Ok(s));
}
