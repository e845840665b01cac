use nimiq_staking::address::Address;
use nimiq_staking::bls::BlsPublicKey;
use nimiq_staking::error::SerializingError;
use nimiq_staking::stake::{ActiveStakeReceipt, InactiveStakeReceipt};

const ACTIVE_STAKE_RECEIPT: &str = "96b94e8a2fa79cb3d96bfde5ed2fa693aa6bec225e944b23c96b1c83dda67b34b62d105763bdf3cd378de9e4d8809fb00f815e309ec94126f22d77ef81fe00fa3a51a6c750349efda2133ca2f0e1b04094c4e2ce08b73c72fccedc33e127259f010303030303030303030303030303030303030303";
const BLS_PUBLIC_KEY: &str = "96b94e8a2fa79cb3d96bfde5ed2fa693aa6bec225e944b23c96b1c83dda67b34b62d105763bdf3cd378de9e4d8809fb00f815e309ec94126f22d77ef81fe00fa3a51a6c750349efda2133ca2f0e1b04094c4e2ce08b73c72fccedc33e127259f";

fn key_bytes(bytes: &[u8]) -> [u8; 96] {
    let mut k = [0u8; 96];
    k.copy_from_slice(bytes);
    k
}

#[test]
fn it_can_de_serialize_an_active_stake_receipt() {
    let bytes: Vec<u8> = hex::decode(ACTIVE_STAKE_RECEIPT).unwrap();
    let asr: ActiveStakeReceipt = ActiveStakeReceipt::deserialize(&bytes[..]).unwrap();
    let bls_bytes: Vec<u8> = hex::decode(BLS_PUBLIC_KEY).unwrap();
    let bls_pubkey: BlsPublicKey = BlsPublicKey::from_bytes(key_bytes(&bls_bytes)).unwrap();
    assert_eq!(asr.validator_key, bls_pubkey);

    assert_eq!(hex::encode(asr.serialize_to_vec()), ACTIVE_STAKE_RECEIPT);
}

#[test]
fn active_receipt_fields_are_read() {
    let bytes: Vec<u8> = hex::decode(ACTIVE_STAKE_RECEIPT).unwrap();
    let asr = ActiveStakeReceipt::deserialize(&bytes).unwrap();
    assert_eq!(asr.reward_address, Some(Address { bytes: [3u8; 20] }));
    assert_eq!(&asr.validator_key.as_bytes()[..], &bytes[..96]);
}

#[test]
fn active_receipt_without_reward_address() {
    let mut bytes: Vec<u8> = hex::decode(BLS_PUBLIC_KEY).unwrap();
    bytes.push(0);
    let asr = ActiveStakeReceipt::deserialize(&bytes).unwrap();
    assert_eq!(asr.reward_address, None);
    assert_eq!(asr.serialize_to_vec(), bytes);
    // What stands behind the receipt is left alone.
    bytes.push(77);
    assert_eq!(ActiveStakeReceipt::deserialize(&bytes).unwrap(), asr);
}

#[test]
fn active_receipt_that_ends_early() {
    let bytes: Vec<u8> = hex::decode(ACTIVE_STAKE_RECEIPT).unwrap();
    for n in [0usize, 95, 96, 97, 116] {
        assert_eq!(
            ActiveStakeReceipt::deserialize(&bytes[..n]),
            Err(SerializingError::UnexpectedEnd)
        );
    }
}

#[test]
fn active_receipt_with_an_invalid_tag() {
    let mut bytes: Vec<u8> = hex::decode(ACTIVE_STAKE_RECEIPT).unwrap();
    bytes[96] = 2;
    assert_eq!(
        ActiveStakeReceipt::deserialize(&bytes),
        Err(SerializingError::InvalidValue)
    );
}

#[test]
fn active_receipt_with_a_key_off_the_curve() {
    let mut bytes: Vec<u8> = hex::decode(ACTIVE_STAKE_RECEIPT).unwrap();
    bytes[..96].copy_from_slice(&[0u8; 96]);
    assert_eq!(
        ActiveStakeReceipt::deserialize(&bytes),
        Err(SerializingError::InvalidValue)
    );
}

#[test]
fn only_points_are_keys() {
    let generator = bls12_381::G2Affine::generator().to_compressed();
    let key = BlsPublicKey::from_bytes(generator).unwrap();
    assert_eq!(key.as_bytes(), &generator);
    assert!(BlsPublicKey::from_bytes([0u8; 96]).is_none());
    assert!(BlsPublicKey::from_bytes([0xffu8; 96]).is_none());
}

#[test]
fn active_receipt_is_read_piece_by_piece() {
    let bytes: Vec<u8> = hex::decode(ACTIVE_STAKE_RECEIPT).unwrap();
    assert_eq!(ActiveStakeReceipt::wanted(&[]), 96);
    assert_eq!(ActiveStakeReceipt::wanted(&bytes[..90]), 6);
    assert_eq!(ActiveStakeReceipt::wanted(&bytes[..96]), 1);
    assert_eq!(ActiveStakeReceipt::wanted(&bytes[..97]), 20);
    assert_eq!(ActiveStakeReceipt::wanted(&bytes[..116]), 1);
    assert_eq!(ActiveStakeReceipt::wanted(&bytes), 0);
    let asr = ActiveStakeReceipt::deserialize(&bytes).unwrap();
    assert_eq!(asr.serialized_size(), 117);
    // Bytes that cannot become a receipt want nothing more.
    assert_eq!(ActiveStakeReceipt::wanted(&[0u8; 96]), 0);
}

#[test]
fn inactive_receipt_round_trip() {
    let receipt = InactiveStakeReceipt {
        retire_time: 0x0102_0304,
    };
    let bytes = receipt.serialize_to_vec();
    assert_eq!(bytes, vec![1u8, 2, 3, 4]);
    assert_eq!(InactiveStakeReceipt::deserialize(&bytes), Ok(receipt));
    assert_eq!(receipt.serialized_size(), 4);
    assert_eq!(
        InactiveStakeReceipt::deserialize(&bytes[..3]),
        Err(SerializingError::UnexpectedEnd)
    );
}
