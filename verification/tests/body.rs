use nimiq_staking::address::Address;
use nimiq_staking::block_body::{AccountFacts, BlockBody, BodyItem, TransactionFacts};
use nimiq_staking::sorted_map::KeyOrder;

fn item(serialized: &[u8], content: &[u8]) -> BodyItem {
    BodyItem {
        serialized: serialized.to_vec(),
        content: content.to_vec(),
    }
}

fn body() -> BlockBody {
    BlockBody {
        miner: Address { bytes: [7u8; 20] },
        extra_data: b"extra".to_vec(),
        transactions: vec![item(b"one", b"tx one"), item(b"two", b"tx two")],
        pruned_accounts: vec![item(b"acc", b"account")],
    }
}

fn tx(order: KeyOrder, valid: bool, in_window: bool) -> TransactionFacts {
    TransactionFacts {
        order,
        valid,
        in_window,
    }
}

fn acc(order: KeyOrder, to_be_pruned: bool) -> AccountFacts {
    AccountFacts {
        order,
        to_be_pruned,
    }
}

#[test]
fn body_layout() {
    let mut expected = vec![7u8; 20];
    expected.push(5);
    expected.extend_from_slice(b"extra");
    expected.extend_from_slice(&[0, 2]);
    expected.extend_from_slice(b"onetwo");
    expected.extend_from_slice(&[0, 1]);
    expected.extend_from_slice(b"acc");
    assert_eq!(body().serialize_content(), expected);
}

#[test]
fn body_hash_is_the_root_over_its_parts() {
    assert_eq!(
        hex::encode(body().hash()),
        "f7a28d16714dd8c1925ef18cf46d6999bd54b530c92c419b154957e556a894d3"
    );
    let bare = BlockBody {
        transactions: Vec::new(),
        pruned_accounts: Vec::new(),
        ..body()
    };
    assert_eq!(
        hex::encode(bare.hash()),
        "8f5c70e9f3f76fdc28ea4d21a25faa4fa1d569dd2fc648bee06b01df3a5d62a5"
    );
    assert_eq!(body().leaf_hashes().len(), 5);
    assert_eq!(bare.leaf_hashes().len(), 2);
}

#[test]
fn leaves_stand_in_order() {
    let expected: Vec<Vec<u8>> = vec![
        vec![7u8; 20],
        b"extra".to_vec(),
        b"tx one".to_vec(),
        b"tx two".to_vec(),
        b"account".to_vec(),
    ];
    assert_eq!(body().leaf_contents(), expected);
}

#[test]
fn default_body_is_empty() {
    let b = BlockBody::default();
    assert_eq!(b.miner, Address { bytes: [0u8; 20] });
    assert_eq!(b.miner, Address::default());
    assert_eq!(b.serialize_content(), vec![0u8; 25]);
    assert!(b.verify(&Vec::new(), &Vec::new()));
}

#[test]
fn hash_covers_content_only() {
    let mut other = body();
    other.transactions[0].serialized = b"signed otherwise".to_vec();
    assert_eq!(other.hash(), body().hash());
    other.transactions[0].content = b"tx 1".to_vec();
    assert_ne!(other.hash(), body().hash());
}

#[test]
fn ordered_and_valid_body() {
    // How the first of a list stands to anything before it does not matter.
    let txs = vec![
        tx(KeyOrder::Greater, true, true),
        tx(KeyOrder::Less, true, true),
    ];
    let accs = vec![acc(KeyOrder::Equal, true)];
    assert!(body().verify(&txs, &accs));
}

#[test]
fn duplicate_or_unordered_transactions() {
    let accs = vec![acc(KeyOrder::Less, true)];
    for order in [KeyOrder::Equal, KeyOrder::Greater] {
        let txs = vec![tx(KeyOrder::Less, true, true), tx(order, true, true)];
        assert!(!body().verify(&txs, &accs));
    }
}

#[test]
fn invalid_transactions() {
    let accs = vec![acc(KeyOrder::Less, true)];
    let good = tx(KeyOrder::Less, true, true);
    for bad in [
        tx(KeyOrder::Less, false, true),
        tx(KeyOrder::Less, true, false),
    ] {
        assert!(!body().verify(&vec![bad, good], &accs));
        assert!(!body().verify(&vec![good, bad], &accs));
    }
}

#[test]
fn invalid_accounts() {
    let txs = vec![tx(KeyOrder::Less, true, true), tx(KeyOrder::Less, true, true)];
    assert!(!body().verify(&txs, &vec![acc(KeyOrder::Less, false)]));
    let mut two = body();
    two.pruned_accounts.push(item(b"acd", b"account 2"));
    let first = acc(KeyOrder::Less, true);
    assert!(two.verify(&txs, &vec![first, acc(KeyOrder::Less, true)]));
    assert!(!two.verify(&txs, &vec![first, acc(KeyOrder::Equal, true)]));
    assert!(!two.verify(&txs, &vec![first, acc(KeyOrder::Greater, true)]));
}

#[test]
fn empty_body_is_valid() {
    let empty = BlockBody {
        transactions: Vec::new(),
        pruned_accounts: Vec::new(),
        ..body()
    };
    assert!(empty.verify(&Vec::new(), &Vec::new()));
}
