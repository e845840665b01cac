//! The body of a block: who mined it, its transactions and the accounts that it
//! prunes.

use crate::address::Address;
use crate::codec::{be_bytes, lemma_be_bytes_len, put_bytes, put_uint};
use crate::hash::{blake2b, blake2b_256, hash_views, merkle_root, root_of_hashes};
use crate::sorted_map::KeyOrder;
use vstd::prelude::*;

verus! {

/// A transaction or a pruned account as it stands in a block.
#[derive(Clone, Debug, PartialEq, Eq)]
pub struct BodyItem {
    /// The item as it is sent.
    pub serialized: Vec<u8>,
    /// The part of the item that its hash covers.
    pub content: Vec<u8>,
}

/// The body of a block.
#[derive(Clone, Debug, PartialEq, Eq)]
pub struct BlockBody {
    pub miner: Address,
    pub extra_data: Vec<u8>,
    pub transactions: Vec<BodyItem>,
    pub pruned_accounts: Vec<BodyItem>,
}

/// What is known of a transaction in a block.
#[derive(Clone, Copy, Debug, PartialEq, Eq)]
pub struct TransactionFacts {
    /// How the transaction before it stands to it in block order. Not looked at
    /// for the first one.
    pub order: KeyOrder,
    /// It is valid in itself on this network.
    pub valid: bool,
    /// Its validity window holds the height of the block.
    pub in_window: bool,
}

/// What is known of a pruned account in a block.
#[derive(Clone, Copy, Debug, PartialEq, Eq)]
pub struct AccountFacts {
    /// How the account before it stands to it. Not looked at for the first one.
    pub order: KeyOrder,
    /// It is supposed to be pruned.
    pub to_be_pruned: bool,
}

/// The transactions are ordered and unique, valid, and within their windows.
pub open spec fn transactions_valid(facts: Seq<TransactionFacts>) -> bool {
    forall|i: int|
        0 <= i < facts.len() ==> {
            &&& i > 0 ==> (#[trigger] facts[i]).order == KeyOrder::Less
            &&& facts[i].valid
            &&& facts[i].in_window
        }
}

/// The pruned accounts are ordered and unique, and supposed to be pruned.
pub open spec fn accounts_valid(facts: Seq<AccountFacts>) -> bool {
    forall|i: int|
        0 <= i < facts.len() ==> {
            &&& i > 0 ==> (#[trigger] facts[i]).order == KeyOrder::Less
            &&& facts[i].to_be_pruned
        }
}

/// The bytes of several items, one behind the other.
pub open spec fn items_bytes(items: Seq<BodyItem>) -> Seq<u8>
    decreases items.len(),
{
    if items.len() == 0 {
        Seq::empty()
    } else {
        items_bytes(items.drop_last()) + items.last().serialized@
    }
}

/// The bytes of a body: the miner, then the extra data, the transactions and the
/// accounts, each with its length in front.
pub open spec fn body_bytes(b: BlockBody) -> Seq<u8> {
    b.miner.bytes@ + be_bytes(b.extra_data@.len(), 1) + b.extra_data@ + be_bytes(
        b.transactions@.len(),
        2,
    ) + items_bytes(b.transactions@) + be_bytes(b.pruned_accounts@.len(), 2) + items_bytes(
        b.pruned_accounts@,
    )
}

/// The parts of the items that their hashes cover.
pub open spec fn item_contents(items: Seq<BodyItem>) -> Seq<Seq<u8>> {
    Seq::new(items.len(), |i: int| items[i].content@)
}

/// What the leaves of the hash tree over a body are hashes of: the miner, the extra
/// data, the transactions, the accounts.
pub open spec fn leaf_contents(b: BlockBody) -> Seq<Seq<u8>> {
    seq![b.miner.bytes@, b.extra_data@] + item_contents(b.transactions@) + item_contents(
        b.pruned_accounts@,
    )
}

/// The leaves of the hash tree over a body.
pub open spec fn body_leaves(b: BlockBody) -> Seq<Seq<u8>> {
    Seq::new(leaf_contents(b).len(), |i: int| blake2b_256(leaf_contents(b)[i]))
}

/// The views of a list of byte strings.
pub open spec fn byte_views(v: Seq<Vec<u8>>) -> Seq<Seq<u8>> {
    Seq::new(v.len(), |i: int| v[i]@)
}

/// Appends the bytes of several items.
fn put_items(out: &mut Vec<u8>, items: &Vec<BodyItem>)
    ensures
        final(out)@ == old(out)@ + items_bytes(items@),
{
    let mut i: usize = 0;
    assert(out@ =~= old(out)@ + items_bytes(items@.take(0)));
    while i < items.len()
        invariant
            i <= items@.len(),
            out@ == old(out)@ + items_bytes(items@.take(i as int)),
        decreases items@.len() - i,
    {
        put_bytes(out, items[i].serialized.as_slice());
        assert(items@.take(i + 1).drop_last() =~= items@.take(i as int));
        assert(out@ =~= old(out)@ + items_bytes(items@.take(i + 1)));
        i = i + 1;
    }
    assert(items@.take(i as int) =~= items@);
}

/// Bytes of one's own.
fn copied(b: &[u8]) -> (v: Vec<u8>)
    ensures
        v@ == b@,
{
    let mut v: Vec<u8> = Vec::new();
    put_bytes(&mut v, b);
    assert(v@ =~= b@);
    v
}

/// Appends the contents of several items.
fn push_contents(contents: &mut Vec<Vec<u8>>, items: &Vec<BodyItem>)
    ensures
        byte_views(final(contents)@) == byte_views(old(contents)@) + item_contents(items@),
{
    let mut i: usize = 0;
    assert(byte_views(contents@) =~= byte_views(old(contents)@) + item_contents(items@).take(0));
    while i < items.len()
        invariant
            i <= items@.len(),
            byte_views(contents@) == byte_views(old(contents)@) + item_contents(items@).take(
                i as int,
            ),
        decreases items@.len() - i,
    {
        let ghost before = contents@;
        let c = copied(items[i].content.as_slice());
        let ghost view = c@;
        contents.push(c);
        assert(byte_views(contents@) =~= byte_views(before).push(view));
        assert(byte_views(contents@) =~= byte_views(old(contents)@) + item_contents(items@).take(
            i + 1,
        ));
        i = i + 1;
    }
    assert(item_contents(items@).take(i as int) =~= item_contents(items@));
}

impl Default for BlockBody {
    /// A body with nothing in it.
    fn default() -> (b: BlockBody)
        ensures
            b.miner.bytes@ == Seq::new(20, |i: int| 0u8),
            b.extra_data@ == Seq::<u8>::empty(),
            b.transactions@ == Seq::<BodyItem>::empty(),
            b.pruned_accounts@ == Seq::<BodyItem>::empty(),
    {
        BlockBody {
            miner: Address::default(),
            extra_data: Vec::new(),
            transactions: Vec::new(),
            pruned_accounts: Vec::new(),
        }
    }
}

impl BlockBody {
    /// The bytes of the body.
    pub fn serialize_content(&self) -> (out: Vec<u8>)
        requires
            self.extra_data@.len() <= u8::MAX,
            self.transactions@.len() <= u16::MAX,
            self.pruned_accounts@.len() <= u16::MAX,
        ensures
            out@ == body_bytes(*self),
    {
        let mut out: Vec<u8> = Vec::new();
        put_bytes(&mut out, &self.miner.bytes);
        put_uint(&mut out, self.extra_data.len() as u64, 1);
        put_bytes(&mut out, self.extra_data.as_slice());
        put_uint(&mut out, self.transactions.len() as u64, 2);
        put_items(&mut out, &self.transactions);
        put_uint(&mut out, self.pruned_accounts.len() as u64, 2);
        put_items(&mut out, &self.pruned_accounts);
        assert(out@ =~= body_bytes(*self));
        out
    }

    /// What the leaves of the hash tree over the body are hashes of, in their order.
    pub fn leaf_contents(&self) -> (contents: Vec<Vec<u8>>)
        ensures
            byte_views(contents@) == leaf_contents(*self),
            contents@.len() == 2 + self.transactions@.len() + self.pruned_accounts@.len(),
            contents@[0]@ == self.miner.bytes@,
            contents@[1]@ == self.extra_data@,
            forall|i: int|
                #![trigger self.transactions@[i]]
                0 <= i < self.transactions@.len() ==> contents@[2 + i]@
                    == self.transactions@[i].content@,
            forall|j: int|
                #![trigger self.pruned_accounts@[j]]
                0 <= j < self.pruned_accounts@.len() ==> contents@[2 + self.transactions@.len()
                    + j]@ == self.pruned_accounts@[j].content@,
    {
        proof {
            law_leaf_contents(*self);
        }
        let mut contents: Vec<Vec<u8>> = Vec::new();
        contents.push(copied(&self.miner.bytes));
        contents.push(copied(self.extra_data.as_slice()));
        assert(byte_views(contents@) =~= seq![self.miner.bytes@, self.extra_data@]);
        push_contents(&mut contents, &self.transactions);
        push_contents(&mut contents, &self.pruned_accounts);
        contents
    }

    /// The leaves of the hash tree over the body.
    pub fn leaf_hashes(&self) -> (hashes: Vec<[u8; 32]>)
        ensures
            hash_views(hashes@) == body_leaves(*self),
            hashes@.len() == 2 + self.transactions@.len() + self.pruned_accounts@.len(),
            hashes@[0]@ == blake2b_256(self.miner.bytes@),
            hashes@[1]@ == blake2b_256(self.extra_data@),
            forall|i: int|
                #![trigger self.transactions@[i]]
                0 <= i < self.transactions@.len() ==> hashes@[2 + i]@ == blake2b_256(
                    self.transactions@[i].content@,
                ),
            forall|j: int|
                #![trigger self.pruned_accounts@[j]]
                0 <= j < self.pruned_accounts@.len() ==> hashes@[2 + self.transactions@.len()
                    + j]@ == blake2b_256(self.pruned_accounts@[j].content@),
    {
        let contents = self.leaf_contents();
        let mut hashes: Vec<[u8; 32]> = Vec::new();
        let mut i: usize = 0;
        while i < contents.len()
            invariant
                i <= contents@.len(),
                hashes@.len() == i,
                byte_views(contents@) == leaf_contents(*self),
                forall|j: int|
                    0 <= j < i ==> (#[trigger] hashes@[j])@ == blake2b_256(
                        leaf_contents(*self)[j],
                    ),
            decreases contents@.len() - i,
        {
            assert(contents@[i as int]@ == byte_views(contents@)[i as int]);
            let h = blake2b(contents[i].as_slice());
            hashes.push(h);
            i = i + 1;
        }
        assert(byte_views(contents@).len() == contents@.len());
        assert(hash_views(hashes@) =~= body_leaves(*self));
        proof {
            law_leaf_contents(*self);
        }
        hashes
    }

    /// The hash of the body: the root of the hash tree over its parts.
    pub fn hash(&self) -> (h: [u8; 32])
        ensures
            h@ == merkle_root(body_leaves(*self)),
    {
        let hashes = self.leaf_hashes();
        root_of_hashes(&hashes)
    }

    /// Whether the body may stand in a block, given what is known of its
    /// transactions and accounts.
    pub fn verify(
        &self,
        transactions: &Vec<TransactionFacts>,
        pruned_accounts: &Vec<AccountFacts>,
    ) -> (ok: bool)
        requires
            transactions@.len() == self.transactions@.len(),
            pruned_accounts@.len() == self.pruned_accounts@.len(),
        ensures
            ok == (transactions_valid(transactions@) && accounts_valid(pruned_accounts@)),
            ok <==> {
                &&& forall|i: int|
                    #![trigger transactions@[i]]
                    0 <= i < transactions@.len() ==> transactions@[i].valid
                        && transactions@[i].in_window
                &&& forall|i: int|
                    #![trigger transactions@[i]]
                    0 < i < transactions@.len() ==> transactions@[i].order == KeyOrder::Less
                &&& forall|j: int|
                    #![trigger pruned_accounts@[j]]
                    0 <= j < pruned_accounts@.len() ==> pruned_accounts@[j].to_be_pruned
                &&& forall|j: int|
                    #![trigger pruned_accounts@[j]]
                    0 < j < pruned_accounts@.len() ==> pruned_accounts@[j].order == KeyOrder::Less
            },
    {
        let mut i: usize = 0;
        while i < self.transactions.len()
            invariant
                i <= transactions@.len(),
                transactions@.len() == self.transactions@.len(),
                transactions_valid(transactions@.take(i as int)),
            decreases transactions@.len() - i,
        {
            let tx = transactions[i];
            let ghost facts = transactions@[i as int];
            // Ensure transactions are ordered and unique.
            if i > 0 {
                match tx.order {
                    KeyOrder::Equal => {
                        assert(facts.order != KeyOrder::Less);
                        return false;
                    },
                    KeyOrder::Greater => {
                        assert(facts.order != KeyOrder::Less);
                        return false;
                    },
                    KeyOrder::Less => {},
                }
            }
            // Check intrinsic transaction invariants.
            if !tx.valid {
                assert(!transactions@[i as int].valid);
                return false;
            }
            // Check that the transaction is within its validity window.
            if !tx.in_window {
                assert(!transactions@[i as int].in_window);
                return false;
            }
            proof {
                lemma_transactions_valid(transactions@, i as int);
            }
            i = i + 1;
        }
        assert(transactions@.take(i as int) =~= transactions@);
        let mut j: usize = 0;
        while j < self.pruned_accounts.len()
            invariant
                j <= pruned_accounts@.len(),
                pruned_accounts@.len() == self.pruned_accounts@.len(),
                accounts_valid(pruned_accounts@.take(j as int)),
            decreases pruned_accounts@.len() - j,
        {
            let acc = pruned_accounts[j];
            // Ensure pruned accounts are ordered and unique.
            if j > 0 {
                match acc.order {
                    KeyOrder::Equal => {
                        assert(pruned_accounts@[j as int].order != KeyOrder::Less);
                        return false;
                    },
                    KeyOrder::Greater => {
                        assert(pruned_accounts@[j as int].order != KeyOrder::Less);
                        return false;
                    },
                    KeyOrder::Less => {},
                }
            }
            // Check that the account is actually supposed to be pruned.
            if !acc.to_be_pruned {
                assert(!pruned_accounts@[j as int].to_be_pruned);
                return false;
            }
            proof {
                lemma_accounts_valid(pruned_accounts@, j as int);
            }
            j = j + 1;
        }
        assert(pruned_accounts@.take(j as int) =~= pruned_accounts@);
        true
    }
}

/// Valid transactions and one more valid one behind them are valid.
proof fn lemma_transactions_valid(facts: Seq<TransactionFacts>, i: int)
    requires
        0 <= i < facts.len(),
        transactions_valid(facts.take(i)),
        i > 0 ==> facts[i].order == KeyOrder::Less,
        facts[i].valid,
        facts[i].in_window,
    ensures
        transactions_valid(facts.take(i + 1)),
{
    assert forall|k: int| 0 <= k < i + 1 implies {
        &&& k > 0 ==> (#[trigger] facts.take(i + 1)[k]).order == KeyOrder::Less
        &&& facts.take(i + 1)[k].valid
        &&& facts.take(i + 1)[k].in_window
    } by {
        if k < i {
            assert(facts.take(i)[k] == facts[k]);
        }
    }
}

/// Valid accounts and one more valid one behind them are valid.
proof fn lemma_accounts_valid(facts: Seq<AccountFacts>, i: int)
    requires
        0 <= i < facts.len(),
        accounts_valid(facts.take(i)),
        i > 0 ==> facts[i].order == KeyOrder::Less,
        facts[i].to_be_pruned,
    ensures
        accounts_valid(facts.take(i + 1)),
{
    assert forall|k: int| 0 <= k < i + 1 implies {
        &&& k > 0 ==> (#[trigger] facts.take(i + 1)[k]).order == KeyOrder::Less
        &&& facts.take(i + 1)[k].to_be_pruned
    } by {
        if k < i {
            assert(facts.take(i)[k] == facts[k]);
        }
    }
}

/// The facts of a body are found valid exactly if every transaction, at every position,
/// is valid and in its window, every account, at every position, is to be pruned, and
/// everything but the first of its kind stands behind the one before it.
pub proof fn law_valid_at_every_position(
    transactions: Seq<TransactionFacts>,
    accounts: Seq<AccountFacts>,
    i: int,
)
    ensures
        transactions_valid(transactions) && 0 <= i < transactions.len() ==> {
            &&& transactions[i].valid
            &&& transactions[i].in_window
            &&& i > 0 ==> transactions[i].order == KeyOrder::Less
        },
        accounts_valid(accounts) && 0 <= i < accounts.len() ==> {
            &&& accounts[i].to_be_pruned
            &&& i > 0 ==> accounts[i].order == KeyOrder::Less
        },
        !transactions_valid(transactions) ==> exists|k: int|
            0 <= k < transactions.len() && {
                ||| !(#[trigger] transactions[k]).valid
                ||| !transactions[k].in_window
                ||| k > 0 && transactions[k].order != KeyOrder::Less
            },
        !accounts_valid(accounts) ==> exists|k: int|
            0 <= k < accounts.len() && {
                ||| !(#[trigger] accounts[k]).to_be_pruned
                ||| k > 0 && accounts[k].order != KeyOrder::Less
            },
{
}

/// The contents under the hash tree of a body: the miner, the extra data, then those of
/// all transactions and of all pruned accounts, each at its own place.
pub proof fn law_leaf_contents(b: BlockBody)
    ensures
        leaf_contents(b).len() == 2 + b.transactions@.len() + b.pruned_accounts@.len(),
        body_leaves(b).len() == 2 + b.transactions@.len() + b.pruned_accounts@.len(),
        leaf_contents(b)[0] == b.miner.bytes@,
        leaf_contents(b)[1] == b.extra_data@,
        body_leaves(b)[0] == blake2b_256(b.miner.bytes@),
        body_leaves(b)[1] == blake2b_256(b.extra_data@),
        forall|i: int|
            #![trigger b.transactions@[i]]
            0 <= i < b.transactions@.len() ==> {
                &&& leaf_contents(b)[2 + i] == b.transactions@[i].content@
                &&& body_leaves(b)[2 + i] == blake2b_256(b.transactions@[i].content@)
            },
        forall|j: int|
            #![trigger b.pruned_accounts@[j]]
            0 <= j < b.pruned_accounts@.len() ==> {
                &&& leaf_contents(b)[2 + b.transactions@.len() + j]
                    == b.pruned_accounts@[j].content@
                &&& body_leaves(b)[2 + b.transactions@.len() + j] == blake2b_256(
                    b.pruned_accounts@[j].content@,
                )
            },
{
}

/// Two bodies with as many transactions and accounts have the same contents under
/// their hash trees only if they agree on the miner, on the extra data and on the
/// content of every one of their items.
pub proof fn law_contents_tell_bodies_apart(a: BlockBody, b: BlockBody)
    requires
        a.transactions@.len() == b.transactions@.len(),
        a.pruned_accounts@.len() == b.pruned_accounts@.len(),
    ensures
        leaf_contents(a) == leaf_contents(b) <==> {
            &&& a.miner.bytes@ == b.miner.bytes@
            &&& a.extra_data@ == b.extra_data@
            &&& forall|i: int|
                #![trigger a.transactions@[i]]
                #![trigger b.transactions@[i]]
                0 <= i < a.transactions@.len() ==> a.transactions@[i].content@
                    == b.transactions@[i].content@
            &&& forall|j: int|
                #![trigger a.pruned_accounts@[j]]
                #![trigger b.pruned_accounts@[j]]
                0 <= j < a.pruned_accounts@.len() ==> a.pruned_accounts@[j].content@
                    == b.pruned_accounts@[j].content@
        },
{
    law_leaf_contents(a);
    law_leaf_contents(b);
    let n = a.transactions@.len() as int;
    if leaf_contents(a) == leaf_contents(b) {
        assert forall|i: int|
            #![trigger a.transactions@[i]]
            #![trigger b.transactions@[i]]
            0 <= i < a.transactions@.len() implies a.transactions@[i].content@
            == b.transactions@[i].content@ by {
            assert(leaf_contents(a)[2 + i] == leaf_contents(b)[2 + i]);
            assert(a.transactions@[i].content@ == leaf_contents(a)[2 + i]);
            assert(b.transactions@[i].content@ == leaf_contents(b)[2 + i]);
        }
        assert forall|j: int|
            #![trigger a.pruned_accounts@[j]]
            #![trigger b.pruned_accounts@[j]]
            0 <= j < a.pruned_accounts@.len() implies a.pruned_accounts@[j].content@
            == b.pruned_accounts@[j].content@ by {
            assert(leaf_contents(a)[2 + n + j] == leaf_contents(b)[2 + n + j]);
            assert(a.pruned_accounts@[j].content@ == leaf_contents(a)[2 + n + j]);
            assert(b.pruned_accounts@[j].content@ == leaf_contents(b)[2 + n + j]);
        }
    } else if a.miner.bytes@ == b.miner.bytes@ && a.extra_data@ == b.extra_data@ && (forall|i: int|
        #![trigger a.transactions@[i]]
        #![trigger b.transactions@[i]]
        0 <= i < a.transactions@.len() ==> a.transactions@[i].content@
            == b.transactions@[i].content@) && (forall|j: int|
        #![trigger a.pruned_accounts@[j]]
        #![trigger b.pruned_accounts@[j]]
        0 <= j < a.pruned_accounts@.len() ==> a.pruned_accounts@[j].content@
            == b.pruned_accounts@[j].content@) {
        assert forall|k: int| 0 <= k < leaf_contents(a).len() implies #[trigger] leaf_contents(a)[k]
            == leaf_contents(b)[k] by {
            if 2 <= k < 2 + n {
                assert(a.transactions@[k - 2].content@ == b.transactions@[k - 2].content@);
            } else if k >= 2 + n {
                assert(a.pruned_accounts@[k - 2 - n].content@ == b.pruned_accounts@[k - 2
                    - n].content@);
            }
        }
        assert(leaf_contents(a) =~= leaf_contents(b));
    }
}

/// The bytes of a body, place by place: the miner, one byte with the number of bytes of
/// extra data, these, two bytes with the number of transactions, the transactions as
/// they are sent, two bytes with the number of accounts, and the accounts as they are
/// sent. Transaction `i` stands from `txs[i]` to `txs[i + 1]`, account `j` from `accs[j]`
/// to `accs[j + 1]`.
pub proof fn law_body_bytes(b: BlockBody, txs: Seq<int>, accs: Seq<int>, i: int, j: int)
    requires
        txs.len() == b.transactions@.len() + 1,
        accs.len() == b.pruned_accounts@.len() + 1,
        txs[0] == 23 + b.extra_data@.len(),
        accs[0] == txs[b.transactions@.len() as int] + 2,
        forall|i: int|
            #![trigger txs[i + 1]]
            0 <= i < b.transactions@.len() ==> txs[i + 1] == txs[i]
                + b.transactions@[i].serialized@.len(),
        forall|j: int|
            #![trigger accs[j + 1]]
            0 <= j < b.pruned_accounts@.len() ==> accs[j + 1] == accs[j]
                + b.pruned_accounts@[j].serialized@.len(),
    ensures
        ({
            let s = body_bytes(b);
            let e = b.extra_data@.len();
            let t = b.transactions@.len();
            let p = b.pruned_accounts@.len();
            &&& s.len() == accs[p as int]
            &&& s.subrange(0, 20) == b.miner.bytes@
            &&& s[20] == e % 256
            &&& s.subrange(21, 21 + e as int) == b.extra_data@
            &&& s[21 + e as int] == (t / 256) % 256
            &&& s[22 + e as int] == t % 256
            &&& s[txs[t as int]] == (p / 256) % 256
            &&& s[txs[t as int] + 1] == p % 256
            &&& 0 <= i < t ==> 23 + e <= txs[i] <= txs[i + 1] <= txs[t as int]
            &&& 0 <= i < t ==> s.subrange(txs[i], txs[i + 1]) == b.transactions@[i].serialized@
            &&& 0 <= j < p ==> accs[0] <= accs[j] <= accs[j + 1] <= accs[p as int]
            &&& 0 <= j < p ==> s.subrange(accs[j], accs[j + 1])
                == b.pruned_accounts@[j].serialized@
        }),
{
    let s = body_bytes(b);
    let e = b.extra_data@.len() as int;
    let t = b.transactions@.len() as int;
    let p = b.pruned_accounts@.len() as int;
    lemma_be_bytes_len(b.extra_data@.len(), 1);
    lemma_be_bytes_len(b.transactions@.len(), 2);
    lemma_be_bytes_len(b.pruned_accounts@.len(), 2);
    lemma_short_be_bytes(b.extra_data@.len());
    lemma_short_be_bytes(b.transactions@.len());
    lemma_short_be_bytes(b.pruned_accounts@.len());
    let tx_part = items_bytes(b.transactions@);
    let acc_part = items_bytes(b.pruned_accounts@);
    lemma_items_bytes(b.transactions@, txs, t);
    lemma_items_bytes(b.pruned_accounts@, accs, p);
    assert(b.transactions@.take(t) =~= b.transactions@);
    assert(b.pruned_accounts@.take(p) =~= b.pruned_accounts@);
    assert(s.len() == accs[p]);
    assert(s[20] == be_bytes(b.extra_data@.len(), 1)[0]);
    assert(s[21 + e] == be_bytes(b.transactions@.len(), 2)[0]);
    assert(s[22 + e] == be_bytes(b.transactions@.len(), 2)[1]);
    assert(s[txs[t]] == be_bytes(b.pruned_accounts@.len(), 2)[0]);
    assert(s[txs[t] + 1] == be_bytes(b.pruned_accounts@.len(), 2)[1]);
    assert(s.subrange(0, 20) =~= b.miner.bytes@);
    assert(s.subrange(21, 21 + e) =~= b.extra_data@);
    if 0 <= i < t {
        lemma_item_place(b.transactions@, txs, i, t);
        assert(s.subrange(txs[i], txs[i + 1]) =~= tx_part.subrange(
            txs[i] - txs[0],
            txs[i + 1] - txs[0],
        ));
    }
    if 0 <= j < p {
        lemma_item_place(b.pruned_accounts@, accs, j, p);
        assert(s.subrange(accs[j], accs[j + 1]) =~= acc_part.subrange(
            accs[j] - accs[0],
            accs[j + 1] - accs[0],
        ));
    }
}

/// One byte and two bytes that spell a number.
proof fn lemma_short_be_bytes(v: nat)
    ensures
        be_bytes(v, 1) == seq![(v % 256) as u8],
        be_bytes(v, 2) == seq![((v / 256) % 256) as u8, (v % 256) as u8],
{
    reveal_with_fuel(be_bytes, 3);
    assert(be_bytes(v, 1) =~= seq![(v % 256) as u8]);
    assert(be_bytes(v / 256, 1) =~= seq![((v / 256) % 256) as u8]);
    assert(be_bytes(v, 2) =~= seq![((v / 256) % 256) as u8, (v % 256) as u8]);
}

/// The bytes of the first `n` items reach up to the place of the next one.
proof fn lemma_items_bytes(items: Seq<BodyItem>, at: Seq<int>, n: int)
    requires
        at.len() == items.len() + 1,
        forall|i: int|
            #![trigger at[i + 1]]
            0 <= i < items.len() ==> at[i + 1] == at[i] + items[i].serialized@.len(),
        0 <= n <= items.len(),
    ensures
        items_bytes(items.take(n)).len() == at[n] - at[0],
    decreases n,
{
    if n > 0 {
        lemma_items_bytes(items, at, n - 1);
        assert(items.take(n).drop_last() =~= items.take(n - 1));
        assert(at[n - 1 + 1] == at[n - 1] + items[n - 1].serialized@.len());
    }
}

/// Among the bytes of the first `n` items, item `i` stands at its place.
proof fn lemma_item_place(items: Seq<BodyItem>, at: Seq<int>, i: int, n: int)
    requires
        at.len() == items.len() + 1,
        forall|i: int|
            #![trigger at[i + 1]]
            0 <= i < items.len() ==> at[i + 1] == at[i] + items[i].serialized@.len(),
        0 <= i < n <= items.len(),
    ensures
        at[0] <= at[i] <= at[i + 1] <= at[n],
        items_bytes(items.take(n)).len() == at[n] - at[0],
        items_bytes(items.take(n)).subrange(at[i] - at[0], at[i + 1] - at[0])
            == items[i].serialized@,
    decreases n,
{
    lemma_items_bytes(items, at, n);
    lemma_items_bytes(items, at, i);
    lemma_items_bytes(items, at, n - 1);
    assert(items.take(n).drop_last() =~= items.take(n - 1));
    let all = items_bytes(items.take(n));
    if i == n - 1 {
        assert(at[i + 1] == at[i] + items[i].serialized@.len());
        assert(all.subrange(at[i] - at[0], at[i + 1] - at[0]) =~= items[i].serialized@);
    } else {
        lemma_item_place(items, at, i, n - 1);
        assert(at[n - 1 + 1] == at[n - 1] + items[n - 1].serialized@.len());
        assert(all.subrange(at[i] - at[0], at[i + 1] - at[0]) =~= items_bytes(
            items.take(n - 1),
        ).subrange(at[i] - at[0], at[i + 1] - at[0]));
    }
}

/// `before` is a strict order.
pub open spec fn strict_order<T>(before: spec_fn(T, T) -> bool) -> bool {
    &&& forall|a: T| !#[trigger] before(a, a)
    &&& forall|a: T, b: T, c: T| #[trigger]
        before(a, b) && #[trigger] before(b, c) ==> before(a, c)
}

/// In a body that was found valid, the transactions are in block order and no two
/// are the same, if the facts tell how neighbours stand in that order.
pub proof fn law_transactions_ordered<T>(
    transactions: Seq<T>,
    facts: Seq<TransactionFacts>,
    before: spec_fn(T, T) -> bool,
    i: int,
    j: int,
)
    requires
        strict_order(before),
        facts.len() == transactions.len(),
        forall|k: int|
            0 < k < facts.len() && (#[trigger] facts[k]).order == KeyOrder::Less ==> before(
                transactions[k - 1],
                transactions[k],
            ),
        transactions_valid(facts),
        0 <= i < j < transactions.len(),
    ensures
        before(transactions[i], transactions[j]),
        transactions[i] != transactions[j],
    decreases j - i,
{
    assert(facts[j].order == KeyOrder::Less);
    if i < j - 1 {
        law_transactions_ordered(transactions, facts, before, i, j - 1);
        assert(before(transactions[i], transactions[j - 1]));
        assert(before(transactions[j - 1], transactions[j]));
    }
}

/// In a body that was found valid, the pruned accounts are in order and no two are
/// the same, if the facts tell how neighbours stand in that order.
pub proof fn law_accounts_ordered<T>(
    accounts: Seq<T>,
    facts: Seq<AccountFacts>,
    before: spec_fn(T, T) -> bool,
    i: int,
    j: int,
)
    requires
        strict_order(before),
        facts.len() == accounts.len(),
        forall|k: int|
            0 < k < facts.len() && (#[trigger] facts[k]).order == KeyOrder::Less ==> before(
                accounts[k - 1],
                accounts[k],
            ),
        accounts_valid(facts),
        0 <= i < j < accounts.len(),
    ensures
        before(accounts[i], accounts[j]),
        accounts[i] != accounts[j],
    decreases j - i,
{
    assert(facts[j].order == KeyOrder::Less);
    if i < j - 1 {
        law_accounts_ordered(accounts, facts, before, i, j - 1);
        assert(before(accounts[i], accounts[j - 1]));
        assert(before(accounts[j - 1], accounts[j]));
    }
}

} // verus!
