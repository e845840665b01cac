//! What amounts, addresses, orders, numbers in bytes and block heights are.

use crate::address::Address;
use crate::codec::{
    address_of, be_bytes, be_value, ends_early, lemma_address_of, lemma_be_bytes_len,
};
use crate::coin::{added, subtracted, sufficient, writable, Coin, MAX_SAFE_VALUE};
use crate::error::{AccountError, SerializingError, TransactionError};
use crate::ledger::{retire_allowed, revert_stake_allowed, unstake_allowed, Ledger};
use crate::policy::{macro_block_after, unlock_height, Policy};
use crate::sorted_map::{
    lemma_entries_map_keys, lemma_entries_map_values, lemma_listing_exists, lemma_listing_len,
    listing, SortKey,
};
use crate::stake::{ordering_of, ActiveStake, InactiveStake, StakeKey};
use crate::totals::{active_amount, inactive_amount, lemma_sum_insert, sum_of};
use crate::transaction::{proof_signer, signer, total_of, Transaction};
use std::cmp::Ordering;
use vstd::arithmetic::power::pow;
use vstd::prelude::*;
use vstd::std_specs::cmp::{PartialEqSpec, PartialOrdSpec};

verus! {

/// The largest amount of money is two to the power of 53, less one: amounts add up and
/// are written up to there, and not beyond.
pub proof fn law_amounts(a: Coin, b: Coin)
    ensures
        MAX_SAFE_VALUE == 9007199254740991,
        a.lunas + b.lunas <= 9007199254740991 ==> added(a, b) is Ok && added(a, b)->Ok_0.lunas
            == a.lunas + b.lunas,
        a.lunas + b.lunas > 9007199254740991 ==> added(a, b) is Err && added(a, b)->Err_0
            == AccountError::InvalidCoinValue,
        a.lunas >= b.lunas ==> subtracted(a, b) is Ok && subtracted(a, b)->Ok_0.lunas == a.lunas
            - b.lunas,
        a.lunas < b.lunas ==> subtracted(a, b) is Err && subtracted(a, b)->Err_0 == (
        AccountError::InsufficientFunds { needed: b, balance: a }),
        sufficient(a, b) is Ok <==> b.lunas <= a.lunas,
        sufficient(a, b) is Err ==> sufficient(a, b)->Err_0 == (AccountError::InsufficientFunds {
            needed: b,
            balance: a,
        }),
        writable(a) is Ok <==> a.lunas <= 9007199254740991,
        writable(a) is Err ==> writable(a)->Err_0 == SerializingError::Overflow,
{
}

/// The total of a transaction is its value and its fee together, if that is money.
pub proof fn law_total(tx: Transaction)
    ensures
        total_of(tx) is Ok <==> tx.value.lunas + tx.fee.lunas <= 9007199254740991,
        total_of(tx) is Ok ==> total_of(tx)->Ok_0.lunas == tx.value.lunas + tx.fee.lunas,
        total_of(tx) is Err ==> total_of(tx)->Err_0 == TransactionError::Overflow,
{
}

/// Who signed a transaction is the address that its proof, and nothing else of it,
/// leads to.
pub proof fn law_signer(tx: Transaction, a: Address)
    ensures
        proof_signer(tx.proof@) == Ok::<Seq<u8>, bool>(a.bytes@) ==> signer(tx) == Ok::<
            Address,
            AccountError,
        >(a),
        proof_signer(tx.proof@) == Err::<Seq<u8>, bool>(true) ==> signer(tx)
            == Err::<Address, AccountError>(
            AccountError::InvalidSerialization(SerializingError::UnexpectedEnd),
        ),
        proof_signer(tx.proof@) == Err::<Seq<u8>, bool>(false) ==> signer(tx)
            == Err::<Address, AccountError>(
            AccountError::InvalidSerialization(SerializingError::InvalidEncoding),
        ),
{
    lemma_address_of(a);
}

/// An address is told by its bytes.
pub proof fn law_address_of_bytes(a: Address)
    ensures
        address_of(a.bytes@) == a,
{
    lemma_address_of(a);
}

/// Of two addresses that agree before byte `i` and differ there, the one with the
/// smaller byte comes first, and the other does not.
pub proof fn law_address_order(a: Address, b: Address, i: int)
    requires
        0 <= i < 20,
        forall|j: int| 0 <= j < i ==> #[trigger] a.bytes@[j] == b.bytes@[j],
        a.bytes@[i] < b.bytes@[i],
    ensures
        a.before(b),
        !b.before(a),
        a != b,
{
    assert(crate::address::smaller_at(a, b, i));
    if b.before(a) {
        Address::before_transitive(a, b, a);
    }
    Address::before_irreflexive(a);
}

/// Of two ranks the one with the higher balance comes first; of two with the same
/// balance, the one whose address comes first. No rank comes before itself.
pub proof fn law_rank_order(a: StakeKey, b: StakeKey)
    ensures
        a.balance.lunas > b.balance.lunas ==> a.before(b) && !b.before(a),
        a.balance.lunas == b.balance.lunas ==> (a.before(b) <==> a.address.before(b.address)),
        !a.before(a),
{
    StakeKey::before_irreflexive(a);
}

/// The listing of a finite map holds each of its entries, each once and nothing else,
/// in the order of the keys.
pub proof fn law_listing<K: SortKey, V>(m: Map<K, V>)
    requires
        m.dom().finite(),
    ensures
        listing(m).len() == m.dom().len(),
        forall|i: int|
            0 <= i < listing(m).len() ==> m.contains_key((#[trigger] listing(m)[i]).0)
                && m[listing(m)[i].0] == listing(m)[i].1,
        forall|k: K| #[trigger]
            m.contains_key(k) ==> exists|i: int|
                0 <= i < listing(m).len() && (#[trigger] listing(m)[i]).0 == k,
        forall|i: int, j: int|
            0 <= i < j < listing(m).len() ==> (#[trigger] listing(m)[i]).0.before(
                (#[trigger] listing(m)[j]).0,
            ),
{
    lemma_listing_exists(m);
    lemma_listing_len(listing(m));
    lemma_entries_map_keys(listing(m));
    lemma_entries_map_values(listing(m));
}

/// Byte `k` of a number written in `n` bytes is its digit to the base 256 of weight
/// `n - 1 - k`: the most significant comes first.
pub proof fn law_number_in_bytes(v: nat, n: nat, k: int)
    requires
        0 <= k < n,
    ensures
        be_bytes(v, n).len() == n,
        be_bytes(v, n)[k] as int == (v as int / pow(256, (n - 1 - k) as nat)) % 256,
    decreases n,
{
    lemma_be_bytes_len(v, n);
    lemma_be_bytes_len(v / 256, (n - 1) as nat);
    if k == n - 1 {
        vstd::arithmetic::power::lemma_pow0(256);
    } else {
        let e = (n - 2 - k) as nat;
        law_number_in_bytes(v / 256, (n - 1) as nat, k);
        vstd::arithmetic::power::lemma_pow_positive(256, e);
        vstd::arithmetic::div_mod::lemma_div_denominator(v as int, 256, pow(256, e));
        reveal(pow);
        assert(pow(256, (e + 1) as nat) == 256 * pow(256, e));
    }
}

/// What bytes spell: nothing spells zero, and each further byte multiplies by 256 and
/// adds.
pub proof fn law_bytes_as_number(s: Seq<u8>, b: u8)
    ensures
        be_value(Seq::<u8>::empty()) == 0,
        be_value(s.push(b)) == 256 * be_value(s) + b,
{
    assert(s.push(b).drop_last() =~= s);
}

/// Eight bytes written out.
pub proof fn law_eight_bytes(s: Seq<u8>)
    requires
        s.len() == 8,
    ensures
        be_value(s) == s[0] * 0x100_0000_0000_0000 + s[1] * 0x1_0000_0000_0000 + s[2]
            * 0x100_0000_0000 + s[3] * 0x1_0000_0000 + s[4] * 0x100_0000 + s[5] * 0x1_0000 + s[6]
            * 0x100 + s[7],
{
    reveal_with_fuel(be_value, 9);
}

/// What entries add up to: nothing is zero, and an entry under a new address counts by
/// its amount.
pub proof fn law_sum<V>(m: Map<Address, V>, amount: spec_fn(V) -> nat, a: Address, v: V)
    requires
        m.dom().finite(),
    ensures
        sum_of(Map::<Address, V>::empty(), amount) == 0,
        !m.contains_key(a) ==> sum_of(m.insert(a, v), amount) == sum_of(m, amount) + amount(v),
{
    lemma_sum_insert(m, amount, a, v);
}

/// The macro block after a height is the least multiple of the epoch length above it.
pub proof fn law_macro_block(policy: Policy, block_height: u32, m: int)
    requires
        policy.epoch_length > 0,
        m % policy.epoch_length as int == 0,
        block_height < m <= block_height + policy.epoch_length,
    ensures
        macro_block_after(policy, block_height) == m,
{
    let e = policy.epoch_length as int;
    let b = block_height as int;
    vstd::arithmetic::div_mod::lemma_fundamental_div_mod(m, e);
    vstd::arithmetic::div_mod::lemma_fundamental_div_mod(b, e);
    vstd::arithmetic::div_mod::lemma_mod_bound(b, e);
    let q = m / e;
    let p = b / e;
    assert(q == p + 1) by (nonlinear_arith)
        requires
            e > 0,
            m == e * q,
            b == e * p + b % e,
            0 <= b % e < e,
            b < m <= b + e,
    ;
    assert((p + 1) * e == e * q) by (nonlinear_arith)
        requires
            q == p + 1,
    ;
}

/// Stake that was retired at some height is locked until the whole delay has passed
/// after the next macro block, whatever the delay is.
pub proof fn law_unlock_height(policy: Policy, retire_time: u32, m: int)
    requires
        policy.epoch_length > 0,
        m % policy.epoch_length as int == 0,
        retire_time < m <= retire_time + policy.epoch_length,
    ensures
        unlock_height(policy, retire_time) == m + policy.unstake_delay,
{
    law_macro_block(policy, retire_time, m);
}

/// Which stake comes first: the one with the higher balance, and of two with the same
/// balance the one whose address comes first. Stakes are the same in this order, and
/// compare as equal, exactly if balance and address are.
pub proof fn law_stakes_compared(a: ActiveStake, b: ActiveStake)
    ensures
        a.eq_spec(&b) <==> a.balance.lunas == b.balance.lunas && a.staker_address
            == b.staker_address,
        a.partial_cmp_spec(&b) == Some(ordering_of(a.key(), b.key())),
        ordering_of(a.key(), b.key()) == Ordering::Less <==> a.balance.lunas > b.balance.lunas || (
        a.balance.lunas == b.balance.lunas && a.staker_address.before(b.staker_address)),
        ordering_of(a.key(), b.key()) == Ordering::Greater <==> a.balance.lunas < b.balance.lunas
            || (a.balance.lunas == b.balance.lunas && b.staker_address.before(a.staker_address)),
        ordering_of(a.key(), b.key()) == Ordering::Equal <==> a.balance.lunas == b.balance.lunas
            && a.staker_address == b.staker_address,
{
    StakeKey::before_irreflexive(a.key());
    Address::before_total(a.staker_address, b.staker_address);
    Address::before_irreflexive(a.staker_address);
    if a.staker_address.before(b.staker_address) && b.staker_address.before(a.staker_address) {
        Address::before_transitive(a.staker_address, b.staker_address, a.staker_address);
    }
}

/// A read ends early exactly if it fails for want of bytes.
pub proof fn law_early_end<T>(v: T, rest: Seq<u8>, e: SerializingError)
    ensures
        !ends_early(Ok::<(T, Seq<u8>), SerializingError>((v, rest))),
        ends_early(Err::<(T, Seq<u8>), SerializingError>(e)) <==> e
            == SerializingError::UnexpectedEnd,
{
}

/// The steps that take stake out are kept only from taking more than a staker has, where
/// the contract would have it.
pub proof fn law_steps_allowed(l: Ledger, staker: Address, value: Coin)
    ensures
        !revert_stake_allowed(l, staker, value) <==> l.balance.lunas >= value.lunas
            && l.by_address.contains_key(staker) && l.by_address[staker].balance.lunas
            < value.lunas,
        !retire_allowed(l, staker, value) <==> l.balance.lunas >= value.lunas
            && l.by_address.contains_key(staker) && l.by_address[staker].balance.lunas
            < value.lunas,
        !unstake_allowed(l, staker, value) <==> l.balance.lunas >= value.lunas
            && l.inactive.contains_key(staker) && l.inactive[staker].balance.lunas < value.lunas,
{
}

/// A stake counts by its balance. The ledgers that transactions lead to are those whose
/// two views of the active stakes agree and whose balance, which is money, is what all
/// stakes add up to.
pub proof fn law_sound(l: Ledger, s: ActiveStake, t: InactiveStake)
    ensures
        active_amount()(s) == s.balance.lunas,
        inactive_amount()(t) == t.balance.lunas,
        l.sound() <==> {
            &&& l.consistent()
            &&& l.balance.lunas == sum_of(l.by_address, active_amount()) + sum_of(
                l.inactive,
                inactive_amount(),
            )
            &&& l.balance.lunas <= 9007199254740991
        },
{
}

/// The two views of the active stakes agree exactly if each stake stands under its own
/// address and under its own balance and address, the same in both, and all are finite.
pub proof fn law_consistent(l: Ledger)
    ensures
        l.consistent() <==> {
            &&& l.sorted.dom().finite() && l.by_address.dom().finite() && l.inactive.dom().finite()
            &&& forall|a: Address| #[trigger]
                l.by_address.contains_key(a) ==> l.by_address[a].staker_address == a
                    && l.sorted.get(
                    (StakeKey { balance: l.by_address[a].balance, address: a }),
                ) == Some(l.by_address[a])
            &&& forall|k: StakeKey| #[trigger]
                l.sorted.contains_key(k) ==> l.sorted[k].balance == k.balance
                    && l.sorted[k].staker_address == k.address && l.by_address.get(k.address)
                    == Some(l.sorted[k])
        },
{
    if l.consistent() {
        assert forall|a: Address| #[trigger] l.by_address.contains_key(
            a,
        ) implies l.by_address[a].staker_address == a && l.sorted.get(
            (StakeKey { balance: l.by_address[a].balance, address: a }),
        ) == Some(l.by_address[a]) by {
            assert(l.sorted.contains_key(l.by_address[a].key()));
        }
    }
}

} // verus!
