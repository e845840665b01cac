//! The wire format of a staking contract.
//!
//! The balance comes first, then the active stakes from the highest balance to
//! the lowest, each with the inactive stake of its staker, then the inactive
//! stakes of all other stakers by address. Each list has its length in front.

use crate::address::Address;
use crate::bls::is_g2_point;
use crate::codec::{
    be_bytes, carried, ends_early, lemma_address_of, lemma_be_bytes_len, lemma_carry_address,
    lemma_carry_coin, lemma_carry_u32, lemma_parse_bytes_written, parse_address, parse_coin,
    parse_u32, put_bytes, put_uint, Parsed,
};
use crate::coin::{check_writable, Coin, MAX_SAFE_VALUE};
use crate::error::SerializingError;
use crate::ledger::{with_stake, Ledger};
use crate::selection::ranked;
use crate::sorted_map::{
    entries_map, lemma_entries_map_agrees, lemma_entries_map_keys, lemma_entries_map_values,
    lemma_listing_exists, lemma_listing_len, listing,
};
use crate::stake::{
    active_stake_bytes, inactive_stake_bytes, lemma_carry_active_stake, lemma_carry_inactive_stake,
    lemma_carry_opt_inactive_stake, lemma_inactive_stake_size, lemma_parse_active_stake_written,
    lemma_parse_coin_written, lemma_parse_inactive_stake_written,
    lemma_parse_opt_inactive_stake_written, lemma_parse_u32_written, opt_inactive_stake_bytes,
    parse_active_stake, parse_inactive_stake, parse_opt_inactive_stake, ActiveStake, InactiveStake,
    StakeKey,
};
use crate::staking_contract::StakingContract;
use crate::totals::amounts_safe;
use vstd::prelude::*;

verus! {

/// An active stake and the inactive stake of the same staker.
pub type StakePair = (ActiveStake, Option<InactiveStake>);

/// The bytes of an active stake with the inactive stake of its staker.
pub open spec fn pair_bytes(p: StakePair) -> Seq<u8> {
    active_stake_bytes(p.0) + opt_inactive_stake_bytes(p.1)
}

/// The bytes of several pairs, one behind the other.
pub open spec fn pairs_bytes(pairs: Seq<StakePair>) -> Seq<u8>
    decreases pairs.len(),
{
    if pairs.len() == 0 {
        Seq::empty()
    } else {
        pairs_bytes(pairs.drop_last()) + pair_bytes(pairs.last())
    }
}

/// The bytes of an inactive stake with the address of its staker.
pub open spec fn entry_bytes(e: (Address, InactiveStake)) -> Seq<u8> {
    e.0.bytes@ + inactive_stake_bytes(e.1)
}

/// The bytes of several inactive stakes, one behind the other.
pub open spec fn entries_bytes(entries: Seq<(Address, InactiveStake)>) -> Seq<u8>
    decreases entries.len(),
{
    if entries.len() == 0 {
        Seq::empty()
    } else {
        entries_bytes(entries.drop_last()) + entry_bytes(entries.last())
    }
}

/// The active stakes of a ledger, highest balance first, each with the inactive
/// stake of its staker.
pub open spec fn stake_pairs(l: Ledger) -> Seq<StakePair> {
    Seq::new(ranked(l).len(), |i: int| (ranked(l)[i], l.inactive.get(ranked(l)[i].staker_address)))
}

/// The inactive stakes of stakers without active stake, by address.
pub open spec fn inactive_only(l: Ledger) -> Seq<(Address, InactiveStake)> {
    listing(l.inactive).filter(|e: (Address, InactiveStake)| !l.by_address.contains_key(e.0))
}

/// The bytes of a contract.
pub open spec fn contract_bytes(l: Ledger) -> Seq<u8> {
    be_bytes(l.balance.lunas as nat, 8) + be_bytes(stake_pairs(l).len(), 4) + pairs_bytes(
        stake_pairs(l),
    ) + be_bytes(inactive_only(l).len(), 4) + entries_bytes(inactive_only(l))
}

/// The amounts of a pair can be written.
pub open spec fn pair_writable(p: StakePair) -> bool {
    p.0.balance.lunas <= MAX_SAFE_VALUE && (p.1 matches Some(s) ==> s.balance.lunas
        <= MAX_SAFE_VALUE)
}

/// All amounts that a contract writes down can be written.
pub open spec fn contract_writable(l: Ledger) -> bool {
    &&& l.balance.lunas <= MAX_SAFE_VALUE
    &&& forall|i: int| 0 <= i < stake_pairs(l).len() ==> pair_writable(#[trigger] stake_pairs(l)[i])
    &&& forall|j: int|
        0 <= j < inactive_only(l).len() ==> (#[trigger] inactive_only(l)[j]).1.balance.lunas
            <= MAX_SAFE_VALUE
}

/// Every validator key on record is a point of the curve.
pub open spec fn keys_on_curve(l: Ledger) -> bool {
    forall|i: int|
        0 <= i < ranked(l).len() ==> is_g2_point((#[trigger] ranked(l)[i]).validator_key@)
}

/// An active stake with the inactive stake of its staker, at the front of `s`.
pub open spec fn parse_pair(s: Seq<u8>) -> Parsed<StakePair> {
    match parse_active_stake(s) {
        Err(e) => Err(e),
        Ok((active, s1)) => match parse_opt_inactive_stake(s1) {
            Err(e) => Err(e),
            Ok((inactive, s2)) => Ok(((active, inactive), s2)),
        },
    }
}

/// An inactive stake with the address of its staker, at the front of `s`.
pub open spec fn parse_entry(s: Seq<u8>) -> Parsed<(Address, InactiveStake)> {
    match parse_address(s) {
        Err(e) => Err(e),
        Ok((address, s1)) => match parse_inactive_stake(s1) {
            Err(e) => Err(e),
            Ok((stake, s2)) => Ok(((address, stake), s2)),
        },
    }
}

/// `n` pairs at the front of `s`.
pub open spec fn parse_pairs(s: Seq<u8>, n: nat) -> Parsed<Seq<StakePair>>
    decreases n,
{
    if n == 0 {
        Ok((Seq::empty(), s))
    } else {
        match parse_pairs(s, (n - 1) as nat) {
            Err(e) => Err(e),
            Ok((pairs, s1)) => match parse_pair(s1) {
                Err(e) => Err(e),
                Ok((pair, s2)) => Ok((pairs.push(pair), s2)),
            },
        }
    }
}

/// `n` inactive stakes with their addresses at the front of `s`.
pub open spec fn parse_entries(s: Seq<u8>, n: nat) -> Parsed<Seq<(Address, InactiveStake)>>
    decreases n,
{
    if n == 0 {
        Ok((Seq::empty(), s))
    } else {
        match parse_entries(s, (n - 1) as nat) {
            Err(e) => Err(e),
            Ok((entries, s1)) => match parse_entry(s1) {
                Err(e) => Err(e),
                Ok((entry, s2)) => Ok((entries.push(entry), s2)),
            },
        }
    }
}

/// The ranked stakes after all of `pairs` went in, in turn.
pub open spec fn ranked_from(pairs: Seq<StakePair>) -> Map<StakeKey, ActiveStake>
    decreases pairs.len(),
{
    if pairs.len() == 0 {
        Map::empty()
    } else {
        with_stake(ranked_from(pairs.drop_last()), pairs.last().0)
    }
}

/// The active stakes under their addresses.
pub open spec fn addressed(pairs: Seq<StakePair>) -> Seq<(Address, ActiveStake)> {
    Seq::new(pairs.len(), |i: int| (pairs[i].0.staker_address, pairs[i].0))
}

/// The inactive stakes that stand with active ones, under their addresses.
pub open spec fn inactive_among(pairs: Seq<StakePair>) -> Seq<(Address, InactiveStake)>
    decreases pairs.len(),
{
    if pairs.len() == 0 {
        Seq::empty()
    } else {
        match pairs.last().1 {
            Some(s) => inactive_among(pairs.drop_last()).push((pairs.last().0.staker_address, s)),
            None => inactive_among(pairs.drop_last()),
        }
    }
}

/// The ledger that was written as this balance and these lists.
pub open spec fn ledger_from(
    balance: Coin,
    pairs: Seq<StakePair>,
    entries: Seq<(Address, InactiveStake)>,
) -> Ledger {
    Ledger {
        balance,
        sorted: ranked_from(pairs),
        by_address: entries_map(addressed(pairs)),
        inactive: entries_map(inactive_among(pairs) + entries),
    }
}

/// A contract at the front of `s`.
pub open spec fn parse_contract(s: Seq<u8>) -> Parsed<Ledger> {
    match parse_coin(s) {
        Err(e) => Err(e),
        Ok((balance, s1)) => match parse_u32(s1) {
            Err(e) => Err(e),
            Ok((n, s2)) => match parse_pairs(s2, n as nat) {
                Err(e) => Err(e),
                Ok((pairs, s3)) => match parse_u32(s3) {
                    Err(e) => Err(e),
                    Ok((m, s4)) => match parse_entries(s4, m as nat) {
                        Err(e) => Err(e),
                        Ok((entries, s5)) => Ok((ledger_from(balance, pairs, entries), s5)),
                    },
                },
            },
        },
    }
}

/// Bytes behind the input do not change what is read of it.
pub proof fn lemma_carry_pair(s: Seq<u8>, t: Seq<u8>)
    ensures
        carried(parse_pair(s), parse_pair(s + t), t),
{
    lemma_carry_active_stake(s, t);
    if let Ok((_, s1)) = parse_active_stake(s) {
        lemma_carry_opt_inactive_stake(s1, t);
    }
}

/// Bytes behind the input do not change what is read of it.
pub proof fn lemma_carry_entry(s: Seq<u8>, t: Seq<u8>)
    ensures
        carried(parse_entry(s), parse_entry(s + t), t),
{
    lemma_carry_address(s, t);
    if let Ok((_, s1)) = parse_address(s) {
        lemma_carry_inactive_stake(s1, t);
    }
}

/// Bytes behind the input do not change what is read of it.
pub proof fn lemma_carry_pairs(s: Seq<u8>, n: nat, t: Seq<u8>)
    ensures
        carried(parse_pairs(s, n), parse_pairs(s + t, n), t),
    decreases n,
{
    if n > 0 {
        lemma_carry_pairs(s, (n - 1) as nat, t);
        if let Ok((_, s1)) = parse_pairs(s, (n - 1) as nat) {
            lemma_carry_pair(s1, t);
        }
    }
}

/// Bytes behind the input do not change what is read of it.
pub proof fn lemma_carry_entries(s: Seq<u8>, n: nat, t: Seq<u8>)
    ensures
        carried(parse_entries(s, n), parse_entries(s + t, n), t),
    decreases n,
{
    if n > 0 {
        lemma_carry_entries(s, (n - 1) as nat, t);
        if let Ok((_, s1)) = parse_entries(s, (n - 1) as nat) {
            lemma_carry_entry(s1, t);
        }
    }
}

/// Bytes behind the input do not change what is read of it.
pub proof fn lemma_carry_contract(s: Seq<u8>, t: Seq<u8>)
    ensures
        carried(parse_contract(s), parse_contract(s + t), t),
{
    lemma_carry_coin(s, t);
    if let Ok((_, s1)) = parse_coin(s) {
        lemma_carry_u32(s1, t);
        if let Ok((n, s2)) = parse_u32(s1) {
            lemma_carry_pairs(s2, n as nat, t);
            if let Ok((_, s3)) = parse_pairs(s2, n as nat) {
                lemma_carry_u32(s3, t);
                if let Ok((m, s4)) = parse_u32(s3) {
                    lemma_carry_entries(s4, m as nat, t);
                }
            }
        }
    }
}

/// Where reading some pairs fails, reading more of them fails alike.
pub proof fn lemma_parse_pairs_error(s: Seq<u8>, m: nat, n: nat)
    requires
        m <= n,
        parse_pairs(s, m) is Err,
    ensures
        parse_pairs(s, n) == parse_pairs(s, m),
    decreases n,
{
    if m < n {
        lemma_parse_pairs_error(s, m, (n - 1) as nat);
    }
}

/// Where reading some entries fails, reading more of them fails alike.
pub proof fn lemma_parse_entries_error(s: Seq<u8>, m: nat, n: nat)
    requires
        m <= n,
        parse_entries(s, m) is Err,
    ensures
        parse_entries(s, n) == parse_entries(s, m),
    decreases n,
{
    if m < n {
        lemma_parse_entries_error(s, m, (n - 1) as nat);
    }
}

impl StakingContract {
    /// The bytes of the contract, unless an amount in it cannot be written; every key
    /// among them is a point of the curve.
    pub fn serialize(&self) -> (r: Result<Vec<u8>, SerializingError>)
        ensures
            match r {
                Ok(out) => {
                    &&& contract_writable(self@)
                    &&& out@ == contract_bytes(self@)
                    &&& keys_on_curve(self@)
                },
                Err(e) => !contract_writable(self@) && e == SerializingError::Overflow,
            },
    {
        match check_writable(self.balance) {
            Ok(()) => {},
            Err(e) => {
                return Err(e);
            },
        }
        let mut out: Vec<u8> = Vec::new();
        put_uint(&mut out, self.balance.lunas, 8);
        let entries = self.active_stake_sorted.entries();
        put_uint(&mut out, entries.len() as u64, 4);
        let ghost l = self@;
        let ghost pairs = stake_pairs(l);
        let ghost head = out@;
        assert(head =~= be_bytes(l.balance.lunas as nat, 8) + be_bytes(pairs.len(), 4));
        let mut i: usize = 0;
        while i < entries.len()
            invariant
                i <= entries@.len(),
                entries@ == listing(l.sorted),
                l == self@,
                pairs == stake_pairs(l),
                out@ == head + pairs_bytes(pairs.take(i as int)),
                forall|j: int|
                    0 <= j < i ==> is_g2_point((#[trigger] ranked(l)[j]).validator_key@),
                forall|j: int| 0 <= j < i ==> pair_writable(#[trigger] pairs[j]),
            decreases entries@.len() - i,
        {
            let active_stake = entries[i].1;
            let inactive_stake = self.inactive_stake_by_address.get(&active_stake.staker_address);
            assert(pairs[i as int] == (active_stake, inactive_stake));
            match active_stake.serialize(&mut out) {
                Ok(()) => {},
                Err(e) => {
                    assert(!pair_writable(pairs[i as int]));
                    return Err(e);
                },
            }
            match InactiveStake::serialize_opt(&inactive_stake, &mut out) {
                Ok(()) => {},
                Err(e) => {
                    assert(!pair_writable(pairs[i as int]));
                    return Err(e);
                },
            }
            assert(pairs.take(i + 1).drop_last() =~= pairs.take(i as int));
            assert(out@ =~= head + pairs_bytes(pairs.take(i + 1)));
            i = i + 1;
        }
        assert(pairs.take(i as int) =~= pairs);
        let others = self.inactive_only();
        put_uint(&mut out, others.len() as u64, 4);
        let ghost rest = inactive_only(l);
        let ghost head2 = out@;
        let mut j: usize = 0;
        while j < others.len()
            invariant
                j <= others@.len(),
                others@ == rest,
                rest == inactive_only(l),
                l == self@,
                out@ == head2 + entries_bytes(rest.take(j as int)),
                forall|k: int|
                    0 <= k < j ==> (#[trigger] rest[k]).1.balance.lunas <= MAX_SAFE_VALUE,
            decreases others@.len() - j,
        {
            put_bytes(&mut out, &others[j].0.bytes);
            match others[j].1.serialize(&mut out) {
                Ok(()) => {},
                Err(e) => {
                    assert(rest[j as int].1.balance.lunas > MAX_SAFE_VALUE);
                    return Err(e);
                },
            }
            assert(rest.take(j + 1).drop_last() =~= rest.take(j as int));
            assert(out@ =~= head2 + entries_bytes(rest.take(j + 1)));
            j = j + 1;
        }
        assert(rest.take(j as int) =~= rest);
        assert(out@ =~= contract_bytes(l));
        Ok(out)
    }

    /// The inactive stakes of stakers without active stake, by address.
    fn inactive_only(&self) -> (r: Vec<(Address, InactiveStake)>)
        ensures
            r@ == inactive_only(self@),
    {
        let ghost l = self@;
        let ghost alone = |e: (Address, InactiveStake)| !l.by_address.contains_key(e.0);
        let entries = self.inactive_stake_by_address.entries();
        let mut r: Vec<(Address, InactiveStake)> = Vec::new();
        let mut i: usize = 0;
        assert(entries@.take(0) =~= Seq::empty());
        proof {
            reveal(Seq::filter);
        }
        assert(r@ =~= entries@.take(0).filter(alone));
        while i < entries.len()
            invariant
                i <= entries@.len(),
                l == self@,
                entries@ == listing(l.inactive),
                alone == (|e: (Address, InactiveStake)| !l.by_address.contains_key(e.0)),
                r@ == entries@.take(i as int).filter(alone),
            decreases entries@.len() - i,
        {
            let e = entries[i];
            proof {
                assert(entries@.take(i + 1) =~= entries@.take(i as int).push(e));
                entries@.take(i as int).lemma_filter_push(e, alone);
            }
            if !self.active_stake_by_address.contains_key(&e.0) {
                r.push(e);
            }
            i = i + 1;
        }
        assert(entries@.take(i as int) =~= entries@);
        r
    }

    /// The number of bytes that `serialize` returns.
    pub fn serialized_size(&self) -> (n: usize)
        requires
            contract_bytes(self@).len() <= usize::MAX,
        ensures
            n == contract_bytes(self@).len(),
    {
        let ghost l = self@;
        let ghost pairs = stake_pairs(l);
        let ghost rest = inactive_only(l);
        let entries = self.active_stake_sorted.entries();
        let others = self.inactive_only();
        proof {
            lemma_be_bytes_len(l.balance.lunas as nat, 8);
            lemma_be_bytes_len(pairs.len(), 4);
            lemma_be_bytes_len(rest.len(), 4);
            lemma_entries_size(rest);
        }
        let mut size: usize = 8 + 4;
        let mut i: usize = 0;
        while i < entries.len()
            invariant
                i <= entries@.len(),
                entries@ == listing(l.sorted),
                l == self@,
                pairs == stake_pairs(l),
                pairs_bytes(pairs).len() + 12 <= usize::MAX,
                size == 12 + pairs_bytes(pairs.take(i as int)).len(),
            decreases entries@.len() - i,
        {
            let active_stake = entries[i].1;
            let inactive_stake = self.inactive_stake_by_address.get(&active_stake.staker_address);
            proof {
                assert(pairs.take(i + 1).drop_last() =~= pairs.take(i as int));
                assert(pairs[i as int] == (active_stake, inactive_stake));
                lemma_pairs_bytes_grow(pairs, i + 1);
            }
            let active_size: usize = active_stake.serialized_size();
            let inactive_size: usize = InactiveStake::serialized_size_opt(&inactive_stake);
            size = size + active_size + inactive_size;
            i = i + 1;
        }
        assert(pairs.take(i as int) =~= pairs);
        size + 4 + 32 * others.len()
    }
}

/// The bytes of the first pairs are no more than those of all.
proof fn lemma_pairs_bytes_grow(pairs: Seq<StakePair>, i: int)
    requires
        0 <= i <= pairs.len(),
    ensures
        pairs_bytes(pairs.take(i)).len() <= pairs_bytes(pairs).len(),
    decreases pairs.len() - i,
{
    if i < pairs.len() {
        assert(pairs.take(i + 1).drop_last() =~= pairs.take(i));
        lemma_pairs_bytes_grow(pairs, i + 1);
    } else {
        assert(pairs.take(i) =~= pairs);
    }
}

/// Each inactive stake with its address takes 32 bytes.
proof fn lemma_entries_size(entries: Seq<(Address, InactiveStake)>)
    ensures
        entries_bytes(entries).len() == 32 * entries.len(),
    decreases entries.len(),
{
    if entries.len() > 0 {
        lemma_entries_size(entries.drop_last());
        lemma_inactive_stake_size(entries.last().1);
    }
}

/// One more pair is read behind those that were.
proof fn lemma_parse_pair_written(s: Seq<u8>, front: Seq<StakePair>, last: StakePair, tail: Seq<u8>)
    requires
        parse_pairs(s, front.len()) == Ok::<(Seq<StakePair>, Seq<u8>), SerializingError>(
            (front, pair_bytes(last) + tail),
        ),
        pair_writable(last),
    ensures
        is_g2_point(last.0.validator_key@) ==> parse_pairs(s, front.len() + 1) == Ok::<
            (Seq<StakePair>, Seq<u8>),
            SerializingError,
        >((front.push(last), tail)),
{
    let t1 = opt_inactive_stake_bytes(last.1) + tail;
    assert(pair_bytes(last) + tail =~= active_stake_bytes(last.0) + t1);
    lemma_parse_active_stake_written(last.0, t1);
    lemma_parse_opt_inactive_stake_written(last.1, tail);
}

/// The keys of all pairs are points of the curve.
spec fn pair_keys_on_curve(pairs: Seq<StakePair>) -> bool {
    forall|i: int| 0 <= i < pairs.len() ==> is_g2_point((#[trigger] pairs[i]).0.validator_key@)
}

/// Reading pairs gives back those written.
proof fn lemma_parse_pairs_written(pairs: Seq<StakePair>, tail: Seq<u8>)
    requires
        forall|i: int| 0 <= i < pairs.len() ==> pair_writable(#[trigger] pairs[i]),
    ensures
        pair_keys_on_curve(pairs) ==> parse_pairs(pairs_bytes(pairs) + tail, pairs.len()) == Ok::<
            (Seq<StakePair>, Seq<u8>),
            SerializingError,
        >((pairs, tail)),
    decreases pairs.len(),
{
    if pairs.len() == 0 {
        assert(pairs_bytes(pairs) + tail =~= tail);
        assert(pairs =~= Seq::empty());
    } else {
        let front = pairs.drop_last();
        let last = pairs.last();
        let t = pair_bytes(last) + tail;
        assert(last == pairs[pairs.len() - 1]);
        assert forall|i: int| 0 <= i < front.len() implies pair_writable(#[trigger] front[i]) by {
            assert(front[i] == pairs[i]);
        }
        lemma_parse_pairs_written(front, t);
        if pair_keys_on_curve(pairs) {
            assert(pair_keys_on_curve(front)) by {
                assert forall|i: int| 0 <= i < front.len() implies is_g2_point(
                    (#[trigger] front[i]).0.validator_key@,
                ) by {
                    assert(front[i] == pairs[i]);
                }
            }
            assert(pairs_bytes(pairs) + tail =~= pairs_bytes(front) + t);
            lemma_parse_pair_written(pairs_bytes(front) + t, front, last, tail);
            assert(front.push(last) =~= pairs);
        }
    }
}

/// Reading inactive stakes gives back those written.
proof fn lemma_parse_entries_written(entries: Seq<(Address, InactiveStake)>, tail: Seq<u8>)
    requires
        forall|i: int|
            0 <= i < entries.len() ==> (#[trigger] entries[i]).1.balance.lunas <= MAX_SAFE_VALUE,
    ensures
        parse_entries(entries_bytes(entries) + tail, entries.len()) == Ok::<
            (Seq<(Address, InactiveStake)>, Seq<u8>),
            SerializingError,
        >((entries, tail)),
    decreases entries.len(),
{
    if entries.len() == 0 {
        assert(entries_bytes(entries) + tail =~= tail);
        assert(entries =~= Seq::empty());
    } else {
        let front = entries.drop_last();
        let last = entries.last();
        let t1 = inactive_stake_bytes(last.1) + tail;
        let t = entry_bytes(last) + tail;
        assert(last == entries[entries.len() - 1]);
        assert forall|i: int| 0 <= i < front.len() implies #[trigger] front[i] == entries[i] by {}
        lemma_parse_entries_written(front, t);
        assert(entries_bytes(entries) + tail =~= entries_bytes(front) + t);
        assert(t =~= last.0.bytes@ + t1);
        lemma_parse_bytes_written(last.0.bytes@, t1);
        lemma_address_of(last.0);
        lemma_parse_inactive_stake_written(last.1, tail);
        assert(front.push((last.0, last.1)) =~= entries);
    }
}

/// Pairs whose stakes all agree with `m` and that name every rank in `m` give
/// `m` back.
proof fn lemma_ranked_from_agrees(pairs: Seq<StakePair>, m: Map<StakeKey, ActiveStake>)
    requires
        forall|i: int|
            0 <= i < pairs.len() ==> m.contains_key((#[trigger] pairs[i]).0.key())
                && m[pairs[i].0.key()] == pairs[i].0,
    ensures
        forall|k: StakeKey| #[trigger]
            ranked_from(pairs).contains_key(k) ==> m.contains_key(k) && ranked_from(pairs)[k]
                == m[k],
        forall|i: int|
            0 <= i < pairs.len() ==> ranked_from(pairs).contains_key((#[trigger] pairs[i]).0.key()),
    decreases pairs.len(),
{
    if pairs.len() > 0 {
        let front = pairs.drop_last();
        assert(pairs.last() == pairs[pairs.len() - 1]);
        assert forall|i: int| 0 <= i < front.len() implies #[trigger] front[i] == pairs[i] by {}
        lemma_ranked_from_agrees(front, m);
        assert forall|k: StakeKey| #[trigger] ranked_from(pairs).contains_key(k) implies m.contains_key(
            k,
        ) && ranked_from(pairs)[k] == m[k] by {
            assert(ranked_from(front).contains_key(k) || k == pairs.last().0.key());
        }
        assert forall|i: int| 0 <= i < pairs.len() implies ranked_from(pairs).contains_key(
            (#[trigger] pairs[i]).0.key(),
        ) by {
            if i < front.len() {
                assert(ranked_from(front).contains_key(front[i].0.key()));
            }
        }
    }
}

/// The inactive stakes among pairs are those of the pairs.
proof fn lemma_inactive_among(pairs: Seq<StakePair>)
    ensures
        forall|j: int|
            0 <= j < inactive_among(pairs).len() ==> exists|i: int|
                #![trigger pairs[i]]
                0 <= i < pairs.len() && pairs[i].0.staker_address == (#[trigger] inactive_among(
                    pairs,
                )[j]).0 && pairs[i].1 == Some(inactive_among(pairs)[j].1),
        forall|i: int|
            0 <= i < pairs.len() && (#[trigger] pairs[i]).1 is Some ==> exists|j: int|
                0 <= j < inactive_among(pairs).len() && (#[trigger] inactive_among(pairs)[j]).0
                    == pairs[i].0.staker_address,
    decreases pairs.len(),
{
    if pairs.len() > 0 {
        let front = pairs.drop_last();
        let n = pairs.len() - 1;
        let all = inactive_among(pairs);
        let some = inactive_among(front);
        assert(pairs.last() == pairs[n]);
        lemma_inactive_among(front);
        assert forall|j: int| 0 <= j < all.len() implies exists|i: int|
            #![trigger pairs[i]]
            0 <= i < pairs.len() && pairs[i].0.staker_address == (#[trigger] all[j]).0
                && pairs[i].1 == Some(all[j].1) by {
            if j < some.len() {
                assert(all[j] == some[j]);
                let i = choose|i: int|
                    #![trigger front[i]]
                    0 <= i < front.len() && front[i].0.staker_address == some[j].0 && front[i].1
                        == Some(some[j].1);
                assert(pairs[i] == front[i]);
            } else {
                assert(pairs[n].1 == Some(all[j].1));
            }
        }
        assert forall|i: int| 0 <= i < pairs.len() && (#[trigger] pairs[i]).1 is Some implies exists|
            j: int,
        |
            0 <= j < all.len() && (#[trigger] all[j]).0 == pairs[i].0.staker_address by {
            if i < n {
                assert(front[i] == pairs[i]);
                let j = choose|j: int|
                    0 <= j < some.len() && (#[trigger] some[j]).0 == front[i].0.staker_address;
                assert(all[j] == some[j]);
            } else {
                assert(all[all.len() - 1].0 == pairs[i].0.staker_address);
            }
        }
    }
}

/// What a filter keeps was in the list.
proof fn lemma_filter_within<A>(s: Seq<A>, pred: spec_fn(A) -> bool, j: int)
    requires
        0 <= j < s.filter(pred).len(),
    ensures
        exists|i: int| 0 <= i < s.len() && #[trigger] s[i] == s.filter(pred)[j],
    decreases s.len(),
{
    reveal(Seq::filter);
    let front = s.drop_last();
    if j < front.filter(pred).len() {
        lemma_filter_within(front, pred, j);
        let i = choose|i: int|
            0 <= i < front.len() && #[trigger] front[i] == front.filter(pred)[j];
        assert(s[i] == front[i]);
    } else {
        assert(s[s.len() - 1] == s.filter(pred)[j]);
    }
}

/// What a consistent ledger writes down about its stakes is all there is.
proof fn lemma_ledger_from_written(l: Ledger)
    requires
        l.consistent(),
    ensures
        ledger_from(l.balance, stake_pairs(l), inactive_only(l)) == l,
{
    let pairs = stake_pairs(l);
    let s = listing(l.sorted);
    lemma_listing_exists(l.sorted);
    lemma_entries_map_keys(s);
    lemma_entries_map_values(s);
    assert forall|i: int| 0 <= i < pairs.len() implies {
        &&& l.sorted.contains_key((#[trigger] pairs[i]).0.key())
        &&& l.sorted[pairs[i].0.key()] == pairs[i].0
        &&& l.by_address.contains_key(pairs[i].0.staker_address)
        &&& l.by_address[pairs[i].0.staker_address] == pairs[i].0
        &&& pairs[i].1 == l.inactive.get(pairs[i].0.staker_address)
    } by {
        assert(l.sorted.contains_key(s[i].0));
        assert(pairs[i].0 == s[i].1);
    }
    lemma_ranked_from_agrees(pairs, l.sorted);
    assert forall|k: StakeKey| #[trigger] l.sorted.contains_key(k) implies exists|i: int|
        0 <= i < pairs.len() && (#[trigger] pairs[i]).0.key() == k by {
        let i = choose|i: int| 0 <= i < s.len() && (#[trigger] s[i]).0 == k;
        assert(pairs[i].0 == s[i].1);
    }
    assert(ranked_from(pairs) =~= l.sorted);
    let named = addressed(pairs);
    assert forall|i: int| 0 <= i < named.len() implies l.by_address.contains_key(
        (#[trigger] named[i]).0,
    ) && l.by_address[named[i].0] == named[i].1 by {
        assert(named[i].1 == pairs[i].0);
    }
    assert forall|a: Address| #[trigger] l.by_address.contains_key(a) implies exists|i: int|
        0 <= i < pairs.len() && (#[trigger] pairs[i]).0.staker_address == a && named[i].0 == a by {
        let k = l.by_address[a].key();
        assert(l.sorted.contains_key(k));
        let i = choose|i: int| 0 <= i < pairs.len() && (#[trigger] pairs[i]).0.key() == k;
        assert(named[i].0 == a);
    }
    lemma_entries_map_agrees(named, l.by_address);
    lemma_inactive_written(l);
}

/// The inactive stakes written with the active ones and those written behind
/// them are all there are.
proof fn lemma_inactive_written(l: Ledger)
    requires
        l.inactive.dom().finite(),
        forall|i: int|
            0 <= i < stake_pairs(l).len() ==> l.by_address.contains_key(
                (#[trigger] stake_pairs(l)[i]).0.staker_address,
            ),
        forall|a: Address| #[trigger]
            l.by_address.contains_key(a) ==> exists|i: int|
                0 <= i < stake_pairs(l).len() && (#[trigger] stake_pairs(l)[i]).0.staker_address
                    == a,
    ensures
        entries_map(inactive_among(stake_pairs(l)) + inactive_only(l)) == l.inactive,
{
    let pairs = stake_pairs(l);
    let near = inactive_among(pairs);
    let far = inactive_only(l);
    let all = near + far;
    let t = listing(l.inactive);
    let alone = |e: (Address, InactiveStake)| !l.by_address.contains_key(e.0);
    assert(far == t.filter(alone));
    lemma_listing_exists(l.inactive);
    lemma_entries_map_keys(t);
    lemma_entries_map_values(t);
    lemma_inactive_among(pairs);
    assert forall|j: int| 0 <= j < all.len() implies l.inactive.contains_key((#[trigger] all[j]).0)
        && l.inactive[all[j].0] == all[j].1 by {
        if j < near.len() {
            assert(all[j] == near[j]);
            let i = choose|i: int|
                #![trigger pairs[i]]
                0 <= i < pairs.len() && pairs[i].0.staker_address == near[j].0 && pairs[i].1
                    == Some(near[j].1);
            assert(pairs[i].1 == l.inactive.get(near[j].0));
        } else {
            assert(all[j] == far[j - near.len()]);
            lemma_filter_within(t, alone, j - near.len());
            let i = choose|i: int| 0 <= i < t.len() && #[trigger] t[i] == far[j - near.len()];
            assert(l.inactive.contains_key(t[i].0));
        }
    }
    assert forall|a: Address| #[trigger] l.inactive.contains_key(a) implies exists|j: int|
        0 <= j < all.len() && (#[trigger] all[j]).0 == a by {
        if l.by_address.contains_key(a) {
            let i = choose|i: int|
                0 <= i < pairs.len() && (#[trigger] pairs[i]).0.staker_address == a;
            assert(pairs[i].1 is Some);
            let j = choose|j: int| 0 <= j < near.len() && (#[trigger] near[j]).0 == a;
            assert(all[j] == near[j]);
        } else {
            let i = choose|i: int| 0 <= i < t.len() && (#[trigger] t[i]).0 == a;
            assert(alone(t[i]));
            t.lemma_filter_contains(alone, i);
            let j = choose|j: int| 0 <= j < far.len() && far[j] == t[i];
            assert(all[near.len() + j] == far[j]);
        }
    }
    lemma_entries_map_agrees(all, l.inactive);
}

/// A contract whose amounts are all within the safe range can be written.
pub proof fn law_safe_contract_is_written(l: Ledger)
    requires
        l.consistent(),
        amounts_safe(l),
    ensures
        contract_writable(l),
{
    let pairs = stake_pairs(l);
    let rest = inactive_only(l);
    let s = listing(l.sorted);
    let t = listing(l.inactive);
    let alone = |e: (Address, InactiveStake)| !l.by_address.contains_key(e.0);
    lemma_listing_exists(l.sorted);
    lemma_listing_exists(l.inactive);
    lemma_entries_map_values(s);
    lemma_entries_map_values(t);
    assert(rest == t.filter(alone));
    assert forall|i: int| 0 <= i < pairs.len() implies pair_writable(#[trigger] pairs[i]) by {
        assert(l.sorted.contains_key(s[i].0));
        assert(pairs[i].0 == s[i].1);
        assert(pairs[i].1 == l.inactive.get(pairs[i].0.staker_address));
        if pairs[i].1 is Some {
            assert(l.inactive.contains_key(pairs[i].0.staker_address));
        }
    }
    assert forall|j: int| 0 <= j < rest.len() implies (#[trigger] rest[j]).1.balance.lunas
        <= MAX_SAFE_VALUE by {
        lemma_filter_within(t, alone, j);
        let i = choose|i: int| 0 <= i < t.len() && #[trigger] t[i] == rest[j];
        assert(l.inactive.contains_key(t[i].0));
    }
}

/// Reading what was written of a contract gives the contract back, whatever
/// stands behind it.
pub proof fn law_contract_round_trip(l: Ledger, tail: Seq<u8>)
    requires
        l.consistent(),
        contract_writable(l),
        l.sorted.dom().len() <= u32::MAX,
        inactive_only(l).len() <= u32::MAX,
    ensures
        keys_on_curve(l) ==> parse_contract(contract_bytes(l) + tail) == Ok::<
            (Ledger, Seq<u8>),
            SerializingError,
        >((l, tail)),
{
    let pairs = stake_pairs(l);
    let rest = inactive_only(l);
    lemma_listing_exists(l.sorted);
    lemma_listing_len(listing(l.sorted));
    if keys_on_curve(l) {
        assert forall|i: int| 0 <= i < pairs.len() implies is_g2_point(
            (#[trigger] pairs[i]).0.validator_key@,
        ) by {
            assert(pairs[i].0 == ranked(l)[i]);
        }
        let t4 = entries_bytes(rest) + tail;
        let t3 = be_bytes(rest.len(), 4) + t4;
        let t2 = pairs_bytes(pairs) + t3;
        let t1 = be_bytes(pairs.len(), 4) + t2;
        assert(contract_bytes(l) + tail =~= be_bytes(l.balance.lunas as nat, 8) + t1);
        lemma_parse_coin_written(l.balance, t1);
        lemma_parse_u32_written(pairs.len() as u32, t2);
        lemma_parse_pairs_written(pairs, t3);
        lemma_parse_u32_written(rest.len() as u32, t4);
        lemma_parse_entries_written(rest, tail);
        lemma_ledger_from_written(l);
    }
}

/// What was written of a contract is not accepted, as this contract or another one,
/// where its end is cut off.
pub proof fn law_contract_cut(l: Ledger, k: int)
    requires
        l.consistent(),
        contract_writable(l),
        l.sorted.dom().len() <= u32::MAX,
        inactive_only(l).len() <= u32::MAX,
        0 <= k < contract_bytes(l).len(),
    ensures
        keys_on_curve(l) ==> ends_early(parse_contract(contract_bytes(l).take(k))),
{
    let b = contract_bytes(l);
    law_contract_round_trip(l, Seq::empty());
    assert(b + Seq::<u8>::empty() =~= b);
    assert(b.take(k) + b.skip(k) =~= b);
    lemma_carry_contract(b.take(k), b.skip(k));
}

} // verus!
