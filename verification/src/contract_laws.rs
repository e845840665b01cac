//! What the bytes of a contract hold and what is made of them, item by item.

use crate::address::Address;
use crate::bls::is_g2_point;
use crate::codec::{be_bytes, be_value, lemma_be_bytes_len, lemma_be_value_of_bytes, lemma_pow256};
use crate::coin::Coin;
use crate::contract_codec::{
    addressed, contract_bytes, contract_writable, entries_bytes, entry_bytes, inactive_among,
    inactive_only, keys_on_curve, ledger_from, pair_bytes, pair_writable, pairs_bytes,
    parse_contract, parse_entries, parse_entry, parse_pair, parse_pairs, ranked_from, stake_pairs,
    StakePair,
};
use crate::error::SerializingError;
use crate::ledger::Ledger;
use crate::selection::ranked;
use crate::sorted_map::{
    ascending, entries_map, lemma_entries_map_keys, lemma_entries_map_values, lemma_listing_exists,
    listing, SortKey,
};
use crate::stake::{active_stake_bytes, opt_inactive_stake_bytes, InactiveStake, StakeKey};
use crate::wire_laws::{law_active_stake_bytes, law_inactive_stake_bytes, law_numbers_read};
use vstd::prelude::*;

verus! {

/// A later entry replaces an earlier one with its key, and there is nothing else.
proof fn lemma_last_entry_wins<K, V>(s: Seq<(K, V)>, k: K, i: int)
    ensures
        0 <= i < s.len() && s[i].0 == k && (forall|j: int|
            i < j < s.len() ==> (#[trigger] s[j]).0 != k) ==> entries_map(s).get(k) == Some(s[i].1),
        (forall|j: int| 0 <= j < s.len() ==> (#[trigger] s[j]).0 != k) ==> entries_map(s).get(k)
            is None,
    decreases s.len(),
{
    lemma_entries_map_keys(s);
    if s.len() > 0 {
        let t = s.drop_last();
        lemma_last_entry_wins(t, k, i);
        if 0 <= i < s.len() && s[i].0 == k && (forall|j: int|
            i < j < s.len() ==> (#[trigger] s[j]).0 != k) {
            if i < s.len() - 1 {
                assert(t[i] == s[i]);
                assert(s.last().0 != k) by {
                    assert(s[s.len() - 1].0 != k);
                }
                assert forall|j: int| i < j < t.len() implies (#[trigger] t[j]).0 != k by {
                    assert(s[j].0 != k);
                }
            }
        }
        if forall|j: int| 0 <= j < s.len() ==> (#[trigger] s[j]).0 != k {
            assert(s[s.len() - 1].0 != k);
            assert forall|j: int| 0 <= j < t.len() implies (#[trigger] t[j]).0 != k by {
                assert(s[j].0 != k);
            }
        }
    }
}

/// The stakes that are written first: all ranked ones in their order, each with the
/// inactive stake of its staker.
pub proof fn law_stake_pairs(l: Ledger, i: int)
    ensures
        stake_pairs(l).len() == ranked(l).len(),
        0 <= i < ranked(l).len() ==> stake_pairs(l)[i].0 == ranked(l)[i] && stake_pairs(l)[i].1
            == l.inactive.get(ranked(l)[i].staker_address),
{
}

/// The stakes that are written last: the inactive ones of exactly those stakers that
/// have no active stake, each once, in the order of the addresses.
pub proof fn law_inactive_only(l: Ledger, a: Address, i: int, j: int)
    requires
        l.inactive.dom().finite(),
    ensures
        0 <= i < inactive_only(l).len() ==> {
            &&& l.inactive.get(inactive_only(l)[i].0) == Some(inactive_only(l)[i].1)
            &&& !l.by_address.contains_key(inactive_only(l)[i].0)
        },
        l.inactive.contains_key(a) && !l.by_address.contains_key(a) ==> exists|k: int|
            0 <= k < inactive_only(l).len() && (#[trigger] inactive_only(l)[k]).0 == a,
        0 <= i < j < inactive_only(l).len() ==> inactive_only(l)[i].0.before(inactive_only(l)[j].0),
{
    let s = listing(l.inactive);
    let p = |e: (Address, InactiveStake)| !l.by_address.contains_key(e.0);
    lemma_listing_exists(l.inactive);
    lemma_entries_map_keys(s);
    lemma_entries_map_values(s);
    lemma_kept_in_order(s, p, i, j);
    assert(inactive_only(l) == s.filter(p));
    if l.inactive.contains_key(a) && !l.by_address.contains_key(a) {
        let m = choose|m: int| 0 <= m < s.len() && (#[trigger] s[m]).0 == a;
        lemma_kept(s, p, m);
    }
}

/// What a filter keeps stands in the list, and keeps its order.
proof fn lemma_kept_in_order<V>(
    s: Seq<(Address, V)>,
    p: spec_fn((Address, V)) -> bool,
    i: int,
    j: int,
)
    requires
        ascending(s),
    ensures
        0 <= i < s.filter(p).len() ==> p(s.filter(p)[i]) && s.contains(s.filter(p)[i]),
        0 <= i < j < s.filter(p).len() ==> s.filter(p)[i].0.before(s.filter(p)[j].0),
    decreases s.len(),
{
    reveal(Seq::filter);
    if s.len() > 0 {
        let t = s.drop_last();
        assert forall|a: int, b: int| 0 <= a < b < t.len() implies (#[trigger] t[a]).0.before(
            (#[trigger] t[b]).0,
        ) by {
            assert(s[a].0.before(s[b].0));
        }
        lemma_kept_in_order(t, p, i, j);
        if 0 <= i < t.filter(p).len() {
            let m = choose|m: int| 0 <= m < t.len() && t[m] == t.filter(p)[i];
            assert(s[m] == t[m]);
            assert(s[m].0.before(s[s.len() - 1].0));
        }
        if p(s.last()) && i == t.filter(p).len() {
            assert(s[s.len() - 1] == s.last());
        }
    }
}

/// What passes a filter is kept.
proof fn lemma_kept<T>(s: Seq<T>, p: spec_fn(T) -> bool, m: int)
    requires
        0 <= m < s.len(),
        p(s[m]),
    ensures
        exists|k: int| 0 <= k < s.filter(p).len() && #[trigger] s.filter(p)[k] == s[m],
    decreases s.len(),
{
    reveal(Seq::filter);
    let t = s.drop_last();
    if m == s.len() - 1 {
        assert(s.filter(p)[t.filter(p).len() as int] == s[m]);
    } else {
        lemma_kept(t, p, m);
        let k = choose|k: int| 0 <= k < t.filter(p).len() && #[trigger] t.filter(p)[k] == t[m];
        assert(s.filter(p)[k] == s[m]);
    }
}

/// A contract can be written exactly if its balance and every amount that it writes
/// down are at most the greatest safe one.
pub proof fn law_contract_writable(l: Ledger)
    ensures
        contract_writable(l) <==> {
            &&& l.balance.lunas <= 9007199254740991
            &&& forall|i: int|
                0 <= i < ranked(l).len() ==> (#[trigger] ranked(l)[i]).balance.lunas
                    <= 9007199254740991
            &&& forall|i: int|
                0 <= i < ranked(l).len() && l.inactive.contains_key(
                    (#[trigger] ranked(l)[i]).staker_address,
                ) ==> l.inactive[ranked(l)[i].staker_address].balance.lunas <= 9007199254740991
            &&& forall|j: int|
                0 <= j < inactive_only(l).len() ==> (#[trigger] inactive_only(l)[j]).1.balance.lunas
                    <= 9007199254740991
        },
        keys_on_curve(l) <==> forall|i: int|
            0 <= i < ranked(l).len() ==> is_g2_point((#[trigger] ranked(l)[i]).validator_key@),
{
    assert forall|i: int| 0 <= i < ranked(l).len() implies (#[trigger] stake_pairs(l)[i]).0
        == ranked(l)[i] && stake_pairs(l)[i].1 == l.inactive.get(ranked(l)[i].staker_address) by {
    }
    if contract_writable(l) {
        assert forall|i: int| 0 <= i < ranked(l).len() implies (
        #[trigger] ranked(l)[i]).balance.lunas <= 9007199254740991 && (l.inactive.contains_key(
            ranked(l)[i].staker_address,
        ) ==> l.inactive[ranked(l)[i].staker_address].balance.lunas <= 9007199254740991) by {
            assert(pair_writable(stake_pairs(l)[i]));
        }
    }
}

/// The bytes of a contract, place by place: 8 that spell the balance, 4 for the number of
/// ranked stakes, each of these at its place with the inactive stake of its staker,
/// stake `i` from `at[i]` to `at[i + 1]`, then 4 for the number of the other inactive
/// stakes, and each of these in 32 bytes.
pub proof fn law_contract_bytes(l: Ledger, at: Seq<int>, i: int, j: int)
    requires
        at.len() == ranked(l).len() + 1,
        at[0] == 12,
        forall|k: int|
            #![trigger at[k + 1]]
            0 <= k < ranked(l).len() ==> at[k + 1] == at[k] + (if ranked(l)[k].reward_address
                is Some {
                145int
            } else {
                125int
            }) + (if l.inactive.contains_key(ranked(l)[k].staker_address) {
                13int
            } else {
                1int
            }),
    ensures
        ({
            let b = contract_bytes(l);
            let n = ranked(l).len() as int;
            let m = inactive_only(l).len() as int;
            let q = at[n] + 4;
            &&& b.len() == q + 32 * m
            &&& be_value(b.subrange(0, 8)) == l.balance.lunas
            &&& b.subrange(8, 12) == be_bytes(ranked(l).len(), 4)
            &&& 0 <= i < n ==> 12 <= at[i] <= at[i + 1] <= at[n] && b.subrange(at[i], at[i + 1])
                == active_stake_bytes(ranked(l)[i]) + opt_inactive_stake_bytes(
                l.inactive.get(ranked(l)[i].staker_address),
            )
            &&& b.subrange(at[n], q) == be_bytes(inactive_only(l).len(), 4)
            &&& 0 <= j < m ==> b.subrange(q + 32 * j, q + 32 * j + 32) == entry_bytes(
                inactive_only(l)[j],
            )
        }),
{
    let b = contract_bytes(l);
    let pairs = stake_pairs(l);
    let rest = inactive_only(l);
    let n = pairs.len() as int;
    let m = rest.len() as int;
    let q = at[n] + 4;
    let first = pairs_bytes(pairs);
    let second = entries_bytes(rest);
    lemma_be_bytes_len(l.balance.lunas as nat, 8);
    lemma_pow256();
    lemma_be_value_of_bytes(l.balance.lunas as nat, 8);
    lemma_be_bytes_len(pairs.len(), 4);
    lemma_be_bytes_len(rest.len(), 4);
    assert(pairs.take(n) =~= pairs);
    assert(rest.take(m) =~= rest);
    assert forall|k: int|
        #![trigger at[k + 1]]
        0 <= k < pairs.len() implies at[k + 1] == at[k] + pair_bytes(pairs[k]).len() by {
        lemma_pair_size(pairs[k]);
    }
    lemma_pair_place(pairs, at, i, n);
    lemma_entry_place(rest, j, m);
    assert(b.subrange(0, 8) =~= be_bytes(l.balance.lunas as nat, 8));
    assert(b.subrange(8, 12) =~= be_bytes(pairs.len(), 4));
    assert(b.subrange(at[n], q) =~= be_bytes(rest.len(), 4));
    if 0 <= i < n {
        assert(b.subrange(at[i], at[i + 1]) =~= first.subrange(at[i] - at[0], at[i + 1] - at[0]));
    }
    if 0 <= j < m {
        assert(b.subrange(q + 32 * j, q + 32 * j + 32) =~= second.subrange(32 * j, 32 * j + 32));
    }
}

/// How many bytes a stake takes with the inactive one of its staker.
proof fn lemma_pair_size(p: StakePair)
    ensures
        pair_bytes(p).len() == (if p.0.reward_address is Some {
            145int
        } else {
            125int
        }) + (if p.1 is Some {
            13int
        } else {
            1int
        }),
{
    law_active_stake_bytes(p.0);
    if let Some(v) = p.1 {
        law_inactive_stake_bytes(v);
    }
}

/// Among the bytes of the first `n` pairs, pair `i` stands at its place.
proof fn lemma_pair_place(pairs: Seq<StakePair>, at: Seq<int>, i: int, n: int)
    requires
        at.len() == pairs.len() + 1,
        forall|k: int|
            #![trigger at[k + 1]]
            0 <= k < pairs.len() ==> at[k + 1] == at[k] + pair_bytes(pairs[k]).len(),
        0 <= n <= pairs.len(),
    ensures
        pairs_bytes(pairs.take(n)).len() == at[n] - at[0],
        0 <= i < n ==> at[0] <= at[i] <= at[i + 1] <= at[n] && pairs_bytes(pairs.take(n)).subrange(
            at[i] - at[0],
            at[i + 1] - at[0],
        ) == pair_bytes(pairs[i]),
    decreases n,
{
    let all = pairs_bytes(pairs.take(n));
    if n > 0 {
        lemma_pair_place(pairs, at, i, n - 1);
        assert(pairs.take(n).drop_last() =~= pairs.take(n - 1));
        assert(at[n - 1 + 1] == at[n - 1] + pair_bytes(pairs[n - 1]).len());
        if i == n - 1 {
            assert(all.subrange(at[i] - at[0], at[i + 1] - at[0]) =~= pair_bytes(pairs[i]));
        } else if 0 <= i < n {
            assert(all.subrange(at[i] - at[0], at[i + 1] - at[0]) =~= pairs_bytes(
                pairs.take(n - 1),
            ).subrange(at[i] - at[0], at[i + 1] - at[0]));
        }
    }
}

/// Among the bytes of the first `n` entries, entry `i` takes the 32 at its place.
proof fn lemma_entry_place(entries: Seq<(Address, InactiveStake)>, i: int, n: int)
    requires
        0 <= n <= entries.len(),
    ensures
        entries_bytes(entries.take(n)).len() == 32 * n,
        0 <= i < n ==> entries_bytes(entries.take(n)).subrange(32 * i, 32 * i + 32) == entry_bytes(
            entries[i],
        ),
    decreases n,
{
    let all = entries_bytes(entries.take(n));
    if n > 0 {
        let e = entries[n - 1];
        lemma_entry_place(entries, i, n - 1);
        law_inactive_stake_bytes(e.1);
        assert(entries.take(n).drop_last() =~= entries.take(n - 1));
        if i == n - 1 {
            assert(all.subrange(32 * i, 32 * i + 32) =~= entry_bytes(e));
        } else if 0 <= i < n {
            assert(all.subrange(32 * i, 32 * i + 32) =~= entries_bytes(
                entries.take(n - 1),
            ).subrange(32 * i, 32 * i + 32));
        }
    }
}

/// Reading several stakes: none takes no bytes, one more is read from what the ones
/// before it leave, and the first that cannot be read decides.
pub proof fn law_stakes_read(s: Seq<u8>, n: nat)
    ensures
        parse_pairs(s, 0) == Ok::<(Seq<StakePair>, Seq<u8>), SerializingError>((Seq::empty(), s)),
        parse_pairs(s, n) matches Err(e) ==> parse_pairs(s, n + 1) == Err::<
            (Seq<StakePair>, Seq<u8>),
            SerializingError,
        >(e),
        parse_pairs(s, n) matches Ok((pairs, t)) ==> {
            &&& pairs.len() == n
            &&& parse_pair(t) matches Err(e) ==> parse_pairs(s, n + 1) == Err::<
                (Seq<StakePair>, Seq<u8>),
                SerializingError,
            >(e)
            &&& parse_pair(t) matches Ok((pair, u)) ==> parse_pairs(s, n + 1) == Ok::<
                (Seq<StakePair>, Seq<u8>),
                SerializingError,
            >((pairs.push(pair), u))
        },
        parse_entries(s, 0) == Ok::<(Seq<(Address, InactiveStake)>, Seq<u8>), SerializingError>(
            (Seq::empty(), s),
        ),
        parse_entries(s, n) matches Err(e) ==> parse_entries(s, n + 1) == Err::<
            (Seq<(Address, InactiveStake)>, Seq<u8>),
            SerializingError,
        >(e),
        parse_entries(s, n) matches Ok((entries, t)) ==> {
            &&& entries.len() == n
            &&& parse_entry(t) matches Err(e) ==> parse_entries(s, n + 1) == Err::<
                (Seq<(Address, InactiveStake)>, Seq<u8>),
                SerializingError,
            >(e)
            &&& parse_entry(t) matches Ok((entry, u)) ==> parse_entries(s, n + 1) == Ok::<
                (Seq<(Address, InactiveStake)>, Seq<u8>),
                SerializingError,
            >((entries.push(entry), u))
        },
    decreases n,
{
    if n > 0 {
        law_stakes_read(s, (n - 1) as nat);
    }
}

/// Reading a contract: 8 bytes that spell the balance, 4 that spell how many active
/// stakes follow, these, 4 that spell how many inactive ones follow, and these. The
/// first part that cannot be read decides. `n` and `m` are the two numbers.
pub proof fn law_contract_read(s: Seq<u8>, n: nat, m: nat)
    ensures
        ({
            let r = parse_contract(s);
            let safe = be_value(s.subrange(0, 8)) <= 9007199254740991;
            &&& s.len() < 8 ==> r is Err && r->Err_0 == SerializingError::UnexpectedEnd
            &&& s.len() >= 8 && !safe ==> r is Err && r->Err_0 == SerializingError::Overflow
            &&& 8 <= s.len() < 12 && safe ==> r is Err && r->Err_0
                == SerializingError::UnexpectedEnd
            &&& s.len() >= 12 && safe && n == 0x100_0000 * s[8] + 0x1_0000 * s[9] + 0x100 * s[10]
                + s[11] ==> {
                &&& parse_pairs(s.skip(12), n) matches Err(e) ==> r is Err && r->Err_0 == e
                &&& parse_pairs(s.skip(12), n) matches Ok((pairs, t)) ==> {
                    &&& t.len() < 4 ==> r is Err && r->Err_0 == SerializingError::UnexpectedEnd
                    &&& t.len() >= 4 && m == 0x100_0000 * t[0] + 0x1_0000 * t[1] + 0x100 * t[2]
                        + t[3] ==> {
                        &&& parse_entries(t.skip(4), m) matches Err(e) ==> r is Err && r->Err_0 == e
                        &&& parse_entries(t.skip(4), m) matches Ok((entries, u)) ==> r is Ok
                            && r->Ok_0.1 == u && r->Ok_0.0.balance.lunas == be_value(
                            s.subrange(0, 8),
                        ) && r->Ok_0.0 == ledger_from(r->Ok_0.0.balance, pairs, entries)
                    }
                }
            }
        }),
{
    law_numbers_read(s);
    if s.len() >= 8 {
        assert(s.take(8) =~= s.subrange(0, 8));
        law_numbers_read(s.skip(8));
        if s.len() >= 12 {
            assert(s.skip(8).skip(4) =~= s.skip(12));
            if let Ok((pairs, t)) = parse_pairs(s.skip(12), n) {
                law_numbers_read(t);
            }
        }
    }
}

/// The ledger that is made of what was read. Under an address stands the last active
/// stake with it. Under a rank stands the first active stake with that balance and
/// address. An inactive stake is that of the last entry with its address, and without
/// one, that of the last pair with this address that has one. There is nothing else.
pub proof fn law_ledger_from(
    balance: Coin,
    pairs: Seq<StakePair>,
    entries: Seq<(Address, InactiveStake)>,
    a: Address,
    k: StakeKey,
    i: int,
)
    ensures
        ({
            let l = ledger_from(balance, pairs, entries);
            &&& l.balance == balance
            &&& 0 <= i < pairs.len() && pairs[i].0.staker_address == a && (forall|j: int|
                i < j < pairs.len() ==> (#[trigger] pairs[j]).0.staker_address != a)
                ==> l.by_address.get(a) == Some(pairs[i].0)
            &&& (forall|j: int|
                0 <= j < pairs.len() ==> (#[trigger] pairs[j]).0.staker_address != a)
                ==> l.by_address.get(a) is None
            &&& 0 <= i < pairs.len() && pairs[i].0.balance == k.balance
                && pairs[i].0.staker_address == k.address && (forall|j: int|
                0 <= j < i ==> (#[trigger] pairs[j]).0.balance != k.balance
                    || pairs[j].0.staker_address != k.address) ==> l.sorted.get(k) == Some(
                pairs[i].0,
            )
            &&& (forall|j: int|
                0 <= j < pairs.len() ==> (#[trigger] pairs[j]).0.balance != k.balance
                    || pairs[j].0.staker_address != k.address) ==> l.sorted.get(k) is None
            &&& 0 <= i < entries.len() && entries[i].0 == a && (forall|j: int|
                i < j < entries.len() ==> (#[trigger] entries[j]).0 != a) ==> l.inactive.get(a)
                == Some(entries[i].1)
            &&& (forall|j: int| 0 <= j < entries.len() ==> (#[trigger] entries[j]).0 != a) && 0 <= i
                < pairs.len() && pairs[i].0.staker_address == a && pairs[i].1 is Some && (forall|
                j: int,
            |
                i < j < pairs.len() && (#[trigger] pairs[j]).0.staker_address == a ==> pairs[j].1
                    is None) ==> l.inactive.get(a) == pairs[i].1
            &&& (forall|j: int| 0 <= j < entries.len() ==> (#[trigger] entries[j]).0 != a) && (
            forall|j: int|
                0 <= j < pairs.len() && (#[trigger] pairs[j]).0.staker_address == a ==> pairs[j].1
                    is None) ==> l.inactive.get(a) is None
        }),
{
    lemma_addressed(pairs, a, i);
    lemma_first_rank_wins(pairs, k, i);
    lemma_inactive_stakes(pairs, entries, a, i);
}

/// Under an address stands the last active stake with it.
proof fn lemma_addressed(pairs: Seq<StakePair>, a: Address, i: int)
    ensures
        0 <= i < pairs.len() && pairs[i].0.staker_address == a && (forall|j: int|
            i < j < pairs.len() ==> (#[trigger] pairs[j]).0.staker_address != a) ==> entries_map(
            addressed(pairs),
        ).get(a) == Some(pairs[i].0),
        (forall|j: int| 0 <= j < pairs.len() ==> (#[trigger] pairs[j]).0.staker_address != a)
            ==> entries_map(addressed(pairs)).get(a) is None,
{
    let s = addressed(pairs);
    lemma_last_entry_wins(s, a, i);
    assert forall|j: int| 0 <= j < s.len() implies (#[trigger] s[j]).0
        == pairs[j].0.staker_address && s[j].1 == pairs[j].0 by {
    }
}

/// Under a rank stands the first active stake with it.
proof fn lemma_first_rank_wins(pairs: Seq<StakePair>, k: StakeKey, i: int)
    ensures
        0 <= i < pairs.len() && pairs[i].0.balance == k.balance && pairs[i].0.staker_address
            == k.address && (forall|j: int|
            0 <= j < i ==> (#[trigger] pairs[j]).0.balance != k.balance
                || pairs[j].0.staker_address != k.address) ==> ranked_from(pairs).get(k) == Some(
            pairs[i].0,
        ),
        (forall|j: int|
            0 <= j < pairs.len() ==> (#[trigger] pairs[j]).0.balance != k.balance
                || pairs[j].0.staker_address != k.address) ==> ranked_from(pairs).get(k) is None,
    decreases pairs.len(),
{
    if pairs.len() > 0 {
        let t = pairs.drop_last();
        let n = t.len() as int;
        lemma_first_rank_wins(t, k, i);
        assert(pairs.last() == pairs[n]);
        let fresh = forall|j: int|
            0 <= j < n ==> (#[trigger] t[j]).0.balance != k.balance || t[j].0.staker_address
                != k.address;
        if 0 <= i < pairs.len() && pairs[i].0.balance == k.balance && pairs[i].0.staker_address
            == k.address && (forall|j: int|
            0 <= j < i ==> (#[trigger] pairs[j]).0.balance != k.balance
                || pairs[j].0.staker_address != k.address) {
            if i == n {
                assert forall|j: int| 0 <= j < n implies (#[trigger] t[j]).0.balance != k.balance
                    || t[j].0.staker_address != k.address by {
                    assert(t[j] == pairs[j]);
                }
                assert(fresh);
                assert(pairs[i].0.key() == k);
            } else {
                assert(t[i] == pairs[i]);
                assert forall|j: int| 0 <= j < i implies (#[trigger] t[j]).0.balance != k.balance
                    || t[j].0.staker_address != k.address by {
                    assert(t[j] == pairs[j]);
                }
            }
        }
        if forall|j: int|
            0 <= j < pairs.len() ==> (#[trigger] pairs[j]).0.balance != k.balance
                || pairs[j].0.staker_address != k.address {
            assert forall|j: int| 0 <= j < n implies (#[trigger] t[j]).0.balance != k.balance
                || t[j].0.staker_address != k.address by {
                assert(t[j] == pairs[j]);
            }
            assert(pairs[n].0.key() != k);
        }
    }
}

/// An inactive stake is that of the last entry with its address, else that of the last
/// pair with this address that has one.
proof fn lemma_inactive_stakes(
    pairs: Seq<StakePair>,
    entries: Seq<(Address, InactiveStake)>,
    a: Address,
    i: int,
)
    ensures
        ({
            let m = entries_map(inactive_among(pairs) + entries);
            &&& 0 <= i < entries.len() && entries[i].0 == a && (forall|j: int|
                i < j < entries.len() ==> (#[trigger] entries[j]).0 != a) ==> m.get(a) == Some(
                entries[i].1,
            )
            &&& (forall|j: int| 0 <= j < entries.len() ==> (#[trigger] entries[j]).0 != a) && 0 <= i
                < pairs.len() && pairs[i].0.staker_address == a && pairs[i].1 is Some && (forall|
                j: int,
            |
                i < j < pairs.len() && (#[trigger] pairs[j]).0.staker_address == a ==> pairs[j].1
                    is None) ==> m.get(a) == pairs[i].1
            &&& (forall|j: int| 0 <= j < entries.len() ==> (#[trigger] entries[j]).0 != a) && (
            forall|j: int|
                0 <= j < pairs.len() && (#[trigger] pairs[j]).0.staker_address == a ==> pairs[j].1
                    is None) ==> m.get(a) is None
        }),
    decreases pairs.len() + entries.len(),
{
    let all = inactive_among(pairs) + entries;
    let m = entries_map(all);
    if entries.len() > 0 {
        let n = entries.len() - 1;
        let t = entries.drop_last();
        assert(all.drop_last() =~= inactive_among(pairs) + t);
        assert(all.last() == entries[n]);
        assert forall|j: int| 0 <= j < n implies #[trigger] t[j] == entries[j] by {
        }
        lemma_inactive_stakes(pairs, t, a, i);
        if 0 <= i < n && entries[i].0 == a && (forall|j: int|
            i < j < entries.len() ==> (#[trigger] entries[j]).0 != a) {
            assert(t[i] == entries[i]);
            assert(entries[n].0 != a);
            assert forall|j: int| i < j < t.len() implies (#[trigger] t[j]).0 != a by {
                assert(entries[j].0 != a);
            }
        }
        if forall|j: int| 0 <= j < entries.len() ==> (#[trigger] entries[j]).0 != a {
            assert(entries[n].0 != a);
            assert forall|j: int| 0 <= j < t.len() implies (#[trigger] t[j]).0 != a by {
                assert(entries[j].0 != a);
            }
        }
    } else {
        assert(all =~= inactive_among(pairs));
        if pairs.len() > 0 {
            let n = pairs.len() - 1;
            let t = pairs.drop_last();
            assert(inactive_among(t) + entries =~= inactive_among(t));
            assert(pairs.last() == pairs[n]);
            assert forall|j: int| 0 <= j < n implies #[trigger] t[j] == pairs[j] by {
            }
            lemma_inactive_stakes(t, entries, a, i);
            if let Some(x) = pairs[n].1 {
                assert(all.drop_last() =~= inactive_among(t));
            }
            if 0 <= i < n && pairs[i].0.staker_address == a && pairs[i].1 is Some && (forall|j: int|
                i < j < pairs.len() && (#[trigger] pairs[j]).0.staker_address == a ==> pairs[j].1
                    is None) {
                assert(t[i] == pairs[i]);
                assert(pairs[n].0.staker_address == a ==> pairs[n].1 is None);
                assert forall|j: int|
                    i < j < t.len() && (#[trigger] t[j]).0.staker_address == a implies t[j].1
                    is None by {
                    assert(pairs[j].0.staker_address == a);
                }
            }
            if forall|j: int|
                0 <= j < pairs.len() && (#[trigger] pairs[j]).0.staker_address == a ==> pairs[j].1
                    is None {
                assert(pairs[n].0.staker_address == a ==> pairs[n].1 is None);
                assert forall|j: int|
                    0 <= j < t.len() && (#[trigger] t[j]).0.staker_address == a implies t[j].1
                    is None by {
                    assert(pairs[j].0.staker_address == a);
                }
            }
        }
    }
}

} // verus!
