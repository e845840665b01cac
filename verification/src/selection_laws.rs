//! What holds of every selection of validators.

use crate::address::Address;
use crate::base_laws::{law_address_order, law_eight_bytes};
use crate::codec::{be_bytes, be_value, lemma_be_bytes_of_value};
use crate::hash::blake2b_256;
use crate::ledger::Ledger;
use crate::selection::{
    cutoff, draw, drawable, drawn_address, draws_of, draws_possible, is_drawn_set,
    lemma_cutoff_exists, lemma_stake_sum_grows, lemma_stake_sum_prefix, lemma_weights_sum,
    min_required, n_considered, n_picked, potential_validators, qualifies, ranked, selected,
    selection_allowed, stake_sum, weights_of, ValidatorSet,
};
use crate::sorted_map::{
    entries_map, lemma_ascending_drop_last, lemma_entries_map_keys, lemma_entries_map_values,
    lemma_listing, lemma_listing_exists, listing, SortKey,
};
use crate::stake::ActiveStake;
use crate::totals::{active_amount, lemma_sum_split};
use crate::weighted_lookup::{covers, lemma_owner_exists, lemma_owner_unique, offset, owner};
use vstd::prelude::*;

verus! {

/// The ranked stakes of a consistent ledger are its active stakes, each once, from
/// the highest balance to the lowest, and they add up to all that is active.
pub proof fn law_ranked(l: Ledger)
    requires
        l.consistent(),
    ensures
        ranked(l).len() == l.by_address.dom().len(),
        stake_sum(ranked(l), ranked(l).len() as int) == l.active_total(),
        forall|i: int|
            0 <= i < ranked(l).len() ==> l.by_address.get(
                (#[trigger] ranked(l)[i]).staker_address,
            ) == Some(ranked(l)[i]),
        forall|i: int, j: int|
            0 <= i < j < ranked(l).len() ==> (#[trigger] ranked(l)[i]).balance.lunas >= (
            #[trigger] ranked(l)[j]).balance.lunas,
        forall|a: Address| #[trigger]
            l.by_address.contains_key(a) ==> exists|i: int|
                0 <= i < ranked(l).len() && #[trigger] ranked(l)[i] == l.by_address[a],
    decreases ranked(l).len(),
{
    let s = listing(l.sorted);
    lemma_listing_exists(l.sorted);
    lemma_entries_map_keys(s);
    lemma_entries_map_values(s);
    assert forall|i: int| 0 <= i < ranked(l).len() implies l.by_address.get(
        (#[trigger] ranked(l)[i]).staker_address,
    ) == Some(ranked(l)[i]) by {
        assert(l.sorted.contains_key(s[i].0));
    }
    assert forall|i: int, j: int| 0 <= i < j < ranked(l).len() implies (
    #[trigger] ranked(l)[i]).balance.lunas >= (#[trigger] ranked(l)[j]).balance.lunas by {
        assert(l.sorted.contains_key(s[i].0));
        assert(l.sorted.contains_key(s[j].0));
        assert(s[i].0.before(s[j].0));
    }
    assert forall|a: Address| #[trigger] l.by_address.contains_key(a) implies exists|i: int|
        0 <= i < ranked(l).len() && #[trigger] ranked(l)[i] == l.by_address[a] by {
        let k = l.by_address[a].key();
        assert(l.sorted.contains_key(k));
        let i = choose|i: int| 0 <= i < s.len() && (#[trigger] s[i]).0 == k;
        assert(ranked(l)[i] == l.by_address[a]);
    }
    if s.len() == 0 {
        assert(l.by_address.dom() =~= Set::empty()) by {
            assert forall|a: Address| !l.by_address.dom().contains(a) by {
                if l.by_address.contains_key(a) {
                    assert(l.sorted.contains_key(l.by_address[a].key()));
                }
            }
        }
    } else {
        let n = s.len() - 1;
        let last = ranked(l)[n];
        let staker = last.staker_address;
        assert(l.sorted.contains_key(s[n].0));
        let m = l.dropping(staker, last);
        crate::laws::lemma_dropping(l, staker);
        lemma_ascending_drop_last(s);
        assert(entries_map(s.drop_last()) =~= l.sorted.remove(s[n].0));
        lemma_listing(s.drop_last());
        assert(ranked(m) =~= ranked(l).take(n));
        law_ranked(m);
        lemma_stake_sum_prefix(ranked(l), n, n);
        lemma_sum_split(l.by_address, active_amount(), staker);
    }
}

/// A selection is possible in every sound ledger with some active stake above
/// zero, and also where nobody is to be selected.
pub proof fn law_selection_possible(l: Ledger, max_considered: nat, max_picked: nat)
    requires
        l.sound(),
        n_picked(l, max_considered, max_picked) > 0 ==> l.active_total() > 0,
    ensures
        selection_allowed(l, max_considered, max_picked),
{
    law_ranked(l);
    let stakes = ranked(l);
    let n = n_considered(l, max_considered);
    let c = cutoff(stakes, n);
    let len = stakes.len() as int;
    lemma_cutoff_exists(stakes, n);
    lemma_stake_sum_prefix(stakes, c, c);
    lemma_stake_sum_grows(stakes, c, len);
    if n_picked(l, max_considered, max_picked) > 0 {
        if stakes[0].balance.lunas == 0 {
            lemma_no_stake(stakes, len);
        }
        assert(qualifies(stakes, n, 0));
        lemma_stake_sum_grows(stakes, 1, c);
        assert(stake_sum(stakes, 1) == stake_sum(stakes, 0) + stakes[0].balance.lunas);
        assert forall|i: int| 0 <= i < c implies l.by_address.contains_key(
            (#[trigger] stakes.take(c)[i]).staker_address,
        ) by {
            assert(stakes.take(c)[i] == stakes[i]);
        }
    }
}

/// Where the highest stake is zero, all of them are.
proof fn lemma_no_stake(stakes: Seq<ActiveStake>, n: int)
    requires
        0 <= n <= stakes.len(),
        n > 0 ==> stakes[0].balance.lunas == 0,
        forall|i: int, j: int|
            0 <= i < j < stakes.len() ==> (#[trigger] stakes[i]).balance.lunas >= (
            #[trigger] stakes[j]).balance.lunas,
    ensures
        stake_sum(stakes, n) == 0,
    decreases n,
{
    if n > 0 {
        lemma_no_stake(stakes, n - 1);
        if n > 1 {
            assert(stakes[0].balance.lunas >= stakes[n - 1].balance.lunas);
        }
    }
}

/// The stakes that validators are drawn from are the first ranked ones, at most
/// as many as are considered, each above zero. Where there are fewer, the next
/// ranked one, if there is one, does not have more than the stake required.
pub proof fn law_potential_validators(l: Ledger, max_considered: nat)
    ensures
        ({
            let stakes = potential_validators(l, max_considered);
            let c = stakes.len() as int;
            &&& c <= max_considered
            &&& c <= n_considered(l, max_considered)
            &&& c <= ranked(l).len()
            &&& stakes == ranked(l).take(c)
            &&& forall|i: int| 0 <= i < c ==> (#[trigger] stakes[i]).balance.lunas > 0
            &&& c < n_considered(l, max_considered) && c < ranked(l).len()
                ==> ranked(l)[c].balance.lunas <= min_required(l, max_considered)
        }),
{
    let stakes = potential_validators(l, max_considered);
    let n = n_considered(l, max_considered);
    lemma_cutoff_exists(ranked(l), n);
    let c = stakes.len() as int;
    assert forall|i: int| 0 <= i < c implies (#[trigger] stakes[i]).balance.lunas > 0 by {
        assert(qualifies(ranked(l), n, i));
    }
    assert(!qualifies(ranked(l), n, c));
}

/// Inactive stake plays no part in a selection: two ledgers with the same active
/// stakes have the same stakes to draw from, require the same stake, and every
/// number selects the same validator.
pub proof fn law_inactive_stake_ignored(l: Ledger, m: Ledger, max_considered: nat, num: nat)
    requires
        l.sorted == m.sorted,
        l.by_address == m.by_address,
    ensures
        potential_validators(l, max_considered) == potential_validators(m, max_considered),
        min_required(l, max_considered) == min_required(m, max_considered),
        selected(l, potential_validators(l, max_considered), num) == selected(
            m,
            potential_validators(m, max_considered),
            num,
        ),
{
    assert(ranked(l) =~= ranked(m));
}

/// Whatever number is drawn, it selects one of the stakes that validators are
/// drawn from, with its reward address.
pub proof fn law_selected_has_stake(l: Ledger, max_considered: nat, num: nat)
    requires
        l.consistent(),
        drawable(l, potential_validators(l, max_considered)),
    ensures
        exists|i: int|
            #![trigger potential_validators(l, max_considered)[i]]
            0 <= i < potential_validators(l, max_considered).len() && potential_validators(
                l,
                max_considered,
            )[i].staker_address == selected(
                l,
                potential_validators(l, max_considered),
                num,
            ).staking_address && potential_validators(l, max_considered)[i].reward_address
                == selected(l, potential_validators(l, max_considered), num).reward_address_opt,
{
    let stakes = potential_validators(l, max_considered);
    let weights = weights_of(stakes);
    let len = weights.len() as int;
    lemma_weights_sum(stakes, len);
    let position = num % offset(weights, len);
    assert(position < offset(weights, len)) by {
        vstd::arithmetic::div_mod::lemma_mod_bound(num as int, offset(weights, len) as int);
    }
    lemma_owner_exists(weights, len, position);
    let i = owner(weights, position);
    law_ranked(l);
    law_potential_validators(l, max_considered);
    assert(stakes[i] == ranked(l)[i]);
}

/// The sums of the first balances are what the recurrence gives.
proof fn lemma_partial_sum(stakes: Seq<ActiveStake>, upto: Seq<int>, n: int)
    requires
        upto.len() == stakes.len() + 1,
        upto[0] == 0,
        forall|j: int|
            #![trigger upto[j + 1]]
            #![trigger stakes[j]]
            0 <= j < stakes.len() ==> upto[j + 1] == upto[j] + stakes[j].balance.lunas,
        0 <= n <= stakes.len(),
    ensures
        stake_sum(stakes, n) == upto[n],
        offset(weights_of(stakes), n) == upto[n],
    decreases n,
{
    lemma_weights_sum(stakes, n);
    if n > 0 {
        lemma_partial_sum(stakes, upto, n - 1);
        assert(upto[n - 1 + 1] == upto[n - 1] + stakes[n - 1].balance.lunas);
    }
}

/// Items laid out one behind the other by their weights: a position belongs to item `j`
/// exactly if it lies between the sum of the weights before `j` and that sum with the
/// weight of `j`.
pub proof fn law_positions(weights: Seq<(Address, u64)>, upto: Seq<int>, position: nat, j: int)
    requires
        upto.len() == weights.len() + 1,
        upto[0] == 0,
        forall|i: int|
            #![trigger upto[i + 1]]
            0 <= i < weights.len() ==> upto[i + 1] == upto[i] + weights[i].1,
        0 <= j < weights.len(),
    ensures
        covers(weights, j, position) <==> upto[j] <= position < upto[j + 1],
        upto[j] <= position < upto[j + 1] ==> owner(weights, position) == j,
        offset(weights, weights.len() as int) == upto[weights.len() as int],
{
    lemma_offsets(weights, upto, j);
    lemma_offsets(weights, upto, j + 1);
    lemma_offsets(weights, upto, weights.len() as int);
    if upto[j] <= position < upto[j + 1] {
        lemma_owner_unique(weights, j, position);
    }
}

/// The sums of the first weights are what the recurrence gives.
proof fn lemma_offsets(weights: Seq<(Address, u64)>, upto: Seq<int>, n: int)
    requires
        upto.len() == weights.len() + 1,
        upto[0] == 0,
        forall|i: int|
            #![trigger upto[i + 1]]
            0 <= i < weights.len() ==> upto[i + 1] == upto[i] + weights[i].1,
        0 <= n <= weights.len(),
    ensures
        offset(weights, n) == upto[n],
    decreases n,
{
    if n > 0 {
        lemma_offsets(weights, upto, n - 1);
        assert(upto[n - 1 + 1] == upto[n - 1] + weights[n - 1].1);
    }
}

/// Every place goes to the potential validator in whose share its draw falls. The shares
/// are the balances of all potential validators, laid out one behind the other in their
/// ranking, and a draw counts modulo the sum of all of them. `upto[j]` is the sum of the
/// first `j` balances. So a potential validator is selected by exactly as many
/// remainders as it has lunas, and none is left out.
pub proof fn law_validators_follow_draws(
    set: ValidatorSet,
    l: Ledger,
    max_considered: nat,
    draws: Seq<u64>,
    upto: Seq<int>,
    i: int,
    j: int,
)
    requires
        is_drawn_set(set, l, max_considered, draws),
        upto.len() == potential_validators(l, max_considered).len() + 1,
        upto[0] == 0,
        forall|k: int|
            #![trigger upto[k + 1]]
            0 <= k < potential_validators(l, max_considered).len() ==> upto[k + 1] == upto[k]
                + potential_validators(l, max_considered)[k].balance.lunas,
        0 <= i < draws.len(),
        0 <= j < potential_validators(l, max_considered).len(),
        upto[j] <= draws[i] as int % upto[potential_validators(l, max_considered).len() as int],
        draws[i] as int % upto[potential_validators(l, max_considered).len() as int] < upto[j + 1],
    ensures
        set.active@.len() == draws.len(),
        ({
            let stake = potential_validators(l, max_considered)[j];
            let record = l.by_address[stake.staker_address];
            &&& set.active@[i].staking_address == record.staker_address
            &&& set.active@[i].reward_address_opt == record.reward_address
            &&& l.consistent() ==> set.active@[i].staking_address == stake.staker_address
            &&& l.consistent() ==> set.active@[i].reward_address_opt == stake.reward_address
        }),
{
    let stakes = potential_validators(l, max_considered);
    let weights = weights_of(stakes);
    let len = stakes.len() as int;
    assert forall|k: int|
        #![trigger upto[k + 1]]
        0 <= k < weights.len() implies upto[k + 1] == upto[k] + weights[k].1 by {
        assert(weights[k].1 == stakes[k].balance.lunas);
    }
    lemma_offsets(weights, upto, j);
    lemma_offsets(weights, upto, len);
    law_positions(weights, upto, (draws[i] as int % upto[len]) as nat, j);
    assert(weights[j].0 == stakes[j].staker_address);
    assert(set.active@[i] == selected(l, stakes, draws[i] as nat));
    if l.consistent() {
        law_ranked(l);
        law_potential_validators(l, max_considered);
        assert(stakes[j] == ranked(l)[j]);
    }
}

/// The draw for place `i` is what the first eight bytes of a hash spell: the hash of the
/// seed with eight bytes behind it that spell `i`. It is these draws, one for each place,
/// that a selection by seed follows.
pub proof fn law_draws_from_seed(seed: Seq<u8>, n: nat, place: Seq<u8>, i: int)
    requires
        place.len() == 8,
        0 <= i < n,
        i == place[0] * 0x100_0000_0000_0000 + place[1] * 0x1_0000_0000_0000 + place[2]
            * 0x100_0000_0000 + place[3] * 0x1_0000_0000 + place[4] * 0x100_0000 + place[5]
            * 0x1_0000 + place[6] * 0x100 + place[7],
    ensures
        draws_of(seed, n).len() == n,
        ({
            let h = blake2b_256(seed + place);
            h.len() >= 8 ==> draws_of(seed, n)[i] == h[0] * 0x100_0000_0000_0000 + h[1]
                * 0x1_0000_0000_0000 + h[2] * 0x100_0000_0000 + h[3] * 0x1_0000_0000 + h[4]
                * 0x100_0000 + h[5] * 0x1_0000 + h[6] * 0x100 + h[7]
        }),
{
    law_eight_bytes(place);
    assert(place =~= be_bytes(i as nat, 8)) by {
        lemma_be_bytes_of_value(place);
    }
    let h = blake2b_256(seed + place);
    if h.len() >= 8 {
        law_eight_bytes(h.take(8));
        assert(h.take(8)[0] == h[0] && h.take(8)[1] == h[1] && h.take(8)[2] == h[2] && h.take(8)[3]
            == h[3] && h.take(8)[4] == h[4] && h.take(8)[5] == h[5] && h.take(8)[6] == h[6]
            && h.take(8)[7] == h[7]);
        assert(draw(seed, i as nat) == be_value(h.take(8)));
    }
}

/// As many places are drawn as there are stakers, as may be considered and as may be
/// picked, whichever is least; as many stakes are considered as there are stakers and as
/// may be considered, whichever is less.
pub proof fn law_number_of_places(l: Ledger, max_considered: nat, max_picked: nat)
    ensures
        ({
            let stakers = l.by_address.dom().len();
            let n = n_considered(l, max_considered);
            let p = n_picked(l, max_considered, max_picked);
            &&& n <= stakers && n <= max_considered && (n == stakers || n == max_considered)
            &&& p <= n && p <= max_picked && (p == n || p == max_picked)
        }),
{
}

/// Which stakes get a place: the first ranked ones, each of them above the share that
/// the stakes before it leave for each of the `n` places, up to the first that is not,
/// and at most `n`. The least stake is that share once all of them are in. `upto[i]` is
/// the sum of the first `i` ranked balances, and `n` is how many stakes are considered.
pub proof fn law_places(l: Ledger, max_considered: nat, upto: Seq<int>, n: int, i: int)
    requires
        upto.len() == ranked(l).len() + 1,
        upto[0] == 0,
        forall|k: int|
            #![trigger upto[k + 1]]
            0 <= k < ranked(l).len() ==> upto[k + 1] == upto[k] + ranked(l)[k].balance.lunas,
        n == if l.by_address.dom().len() <= max_considered {
            l.by_address.dom().len()
        } else {
            max_considered
        },
    ensures
        ({
            let stakes = potential_validators(l, max_considered);
            let c = stakes.len() as int;
            &&& c <= n && c <= ranked(l).len()
            &&& 0 <= i < c ==> stakes[i] == ranked(l)[i] && stakes[i].balance.lunas > upto[i] / n
            &&& c < n && c < ranked(l).len() ==> ranked(l)[c].balance.lunas <= upto[c] / n
            &&& c > 0 ==> min_required(l, max_considered) == upto[c] / n
            &&& c == 0 ==> min_required(l, max_considered) == 0
        }),
{
    let stakes = potential_validators(l, max_considered);
    let c = stakes.len() as int;
    lemma_cutoff_exists(ranked(l), n as nat);
    lemma_partial_sum(ranked(l), upto, c);
    assert(!qualifies(ranked(l), n as nat, c));
    if 0 <= i < c {
        lemma_partial_sum(ranked(l), upto, i);
        assert(qualifies(ranked(l), n as nat, i));
        if i == 0 {
            assert(0int / n == 0) by (nonlinear_arith)
                requires
                    n > 0,
            ;
        }
    }
    if c == 0 && c < n {
        assert(0int / n == 0) by (nonlinear_arith)
            requires
                n > 0,
        ;
    }
}

/// Of two ranked stakes with the same balance, the one whose address has the smaller
/// byte where the two first differ comes first.
pub proof fn law_ranked_ties(l: Ledger, i: int, j: int, k: int)
    requires
        l.consistent(),
        0 <= i < ranked(l).len(),
        0 <= j < ranked(l).len(),
        ranked(l)[i].balance == ranked(l)[j].balance,
        0 <= k < 20,
        forall|b: int|
            0 <= b < k ==> #[trigger] ranked(l)[i].staker_address.bytes@[b]
                == ranked(l)[j].staker_address.bytes@[b],
        ranked(l)[i].staker_address.bytes@[k] < ranked(l)[j].staker_address.bytes@[k],
    ensures
        i < j,
{
    let s = listing(l.sorted);
    lemma_listing_exists(l.sorted);
    lemma_entries_map_keys(s);
    lemma_entries_map_values(s);
    assert(l.sorted.contains_key(s[i].0));
    assert(l.sorted.contains_key(s[j].0));
    law_address_order(ranked(l)[i].staker_address, ranked(l)[j].staker_address, k);
    if j < i {
        assert(s[j].0.before(s[i].0));
    }
}

/// Numbers can be drawn exactly if the stakes add up to no more than 64 bits hold, to
/// more than nothing where there are numbers, and each stake in whose share a number
/// falls is on record. `upto[j]` is the sum of the first `j` balances.
pub proof fn law_draws_possible(
    l: Ledger,
    stakes: Seq<ActiveStake>,
    draws: Seq<u64>,
    upto: Seq<int>,
)
    requires
        upto.len() == stakes.len() + 1,
        upto[0] == 0,
        forall|k: int|
            #![trigger upto[k + 1]]
            0 <= k < stakes.len() ==> upto[k + 1] == upto[k] + stakes[k].balance.lunas,
    ensures
        draws_possible(l, stakes, draws) <==> {
            let total = upto[stakes.len() as int];
            &&& total <= 0xffff_ffff_ffff_ffff
            &&& draws.len() > 0 ==> total > 0
            &&& forall|i: int, j: int|
                0 <= i < draws.len() && 0 <= j < stakes.len() && upto[j] <= (#[trigger] draws[i])
                    as int % total && draws[i] as int % total < upto[j + 1]
                    ==> l.by_address.contains_key((#[trigger] stakes[j]).staker_address)
        },
{
    let weights = weights_of(stakes);
    let len = stakes.len() as int;
    let total = upto[len];
    assert forall|k: int|
        #![trigger upto[k + 1]]
        0 <= k < weights.len() implies upto[k + 1] == upto[k] + weights[k].1 by {
        assert(weights[k].1 == stakes[k].balance.lunas);
    }
    lemma_offsets(weights, upto, len);
    lemma_weights_sum(stakes, len);
    if total > 0 {
        assert forall|i: int, j: int|
            0 <= i < draws.len() && 0 <= j < stakes.len() && upto[j] <= (#[trigger] draws[i]) as int
                % total && draws[i] as int % total < upto[j + 1] implies drawn_address(
            stakes,
            draws[i] as nat,
        ) == (#[trigger] stakes[j]).staker_address by {
            law_positions(weights, upto, (draws[i] as int % total) as nat, j);
        }
        assert forall|i: int| 0 <= i < draws.len() implies exists|j: int|
            0 <= j < stakes.len() && upto[j] <= (#[trigger] draws[i]) as int % total
                && draws[i] as int % total < upto[j + 1] && drawn_address(stakes, draws[i] as nat)
                == (#[trigger] stakes[j]).staker_address by {
            vstd::arithmetic::div_mod::lemma_mod_bound(draws[i] as int, total);
            let position = (draws[i] as int % total) as nat;
            lemma_owner_exists(weights, len, position);
            let j = owner(weights, position);
            law_positions(weights, upto, position, j);
            assert(weights[j].0 == stakes[j].staker_address);
        }
    }
}

/// A drawn set has one validator for each number, and its least stake is the share of
/// the potential validators' stakes for each place that was considered. `upto[i]` is the
/// sum of the first `i` ranked balances, and `n` is how many stakes are considered.
pub proof fn law_drawn_set(
    set: ValidatorSet,
    l: Ledger,
    max_considered: nat,
    draws: Seq<u64>,
    upto: Seq<int>,
    n: int,
)
    requires
        is_drawn_set(set, l, max_considered, draws),
        upto.len() == ranked(l).len() + 1,
        upto[0] == 0,
        forall|k: int|
            #![trigger upto[k + 1]]
            0 <= k < ranked(l).len() ==> upto[k + 1] == upto[k] + ranked(l)[k].balance.lunas,
        n == if l.by_address.dom().len() <= max_considered {
            l.by_address.dom().len()
        } else {
            max_considered
        },
    ensures
        set.active@.len() == draws.len(),
        ({
            let c = potential_validators(l, max_considered).len() as int;
            &&& c > 0 ==> set.min_required_stake.lunas == upto[c] / n
            &&& c == 0 ==> set.min_required_stake.lunas == 0
        }),
{
    law_places(l, max_considered, upto, n, 0);
}

/// Whatever number is drawn, it falls in the share of exactly one stake, as long as the
/// stakes add up to more than nothing.
pub proof fn law_every_draw_selects(
    stakes: Seq<ActiveStake>,
    upto: Seq<int>,
    number: nat,
) -> (j: int)
    requires
        upto.len() == stakes.len() + 1,
        upto[0] == 0,
        forall|k: int|
            #![trigger upto[k + 1]]
            0 <= k < stakes.len() ==> upto[k + 1] == upto[k] + stakes[k].balance.lunas,
        upto[stakes.len() as int] > 0,
    ensures
        0 <= j < stakes.len(),
        upto[j] <= number as int % upto[stakes.len() as int] < upto[j + 1],
        drawn_address(stakes, number) == stakes[j].staker_address,
        forall|k: int|
            #![trigger upto[k + 1]]
            0 <= k < stakes.len() && upto[k] <= number as int % upto[stakes.len() as int]
                && number as int % upto[stakes.len() as int] < upto[k + 1] ==> k == j,
{
    let weights = weights_of(stakes);
    let len = stakes.len() as int;
    assert forall|k: int|
        #![trigger upto[k + 1]]
        0 <= k < weights.len() implies upto[k + 1] == upto[k] + weights[k].1 by {
        assert(weights[k].1 == stakes[k].balance.lunas);
    }
    lemma_offsets(weights, upto, len);
    vstd::arithmetic::div_mod::lemma_mod_bound(number as int, upto[len]);
    let position = (number as int % upto[len]) as nat;
    lemma_owner_exists(weights, len, position);
    let j = owner(weights, position);
    law_positions(weights, upto, position, j);
    assert(weights[j].0 == stakes[j].staker_address);
    assert forall|k: int|
        #![trigger upto[k + 1]]
        0 <= k < stakes.len() && upto[k] <= number as int % upto[len] && number as int % upto[len]
            < upto[k + 1] implies k == j by {
        law_positions(weights, upto, position, k);
    }
    j
}

/// A selection is possible whatever the seed exactly if the potential validators' stakes
/// add up to no more than 64 bits hold, and, where places are to be filled, to more than
/// nothing and each of them is on record. `upto[j]` is the sum of the first `j` balances.
pub proof fn law_selection_allowed(l: Ledger, max_considered: nat, max_picked: nat, upto: Seq<int>)
    requires
        upto.len() == potential_validators(l, max_considered).len() + 1,
        upto[0] == 0,
        forall|k: int|
            #![trigger upto[k + 1]]
            0 <= k < potential_validators(l, max_considered).len() ==> upto[k + 1] == upto[k]
                + potential_validators(l, max_considered)[k].balance.lunas,
    ensures
        selection_allowed(l, max_considered, max_picked) <==> {
            let stakes = potential_validators(l, max_considered);
            &&& upto[stakes.len() as int] <= 0xffff_ffff_ffff_ffff
            &&& l.by_address.dom().len() > 0 && max_considered > 0 && max_picked > 0 ==> {
                &&& upto[stakes.len() as int] > 0
                &&& forall|j: int|
                    0 <= j < stakes.len() ==> l.by_address.contains_key(
                        (#[trigger] stakes[j]).staker_address,
                    )
            }
        },
{
    let stakes = potential_validators(l, max_considered);
    lemma_partial_sum(stakes, upto, stakes.len() as int);
}

} // verus!
