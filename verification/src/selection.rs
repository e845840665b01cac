//! Selecting the validators of an epoch from the active stakes.

use crate::address::Address;
use crate::bls::BlsSignature;
use crate::codec::{be_bytes, be_value, lemma_be_value_bound, lemma_pow256, put_bytes, put_uint};
use crate::coin::Coin;
use crate::hash::{blake2b, blake2b_256};
use crate::ledger::Ledger;
use crate::selection_laws::law_validators_follow_draws;
use crate::sorted_map::listing;
use crate::stake::ActiveStake;
use crate::staking_contract::StakingContract;
use crate::weighted_lookup::{lemma_owner_exists, offset, owner, WeightedLookup};
use vstd::prelude::*;

verus! {

/// The validators selected, and the stake below which one is not considered.
#[derive(Clone, Debug)]
pub struct ValidatorSet {
    pub active: Vec<ActiveValidator>,
    pub min_required_stake: Coin,
}

/// A selected validator.
#[derive(Clone, Copy, Debug, PartialEq, Eq)]
pub struct ActiveValidator {
    pub staking_address: Address,
    pub reward_address_opt: Option<Address>,
}

impl ActiveValidator {
    /// Where rewards go: the reward address if there is one, else the staker.
    pub fn reward_address(&self) -> (a: &Address)
        ensures
            *a == match self.reward_address_opt {
                Some(addr) => addr,
                None => self.staking_address,
            },
    {
        match &self.reward_address_opt {
            Some(addr) => addr,
            None => &self.staking_address,
        }
    }
}

/// The active stakes from the highest balance to the lowest.
pub open spec fn ranked(l: Ledger) -> Seq<ActiveStake> {
    Seq::new(listing(l.sorted).len(), |i: int| listing(l.sorted)[i].1)
}

/// The sum of the first `n` balances.
pub open spec fn stake_sum(stakes: Seq<ActiveStake>, n: int) -> nat
    decreases n,
{
    if n <= 0 {
        0
    } else {
        stake_sum(stakes, n - 1) + stakes[n - 1].balance.lunas as nat
    }
}

/// The least stake required once `i` stakes are in: their sum shared out over
/// the `n` places.
pub open spec fn required_stake(stakes: Seq<ActiveStake>, n: nat, i: int) -> nat {
    if i <= 0 {
        0
    } else {
        stake_sum(stakes, i) / n
    }
}

/// Stake `i` gets a place, given that those before it did.
pub open spec fn qualifies(stakes: Seq<ActiveStake>, n: nat, i: int) -> bool {
    0 <= i < stakes.len() && i < n && stakes[i].balance.lunas > required_stake(stakes, n, i)
}

/// `c` is the first stake that does not get a place.
pub open spec fn is_cutoff(stakes: Seq<ActiveStake>, n: nat, c: int) -> bool {
    0 <= c && (forall|i: int| 0 <= i < c ==> qualifies(stakes, n, i)) && !qualifies(stakes, n, c)
}

/// How many stakes get a place.
pub open spec fn cutoff(stakes: Seq<ActiveStake>, n: nat) -> int {
    choose|c: int| is_cutoff(stakes, n, c)
}

/// There is only one cutoff.
pub proof fn lemma_cutoff(stakes: Seq<ActiveStake>, n: nat, c: int)
    requires
        is_cutoff(stakes, n, c),
    ensures
        cutoff(stakes, n) == c,
{
    let d = cutoff(stakes, n);
    assert(is_cutoff(stakes, n, d));
    if c < d {
        assert(qualifies(stakes, n, c));
    } else if d < c {
        assert(qualifies(stakes, n, d));
    }
}

/// Sums only grow.
pub proof fn lemma_stake_sum_grows(stakes: Seq<ActiveStake>, m: int, n: int)
    requires
        m <= n,
    ensures
        stake_sum(stakes, m) <= stake_sum(stakes, n),
    decreases n - m,
{
    if m < n {
        lemma_stake_sum_grows(stakes, m, n - 1);
    }
}

/// How many stakes are considered at most.
pub open spec fn n_considered(l: Ledger, max_considered: nat) -> nat {
    if l.by_address.dom().len() <= max_considered {
        l.by_address.dom().len()
    } else {
        max_considered
    }
}

/// How many validators are drawn.
pub open spec fn n_picked(l: Ledger, max_considered: nat, max_picked: nat) -> nat {
    if n_considered(l, max_considered) <= max_picked {
        n_considered(l, max_considered)
    } else {
        max_picked
    }
}

/// The stakes that validators are drawn from.
pub open spec fn potential_validators(l: Ledger, max_considered: nat) -> Seq<ActiveStake> {
    ranked(l).take(cutoff(ranked(l), n_considered(l, max_considered)))
}

/// The stakes as weighted addresses.
pub open spec fn weights_of(stakes: Seq<ActiveStake>) -> Seq<(Address, u64)> {
    Seq::new(stakes.len(), |i: int| (stakes[i].staker_address, stakes[i].balance.lunas))
}

/// The least stake that a validator needs.
pub open spec fn min_required(l: Ledger, max_considered: nat) -> nat {
    required_stake(
        ranked(l),
        n_considered(l, max_considered),
        potential_validators(l, max_considered).len() as int,
    )
}

/// The number drawn for place `i` under `seed`.
pub open spec fn draw(seed: Seq<u8>, i: nat) -> nat {
    be_value(blake2b_256(seed + be_bytes(i, 8)).take(8))
}

/// The staker that the number `num` selects: the stakes share out the numbers by
/// their balances.
pub open spec fn drawn_address(stakes: Seq<ActiveStake>, num: nat) -> Address {
    let weights = weights_of(stakes);
    let position = num % offset(weights, weights.len() as int);
    weights[owner(weights, position)].0
}

/// The validator that the number `num` selects from `stakes`.
pub open spec fn selected(l: Ledger, stakes: Seq<ActiveStake>, num: nat) -> ActiveValidator {
    let stake = l.by_address[drawn_address(stakes, num)];
    ActiveValidator {
        staking_address: stake.staker_address,
        reward_address_opt: stake.reward_address,
    }
}

/// These numbers can be drawn from `stakes`: the stakes can be added up, and if there
/// are numbers, there is some stake to share them out over, and each staker that
/// comes out is on record.
pub open spec fn draws_possible(l: Ledger, stakes: Seq<ActiveStake>, draws: Seq<u64>) -> bool {
    &&& stake_sum(stakes, stakes.len() as int) <= u64::MAX
    &&& draws.len() > 0 ==> stake_sum(stakes, stakes.len() as int) > 0
    &&& forall|i: int|
        0 <= i < draws.len() ==> l.by_address.contains_key(
            drawn_address(stakes, #[trigger] draws[i] as nat),
        )
}

/// Whatever numbers come up can be drawn: there is some stake to share them out
/// over, the stakes can be added up, and each is on record under its address.
pub open spec fn drawable(l: Ledger, stakes: Seq<ActiveStake>) -> bool {
    &&& 0 < stake_sum(stakes, stakes.len() as int) <= u64::MAX
    &&& forall|i: int|
        0 <= i < stakes.len() ==> l.by_address.contains_key((#[trigger] stakes[i]).staker_address)
}

/// A selection is possible whatever the seed: the stakes can be added up, and if
/// validators are to be drawn, they can be.
pub open spec fn selection_allowed(l: Ledger, max_considered: nat, max_picked: nat) -> bool {
    let stakes = potential_validators(l, max_considered);
    &&& stake_sum(stakes, stakes.len() as int) <= u64::MAX
    &&& n_picked(l, max_considered, max_picked) > 0 ==> drawable(l, stakes)
}

/// The numbers drawn under `seed` for `n` places.
pub open spec fn draws_of(seed: Seq<u8>, n: nat) -> Seq<u64> {
    Seq::new(n, |i: int| draw(seed, i as nat) as u64)
}

/// What `validators_drawn` returns.
pub open spec fn is_drawn_set(
    set: ValidatorSet,
    l: Ledger,
    max_considered: nat,
    draws: Seq<u64>,
) -> bool {
    &&& set.active@ == Seq::new(
        draws.len(),
        |i: int| selected(l, potential_validators(l, max_considered), draws[i] as nat),
    )
    &&& set.min_required_stake.lunas == min_required(l, max_considered)
}

/// Weights and balances add up alike.
pub proof fn lemma_weights_sum(stakes: Seq<ActiveStake>, n: int)
    requires
        n <= stakes.len(),
    ensures
        offset(weights_of(stakes), n) == stake_sum(stakes, n),
    decreases n,
{
    if n > 0 {
        lemma_weights_sum(stakes, n - 1);
    }
}

/// The sum of the first stakes does not depend on those behind them.
pub proof fn lemma_stake_sum_prefix(stakes: Seq<ActiveStake>, c: int, n: int)
    requires
        n <= c <= stakes.len(),
    ensures
        stake_sum(stakes.take(c), n) == stake_sum(stakes, n),
    decreases n,
{
    if n > 0 {
        lemma_stake_sum_prefix(stakes, c, n - 1);
    }
}

/// The number that the first eight bytes of a hash spell.
pub fn number_of_hash(hash: &[u8; 32]) -> (num: u64)
    ensures
        num == be_value(hash@.take(8)),
{
    let mut num: u64 = 0;
    let mut i: usize = 0;
    proof {
        lemma_pow256();
    }
    while i < 8
        invariant
            i <= 8,
            num == be_value(hash@.take(i as int)),
            crate::codec::pow256(8) == 0x1_0000_0000_0000_0000,
        decreases 8 - i,
    {
        proof {
            assert(hash@.take(i + 1).drop_last() =~= hash@.take(i as int));
            lemma_be_value_bound(hash@.take(i + 1));
            crate::codec::lemma_pow256_grows((i + 1) as nat, 8);
        }
        num = num * 256 + hash[i] as u64;
        i = i + 1;
    }
    num
}

/// The number drawn for place `i`: the front of the hash of seed and place.
pub fn draw_number(seed: &BlsSignature, i: u64) -> (num: u64)
    ensures
        num == draw(seed.bytes@, i as nat),
{
    let mut buf: Vec<u8> = Vec::new();
    put_bytes(&mut buf, &seed.bytes);
    put_uint(&mut buf, i, 8);
    assert(buf@ =~= seed.bytes@ + be_bytes(i as nat, 8));
    let hash = blake2b(buf.as_slice());
    number_of_hash(&hash)
}

impl StakingContract {
    /// The stakes that validators are drawn from, and the least stake required, if the
    /// stakes can be added up.
    pub fn potential_validators(&self, max_considered: usize) -> (r: Option<
        (Vec<ActiveStake>, Coin),
    >)
        ensures
            r is Some <==> stake_sum(
                potential_validators(self@, max_considered as nat),
                potential_validators(self@, max_considered as nat).len() as int,
            ) <= u64::MAX,
            r matches Some((stakes, min_stake)) ==> {
                &&& stakes@ == potential_validators(self@, max_considered as nat)
                &&& min_stake.lunas == min_required(self@, max_considered as nat)
            },
    {
        let n_active: usize = self.active_stake_by_address.len();
        let n: usize = if n_active <= max_considered {
            n_active
        } else {
            max_considered
        };
        let entries = self.active_stake_sorted.entries();
        let ghost stakes = ranked(self@);
        let ghost c = cutoff(stakes, n as nat);
        proof {
            lemma_cutoff_exists(stakes, n as nat);
        }
        let mut potential: Vec<ActiveStake> = Vec::new();
        let mut total: u64 = 0;
        let mut min_stake: u64 = 0;
        let mut i: usize = 0;
        while i < entries.len() && i < n && entries[i].1.balance.lunas > min_stake
            invariant
                entries@ == listing(self@.sorted),
                stakes == ranked(self@),
                n == n_considered(self@, max_considered as nat),
                i <= entries@.len(),
                i <= n,
                potential@ == stakes.take(i as int),
                total == stake_sum(stakes, i as int),
                min_stake == required_stake(stakes, n as nat, i as int),
                is_cutoff(stakes, n as nat, c),
                c == cutoff(stakes, n as nat),
                0 <= c <= stakes.len(),
                forall|j: int| 0 <= j < i ==> qualifies(stakes, n as nat, j),
            decreases entries@.len() - i,
        {
            let stake = entries[i].1;
            proof {
                assert(stake == stakes[i as int]);
                assert(qualifies(stakes, n as nat, i as int));
                assert(i < c);
                lemma_stake_sum_grows(stakes, i + 1, c);
            }
            total = match total.checked_add(stake.balance.lunas) {
                Some(total) => total,
                None => {
                    proof {
                        lemma_stake_sum_prefix(stakes, c, c);
                    }
                    return None;
                },
            };
            min_stake = total / (n as u64);
            potential.push(stake);
            assert(potential@ =~= stakes.take(i + 1));
            i = i + 1;
        }
        proof {
            if i < entries.len() && i < n {
                assert(stakes[i as int].balance == entries@[i as int].1.balance);
            }
            assert(!qualifies(stakes, n as nat, i as int));
            assert(is_cutoff(stakes, n as nat, i as int));
            lemma_cutoff(stakes, n as nat, i as int);
            lemma_stake_sum_prefix(stakes, c, c);
        }
        Some((potential, Coin::from_u64_unchecked(min_stake)))
    }

    /// The validator that `num` selects, through a prepared lookup, if its staker is on
    /// record.
    fn select_from(
        &self,
        lookup: &WeightedLookup,
        Ghost(stakes): Ghost<Seq<ActiveStake>>,
        num: u64,
    ) -> (v: Option<ActiveValidator>)
        requires
            0 < stake_sum(stakes, stakes.len() as int),
            lookup@ == weights_of(stakes),
        ensures
            v is Some <==> self@.by_address.contains_key(drawn_address(stakes, num as nat)),
            v matches Some(v) ==> v == selected(self@, stakes, num as nat),
    {
        proof {
            lemma_weights_sum(stakes, stakes.len() as int);
        }
        let position: u64 = num % lookup.range();
        match lookup.find(position) {
            Some(staking_address) => match self.active_stake_by_address.get(&staking_address) {
                Some(stake) => Some(
                    ActiveValidator {
                        staking_address: stake.staker_address,
                        reward_address_opt: stake.reward_address,
                    },
                ),
                None => None,
            },
            None => None,
        }
    }

    /// Every place goes to the stake in whose share its number falls.
    proof fn lemma_shares(&self, set: ValidatorSet, max_considered: nat, draws: Seq<u64>)
        requires
            is_drawn_set(set, self@, max_considered, draws),
        ensures
            forall|upto: Seq<int>, i: int, j: int|
                #![trigger upto[j], set.active@[i]]
                ({
                    let stakes = potential_validators(self@, max_considered);
                    let total = upto[stakes.len() as int];
                    &&& upto.len() == stakes.len() + 1
                    &&& upto[0] == 0
                    &&& forall|k: int|
                        #![trigger upto[k + 1]]
                        0 <= k < stakes.len() ==> upto[k + 1] == upto[k] + stakes[k].balance.lunas
                    &&& 0 <= i < set.active@.len()
                    &&& 0 <= j < stakes.len()
                    &&& upto[j] <= draws[i] as int % total < upto[j + 1]
                }) ==> ({
                    let staker = potential_validators(self@, max_considered)[j].staker_address;
                    let stake = self@.by_address[staker];
                    &&& set.active@[i].staking_address == stake.staker_address
                    &&& set.active@[i].reward_address_opt == stake.reward_address
                }),
    {
        assert forall|upto: Seq<int>, i: int, j: int|
            #![trigger upto[j], set.active@[i]]
            ({
                let stakes = potential_validators(self@, max_considered);
                let total = upto[stakes.len() as int];
                &&& upto.len() == stakes.len() + 1
                &&& upto[0] == 0
                &&& forall|k: int|
                    #![trigger upto[k + 1]]
                    0 <= k < stakes.len() ==> upto[k + 1] == upto[k] + stakes[k].balance.lunas
                &&& 0 <= i < set.active@.len()
                &&& 0 <= j < stakes.len()
                &&& upto[j] <= draws[i] as int % total < upto[j + 1]
            }) implies ({
            let staker = potential_validators(self@, max_considered)[j].staker_address;
            let stake = self@.by_address[staker];
            &&& set.active@[i].staking_address == stake.staker_address
            &&& set.active@[i].reward_address_opt == stake.reward_address
        }) by {
            law_validators_follow_draws(set, self@, max_considered, draws, upto, i, j);
        }
    }

    /// The validators that the numbers drawn select, if these can be drawn.
    pub fn validators_drawn(&self, max_considered: usize, draws: &Vec<u64>) -> (set: Option<
        ValidatorSet,
    >)
        ensures
            set is Some <==> draws_possible(
                self@,
                potential_validators(self@, max_considered as nat),
                draws@,
            ),
            set matches Some(set) ==> is_drawn_set(set, self@, max_considered as nat, draws@),
            set matches Some(set) ==> set.active@.len() == draws@.len(),
            set matches Some(set) ==> forall|upto: Seq<int>, i: int, j: int|
                #![trigger upto[j], set.active@[i]]
                ({
                    let stakes = potential_validators(self@, max_considered as nat);
                    let total = upto[stakes.len() as int];
                    &&& upto.len() == stakes.len() + 1
                    &&& upto[0] == 0
                    &&& forall|k: int|
                        #![trigger upto[k + 1]]
                        0 <= k < stakes.len() ==> upto[k + 1] == upto[k] + stakes[k].balance.lunas
                    &&& 0 <= i < set.active@.len()
                    &&& 0 <= j < stakes.len()
                    &&& upto[j] <= draws@[i] as int % total < upto[j + 1]
                }) ==> ({
                    let staker = potential_validators(self@, max_considered as nat)[j].staker_address;
                    let stake = self@.by_address[staker];
                    &&& set.active@[i].staking_address == stake.staker_address
                    &&& set.active@[i].reward_address_opt == stake.reward_address
                }),
    {
        let (stakes, min_required_stake) = match self.potential_validators(max_considered) {
            Some(p) => p,
            None => {
                return None;
            },
        };
        let lookup = lookup_of(&stakes);
        proof {
            lemma_weights_sum(stakes@, stakes@.len() as int);
        }
        if draws.len() > 0 && lookup.range() == 0 {
            return None;
        }
        let mut active: Vec<ActiveValidator> = Vec::new();
        let mut i: usize = 0;
        while i < draws.len()
            invariant
                i <= draws@.len(),
                stakes@ == potential_validators(self@, max_considered as nat),
                draws@.len() > 0 ==> stake_sum(stakes@, stakes@.len() as int) > 0,
                lookup@ == weights_of(stakes@),
                active@.len() == i,
                forall|j: int|
                    0 <= j < i ==> #[trigger] active@[j] == selected(
                        self@,
                        stakes@,
                        draws@[j] as nat,
                    ),
                forall|j: int|
                    0 <= j < i ==> self@.by_address.contains_key(
                        drawn_address(stakes@, #[trigger] draws@[j] as nat),
                    ),
            decreases draws@.len() - i,
        {
            match self.select_from(&lookup, Ghost(stakes@), draws[i]) {
                Some(v) => {
                    active.push(v);
                },
                None => {
                    assert(!self@.by_address.contains_key(
                        drawn_address(stakes@, draws@[i as int] as nat),
                    ));
                    return None;
                },
            }
            i = i + 1;
        }
        assert(active@ =~= Seq::new(
            draws@.len(),
            |i: int|
                selected(
                    self@,
                    potential_validators(self@, max_considered as nat),
                    draws@[i] as nat,
                ),
        ));
        let set = ValidatorSet { active, min_required_stake };
        proof {
            self.lemma_shares(set, max_considered as nat, draws@);
        }
        Some(set)
    }

    /// Retrieves the size-bounded list of active validators, if the numbers that come
    /// up under `seed` can be drawn.
    pub fn try_build_validator_set(
        &self,
        seed: &BlsSignature,
        max_considered: usize,
        max_picked: u32,
    ) -> (set: Option<ValidatorSet>)
        ensures
            set is Some <==> draws_possible(
                self@,
                potential_validators(self@, max_considered as nat),
                draws_of(
                    seed.bytes@,
                    n_picked(self@, max_considered as nat, max_picked as nat),
                ),
            ),
            set matches Some(set) ==> is_drawn_set(
                set,
                self@,
                max_considered as nat,
                draws_of(
                    seed.bytes@,
                    n_picked(self@, max_considered as nat, max_picked as nat),
                ),
            ),
    {
        let n_active: usize = self.active_stake_by_address.len();
        let n: usize = if n_active <= max_considered {
            n_active
        } else {
            max_considered
        };
        let n_to_pick: u64 = if (n as u64) <= (max_picked as u64) {
            n as u64
        } else {
            max_picked as u64
        };
        let mut draws: Vec<u64> = Vec::new();
        let mut i: u64 = 0;
        while i < n_to_pick
            invariant
                i <= n_to_pick,
                draws@.len() == i,
                forall|j: int|
                    0 <= j < i ==> #[trigger] draws@[j] == draw(seed.bytes@, j as nat),
            decreases n_to_pick - i,
        {
            let num: u64 = draw_number(seed, i);
            draws.push(num);
            i = i + 1;
        }
        assert(draws@ =~= draws_of(
            seed.bytes@,
            n_picked(self@, max_considered as nat, max_picked as nat),
        ));
        self.validators_drawn(max_considered, &draws)
    }

    /// Retrieves the size-bounded list of active validators: at most as many as
    /// may be picked and as may be considered.
    pub fn build_validator_set(
        &self,
        seed: &BlsSignature,
        max_considered: usize,
        max_picked: u32,
    ) -> (set: ValidatorSet)
        requires
            selection_allowed(self@, max_considered as nat, max_picked as nat),
        ensures
            is_drawn_set(
                set,
                self@,
                max_considered as nat,
                draws_of(
                    seed.bytes@,
                    n_picked(self@, max_considered as nat, max_picked as nat),
                ),
            ),
            set.active@.len() <= max_picked,
            set.active@.len() <= max_considered,
            set.active@.len() <= self@.by_address.dom().len(),
            set.active@.len() == max_picked || set.active@.len() == max_considered
                || set.active@.len() == self@.by_address.dom().len(),
            forall|upto: Seq<int>, i: int, j: int|
                #![trigger upto[j], set.active@[i]]
                ({
                    let stakes = potential_validators(self@, max_considered as nat);
                    let total = upto[stakes.len() as int];
                    &&& upto.len() == stakes.len() + 1
                    &&& upto[0] == 0
                    &&& forall|k: int|
                        #![trigger upto[k + 1]]
                        0 <= k < stakes.len() ==> upto[k + 1] == upto[k] + stakes[k].balance.lunas
                    &&& 0 <= i < set.active@.len()
                    &&& 0 <= j < stakes.len()
                    &&& upto[j] <= (draw(seed.bytes@, i as nat) as u64) as int % total < upto[j + 1]
                }) ==> ({
                    let staker = potential_validators(self@, max_considered as nat)[j].staker_address;
                    let stake = self@.by_address[staker];
                    &&& set.active@[i].staking_address == stake.staker_address
                    &&& set.active@[i].reward_address_opt == stake.reward_address
                }),
    {
        proof {
            lemma_allowed_draws_possible(
                self@,
                max_considered as nat,
                max_picked as nat,
                draws_of(
                    seed.bytes@,
                    n_picked(self@, max_considered as nat, max_picked as nat),
                ),
            );
        }
        match self.try_build_validator_set(seed, max_considered, max_picked) {
            Some(set) => {
                proof {
                    self.lemma_shares(
                        set,
                        max_considered as nat,
                        draws_of(
                            seed.bytes@,
                            n_picked(self@, max_considered as nat, max_picked as nat),
                        ),
                    );
                }
                set
            },
            None => {
                assert(false);
                ValidatorSet { active: Vec::new(), min_required_stake: Coin::zero() }
            },
        }
    }
}

/// Where a selection is possible whatever the seed, any numbers can be drawn.
pub proof fn lemma_allowed_draws_possible(
    l: Ledger,
    max_considered: nat,
    max_picked: nat,
    draws: Seq<u64>,
)
    requires
        selection_allowed(l, max_considered, max_picked),
        draws.len() == n_picked(l, max_considered, max_picked),
    ensures
        draws_possible(l, potential_validators(l, max_considered), draws),
{
    let stakes = potential_validators(l, max_considered);
    let weights = weights_of(stakes);
    let len = weights.len() as int;
    lemma_weights_sum(stakes, len);
    assert forall|i: int| 0 <= i < draws.len() implies l.by_address.contains_key(
        drawn_address(stakes, #[trigger] draws[i] as nat),
    ) by {
        let total = offset(weights, len);
        vstd::arithmetic::div_mod::lemma_mod_bound(draws[i] as int, total as int);
        let position = draws[i] as nat % total;
        lemma_owner_exists(weights, len, position);
        let j = owner(weights, position);
        assert(l.by_address.contains_key(stakes[j].staker_address));
    }
}

/// A lookup over the stakes by their balances.
fn lookup_of(stakes: &Vec<ActiveStake>) -> (t: WeightedLookup)
    requires
        stake_sum(stakes@, stakes@.len() as int) <= u64::MAX,
    ensures
        t@ == weights_of(stakes@),
{
    let mut weights: Vec<(Address, u64)> = Vec::new();
    let mut i: usize = 0;
    while i < stakes.len()
        invariant
            i <= stakes@.len(),
            weights@ == weights_of(stakes@).take(i as int),
        decreases stakes@.len() - i,
    {
        weights.push((stakes[i].staker_address, stakes[i].balance.lunas));
        i = i + 1;
        assert(weights@ =~= weights_of(stakes@).take(i as int));
    }
    assert(weights@ =~= weights_of(stakes@));
    proof {
        lemma_weights_sum(stakes@, stakes@.len() as int);
    }
    WeightedLookup::new(weights)
}

/// Some stake is the first not to get a place.
pub proof fn lemma_cutoff_exists(stakes: Seq<ActiveStake>, n: nat)
    ensures
        is_cutoff(stakes, n, cutoff(stakes, n)),
        cutoff(stakes, n) <= stakes.len(),
        cutoff(stakes, n) <= n,
{
    let c = lemma_cutoff_from(stakes, n, 0);
    assert(is_cutoff(stakes, n, c));
    let d = cutoff(stakes, n);
    if d > 0 {
        assert(qualifies(stakes, n, d - 1));
    }
}

/// Walks from a stake up to which all qualify to the first that does not.
proof fn lemma_cutoff_from(stakes: Seq<ActiveStake>, n: nat, i: int) -> (c: int)
    requires
        0 <= i <= stakes.len(),
        forall|j: int| 0 <= j < i ==> qualifies(stakes, n, j),
    ensures
        is_cutoff(stakes, n, c),
    decreases stakes.len() - i,
{
    if qualifies(stakes, n, i) {
        lemma_cutoff_from(stakes, n, i + 1)
    } else {
        i
    }
}

} // verus!
