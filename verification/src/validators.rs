//! Validator slots, and the validators that they belong to.

use crate::address::Address;
use crate::bls::LazyPublicKey;
use crate::coin::Coin;
use crate::policy::Policy;
use vstd::prelude::*;
use vstd::std_specs::iter::IteratorSpec;

verus! {

/// A slot in the validator list.
#[derive(Clone, Copy, Debug, PartialEq, Eq)]
pub struct Slot {
    pub public_key: LazyPublicKey,
    pub reward_address_opt: Option<Address>,
    pub staker_address: Address,
}

impl Slot {
    /// Where rewards go: the reward address if there is one, else the staker.
    pub fn reward_address(&self) -> (a: &Address)
        ensures
            *a == match self.reward_address_opt {
                Some(addr) => addr,
                None => self.staker_address,
            },
    {
        match &self.reward_address_opt {
            Some(addr) => addr,
            None => &self.staker_address,
        }
    }
}

/// The slots of an epoch, and the fine for misbehaving in one.
#[derive(Clone, Debug, PartialEq, Eq)]
pub struct Slots {
    slots: Vec<Slot>,
    slash_fine: Coin,
}

impl View for Slots {
    type V = Seq<Slot>;

    closed spec fn view(&self) -> Seq<Slot> {
        self.slots@
    }
}

/// A validator and how many slots in a row it has.
#[derive(Clone, Copy, Debug, PartialEq, Eq)]
pub struct Validator {
    pub public_key: LazyPublicKey,
    pub num_slots: u16,
}

/// Validators in the order of their slots.
pub type Validators = Vec<Validator>;

/// The keys of the slots.
pub open spec fn keys_of(slots: Seq<Slot>) -> Seq<LazyPublicKey> {
    Seq::new(slots.len(), |i: int| slots[i].public_key)
}

/// The keys of `validators`, each as often as it has slots.
pub open spec fn expanded(validators: Seq<Validator>) -> Seq<LazyPublicKey>
    decreases validators.len(),
{
    if validators.len() == 0 {
        Seq::empty()
    } else {
        expanded(validators.drop_last()) + Seq::new(
            validators.last().num_slots as nat,
            |i: int| validators.last().public_key,
        )
    }
}

/// Each validator has slots, and no two neighbours have the same key.
pub open spec fn merged(validators: Seq<Validator>) -> bool {
    &&& forall|i: int| 0 <= i < validators.len() ==> (#[trigger] validators[i]).num_slots > 0
    &&& forall|i: int, j: int|
        0 <= i && j == i + 1 && j < validators.len() ==> (#[trigger] validators[i]).public_key != (
        #[trigger] validators[j]).public_key
}

/// The keys from `i` up to and including `j` are all the same.
pub open spec fn same_stretch(keys: Seq<LazyPublicKey>, i: int, j: int) -> bool {
    forall|k: int| i <= k <= j ==> #[trigger] keys[k] == keys[i]
}

/// No stretch of one key is longer than a validator can have slots.
pub open spec fn short_stretches(keys: Seq<LazyPublicKey>) -> bool {
    forall|i: int, j: int|
        0 <= i <= j < keys.len() && #[trigger] same_stretch(keys, i, j) ==> j - i < u16::MAX
}

impl Slots {
    /// The fine for misbehaving in a slot.
    pub closed spec fn fine(self) -> Coin {
        self.slash_fine
    }

    /// Slots with this fine.
    pub fn new(slots: Vec<Slot>, slash_fine: Coin) -> (s: Slots)
        ensures
            s@ == slots@,
            s.fine() == slash_fine,
    {
        Slots { slots, slash_fine }
    }

    /// The fine for misbehaving in a slot.
    pub fn slash_fine(&self) -> (c: Coin)
        ensures
            c == self.fine(),
    {
        self.slash_fine
    }

    /// Whether this many votes are more than two thirds.
    pub fn enough_votes(&self, num_votes: u16, policy: &Policy) -> (b: bool)
        ensures
            b == (num_votes > policy.two_third_validators),
    {
        num_votes > policy.two_third_validators
    }

    /// The number of slots.
    pub fn len(&self) -> (n: usize)
        ensures
            n == self@.len(),
    {
        self.slots.len()
    }

    /// One slot.
    pub fn get(&self, index: usize) -> (s: &Slot)
        requires
            index < self@.len(),
        ensures
            *s == self@[index as int],
    {
        &self.slots[index]
    }

    /// All slots, one after the other.
    pub fn iter(&self) -> (it: std::slice::Iter<'_, Slot>)
        ensures
            it.remaining() == self@.as_ref(),
    {
        self.slots.as_slice().iter()
    }

    /// The validators of the slots: neighbouring slots with one key become one
    /// validator.
    pub fn into_validators(self) -> (validators: Validators)
        requires
            self@.len() > 0,
            short_stretches(keys_of(self@)),
        ensures
            expanded(validators@) == keys_of(self@),
            merged(validators@),
    {
        match self.try_into_validators() {
            Some(validators) => validators,
            None => {
                assert(false);
                Vec::new()
            },
        }
    }

    /// The validators of the slots, if there are slots and no stretch of one key is
    /// longer than a validator can have slots.
    pub fn try_into_validators(self) -> (r: Option<Validators>)
        ensures
            r is Some <==> self@.len() > 0 && short_stretches(keys_of(self@)),
            r matches Some(validators) ==> {
                &&& expanded(validators@) == keys_of(self@)
                &&& merged(validators@)
            },
    {
        let ghost keys = keys_of(self@);
        if self.slots.len() == 0 {
            return None;
        }
        let mut validators: Vec<Validator> = Vec::new();
        let mut i: usize = 0;
        assert(keys.take(0) =~= Seq::empty());
        while i < self.slots.len()
            invariant
                i <= self.slots@.len(),
                self.slots@ == self@,
                keys == keys_of(self.slots@),
                short_upto(keys, i as int),
                expanded(validators@) == keys.take(i as int),
                merged(validators@),
                i > 0 && i < keys.len() ==> keys[i - 1] != keys[i as int],
                validators@.len() > 0 ==> i > 0 && validators@.last().public_key == keys[i - 1],
            decreases self.slots@.len() - i,
        {
            let public_key = self.slots[i].public_key;
            let mut num_slots: u16 = 0;
            let ghost start = i as int;
            while i < self.slots.len() && public_key.same(&self.slots[i].public_key)
                invariant
                    0 <= start <= i <= self.slots@.len(),
                    self.slots@ == self@,
                    start < keys.len(),
                    keys == keys_of(self.slots@),
                    public_key == keys[start],
                    num_slots == i - start,
                    forall|k: int| start <= k < i ==> #[trigger] keys[k] == public_key,
                    i == start ==> i < self.slots@.len(),
                decreases self.slots@.len() - i,
            {
                if num_slots == u16::MAX {
                    assert(same_stretch(keys, start, i as int));
                    return None;
                }
                num_slots = num_slots + 1;
                i = i + 1;
            }
            assert(i > start);
            let ghost before = validators@;
            validators.push(Validator { public_key, num_slots });
            proof {
                assert(validators@.drop_last() =~= before);
                assert(expanded(validators@) =~= keys.take(i as int));
                lemma_short_run(keys, start, i as int);
                assert(merged(validators@)) by {
                    assert forall|a: int, b: int|
                        0 <= a && b == a + 1 && b
                            < validators@.len() implies (#[trigger] validators@[a]).public_key != (
                    #[trigger] validators@[b]).public_key by {
                        if b < before.len() {
                            assert(before[a].public_key != before[b].public_key);
                        } else {
                            assert(validators@[a] == before.last());
                        }
                    }
                }
            }
        }
        assert(keys.take(i as int) =~= keys);
        Some(validators)
    }
}

/// No stretch of one key among the first `n` is longer than a validator can have slots.
spec fn short_upto(keys: Seq<LazyPublicKey>, n: int) -> bool {
    forall|i: int, j: int|
        0 <= i <= j < n && #[trigger] same_stretch(keys, i, j) ==> j - i < u16::MAX
}

/// A run that begins where the key changes, and is not too long itself, makes no
/// stretch too long.
proof fn lemma_short_run(keys: Seq<LazyPublicKey>, start: int, end: int)
    requires
        0 <= start < end <= keys.len(),
        end - start <= u16::MAX,
        short_upto(keys, start),
        start > 0 ==> keys[start - 1] != keys[start],
    ensures
        short_upto(keys, end),
{
    assert forall|i: int, j: int|
        0 <= i <= j < end && #[trigger] same_stretch(keys, i, j) implies j - i < u16::MAX by {
        if j >= start && i < start {
            assert(keys[start - 1] == keys[i]);
            assert(keys[start] == keys[i]);
        }
    }
}

impl IntoIterator for Slots {
    type Item = Slot;

    type IntoIter = std::vec::IntoIter<Slot>;

    /// All slots, one after the other.
    fn into_iter(self) -> (it: std::vec::IntoIter<Slot>)
        ensures
            it.remaining() == self@,
    {
        self.slots.into_iter()
    }
}

/// How many slots the validators have together.
pub open spec fn total_slots(validators: Seq<Validator>) -> nat
    decreases validators.len(),
{
    if validators.len() == 0 {
        0
    } else {
        total_slots(validators.drop_last()) + validators.last().num_slots as nat
    }
}

/// Validators that stand for some slots have, together, as many as those are.
pub proof fn law_slots_are_kept(slots: Seq<Slot>, validators: Seq<Validator>)
    requires
        expanded(validators) == keys_of(slots),
    ensures
        total_slots(validators) == slots.len(),
{
    lemma_expanded_len(validators);
}

/// Each key stands as often as its validator has slots.
proof fn lemma_expanded_len(validators: Seq<Validator>)
    ensures
        expanded(validators).len() == total_slots(validators),
    decreases validators.len(),
{
    if validators.len() > 0 {
        lemma_expanded_len(validators.drop_last());
    }
}

/// There is only one way to merge slots into validators.
pub proof fn law_validators_unique(v: Seq<Validator>, w: Seq<Validator>)
    requires
        merged(v),
        merged(w),
        expanded(v) == expanded(w),
    ensures
        v == w,
    decreases v.len(),
{
    if v.len() == 0 {
        if w.len() > 0 {
            lemma_expanded_last(w);
        }
        assert(v =~= w);
    } else {
        lemma_expanded_last(v);
        if w.len() > 0 {
            lemma_expanded_last(w);
        }
        assert(w.len() > 0);
        lemma_last_run(v, w);
        lemma_last_run(w, v);
        let v1 = v.drop_last();
        let w1 = w.drop_last();
        assert(v.last() == w.last());
        assert(expanded(v1) =~= expanded(v).take(expanded(v1).len() as int));
        assert(expanded(w1) =~= expanded(w).take(expanded(w1).len() as int));
        lemma_merged_front(v);
        lemma_merged_front(w);
        law_validators_unique(v1, w1);
        assert(v =~= v1.push(v.last()));
        assert(w =~= w1.push(w.last()));
    }
}

/// The last key belongs to the last validator.
proof fn lemma_expanded_last(v: Seq<Validator>)
    requires
        merged(v),
        v.len() > 0,
    ensures
        expanded(v).len() > 0,
        expanded(v).last() == v.last().public_key,
{
    assert(v[v.len() - 1].num_slots > 0);
}

/// Without its last validator a merged list is merged.
proof fn lemma_merged_front(v: Seq<Validator>)
    requires
        merged(v),
        v.len() > 0,
    ensures
        merged(v.drop_last()),
{
    let f = v.drop_last();
    assert forall|i: int| 0 <= i < f.len() implies (#[trigger] f[i]).num_slots > 0 by {
        assert(v[i].num_slots > 0);
    }
    assert forall|i: int, j: int| 0 <= i && j == i + 1 && j < f.len() implies (
    #[trigger] f[i]).public_key != (#[trigger] f[j]).public_key by {
        assert(v[i].public_key != v[j].public_key);
    }
}

/// Of two merged lists with the same keys, neither ends in a longer run.
proof fn lemma_last_run(v: Seq<Validator>, w: Seq<Validator>)
    requires
        merged(v),
        merged(w),
        expanded(v) == expanded(w),
        v.len() > 0,
        w.len() > 0,
    ensures
        v.last().num_slots >= w.last().num_slots,
        v.last().public_key == w.last().public_key,
{
    lemma_expanded_last(v);
    lemma_expanded_last(w);
    let n = v.last().num_slots as int;
    if n < w.last().num_slots {
        let f = v.drop_last();
        let p = expanded(v).len() - n - 1;
        assert(expanded(f).len() == p + 1);
        assert(expanded(w)[p] == w.last().public_key);
        assert(f.len() > 0);
        lemma_merged_front(v);
        lemma_expanded_last(f);
        assert(expanded(v)[p] == expanded(f)[p]);
        assert(v[v.len() - 2].public_key != v[v.len() - 1].public_key);
    }
}

/// Where there are no more slots than one validator can have, as in every list
/// read from bytes, no stretch is too long to be merged.
pub proof fn law_few_slots_can_be_merged(slots: Seq<Slot>)
    requires
        slots.len() <= u16::MAX,
    ensures
        short_stretches(keys_of(slots)),
{
}

/// Validators that stand for some slots, place by place: validator `v` has the slots from
/// `at[v]` up to `at[v + 1]`, as many as it counts, and every one of them has its key. All
/// slots are covered. Where the validators are merged, each has a slot, and the key
/// changes from the last slot of one to the first of the next.
pub proof fn law_slots_of_validators(
    slots: Seq<Slot>,
    validators: Seq<Validator>,
    at: Seq<int>,
    v: int,
    k: int,
)
    requires
        expanded(validators) == keys_of(slots),
        at.len() == validators.len() + 1,
        at[0] == 0,
        forall|w: int|
            #![trigger at[w + 1]]
            0 <= w < validators.len() ==> at[w + 1] == at[w] + validators[w].num_slots,
        0 <= v < validators.len(),
    ensures
        at[validators.len() as int] == slots.len(),
        0 <= at[v] <= at[v + 1] <= slots.len(),
        at[v] <= k < at[v + 1] ==> slots[k].public_key == validators[v].public_key,
        merged(validators) ==> at[v] < at[v + 1],
        merged(validators) && v > 0 ==> slots[at[v] - 1].public_key != slots[at[v]].public_key,
{
    let n = validators.len() as int;
    assert(validators.take(n) =~= validators);
    lemma_expanded_place(validators, at, v, k, n);
    assert(keys_of(slots).len() == slots.len());
    if at[v] <= k < at[v + 1] {
        assert(keys_of(slots)[k] == slots[k].public_key);
    }
    if merged(validators) {
        assert(validators[v].num_slots > 0);
        assert(at[v + 1] == at[v] + validators[v].num_slots);
        if v > 0 {
            assert(validators[v - 1].num_slots > 0);
            assert(validators[v - 1].public_key != validators[v].public_key);
            assert(at[v - 1 + 1] == at[v - 1] + validators[v - 1].num_slots);
            lemma_expanded_place(validators, at, v - 1, at[v] - 1, n);
            lemma_expanded_place(validators, at, v, at[v], n);
            assert(keys_of(slots)[at[v] - 1] == slots[at[v] - 1].public_key);
            assert(keys_of(slots)[at[v]] == slots[at[v]].public_key);
        }
    }
}

/// Among the keys of the first `n` validators, that of validator `v` stands at its places.
proof fn lemma_expanded_place(validators: Seq<Validator>, at: Seq<int>, v: int, k: int, n: int)
    requires
        at.len() == validators.len() + 1,
        at[0] == 0,
        forall|w: int|
            #![trigger at[w + 1]]
            0 <= w < validators.len() ==> at[w + 1] == at[w] + validators[w].num_slots,
        0 <= n <= validators.len(),
    ensures
        expanded(validators.take(n)).len() == at[n],
        0 <= v < n ==> 0 <= at[v] <= at[v + 1] <= at[n],
        0 <= v < n && at[v] <= k < at[v + 1] ==> expanded(validators.take(n))[k]
            == validators[v].public_key,
    decreases n,
{
    if n > 0 {
        lemma_expanded_place(validators, at, v, k, n - 1);
        assert(validators.take(n).drop_last() =~= validators.take(n - 1));
        assert(at[n - 1 + 1] == at[n - 1] + validators[n - 1].num_slots);
    } else {
        assert(expanded(validators.take(n)) =~= Seq::empty());
    }
}

/// No stretch is too long exactly if among any 65536 slots in a row some key differs
/// from the first.
pub proof fn law_short_stretches(slots: Seq<Slot>)
    ensures
        short_stretches(keys_of(slots)) <==> forall|i: int|
            0 <= i && i + 65535 < slots.len() ==> exists|k: int|
                i <= k <= i + 65535 && (#[trigger] slots[k]).public_key != (
                #[trigger] slots[i]).public_key,
{
    let keys = keys_of(slots);
    if short_stretches(keys) {
        assert forall|i: int| 0 <= i && i + 65535 < slots.len() implies exists|k: int|
            i <= k <= i + 65535 && (#[trigger] slots[k]).public_key != (
            #[trigger] slots[i]).public_key by {
            assert(!same_stretch(keys, i, i + 65535));
            let k = choose|k: int| i <= k <= i + 65535 && #[trigger] keys[k] != keys[i];
            assert(slots[k].public_key != slots[i].public_key);
        }
    } else {
        let (i, j) = choose|i: int, j: int|
            0 <= i <= j < keys.len() && #[trigger] same_stretch(keys, i, j) && j - i >= u16::MAX;
        assert(slots[i].public_key == keys[i]);
        assert forall|k: int| i <= k <= i + 65535 implies (#[trigger] slots[k]).public_key
            == slots[i].public_key by {
            assert(keys[k] == keys[i]);
        }
    }
}

} // verus!
