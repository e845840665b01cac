//! What the stakes of a ledger add up to.

use crate::address::Address;
use crate::coin::MAX_SAFE_VALUE;
use crate::ledger::Ledger;
use crate::stake::{ActiveStake, InactiveStake, StakeKey};
use vstd::prelude::*;

verus! {

/// The sum of `amount` over the values of a finite map.
pub open spec fn sum_of<V>(m: Map<Address, V>, amount: spec_fn(V) -> nat) -> nat
    decreases m.dom().len(),
    when m.dom().finite()
{
    if m.dom().len() == 0 {
        0
    } else {
        let a = m.dom().choose();
        amount(m[a]) + sum_of(m.remove(a), amount)
    }
}

/// Any one entry can be taken out of a sum.
pub proof fn lemma_sum_split<V>(m: Map<Address, V>, amount: spec_fn(V) -> nat, k: Address)
    requires
        m.dom().finite(),
        m.contains_key(k),
    ensures
        sum_of(m, amount) == amount(m[k]) + sum_of(m.remove(k), amount),
    decreases m.dom().len(),
{
    let a = m.dom().choose();
    assert(m.dom().contains(k));
    assert(m.dom().len() > 0);
    assert(m.dom().contains(a));
    if a != k {
        lemma_sum_split(m.remove(a), amount, k);
        lemma_sum_split(m.remove(k), amount, a);
        assert(m.remove(a).remove(k) =~= m.remove(k).remove(a));
    }
}

/// Setting an entry changes a sum by what the entry changes.
pub proof fn lemma_sum_insert<V>(m: Map<Address, V>, amount: spec_fn(V) -> nat, k: Address, v: V)
    requires
        m.dom().finite(),
    ensures
        sum_of(m.insert(k, v), amount) == sum_of(m.remove(k), amount) + amount(v),
        m.contains_key(k) ==> sum_of(m, amount) == sum_of(m.remove(k), amount) + amount(m[k]),
        !m.contains_key(k) ==> sum_of(m, amount) == sum_of(m.remove(k), amount),
{
    lemma_sum_split(m.insert(k, v), amount, k);
    assert(m.insert(k, v).remove(k) =~= m.remove(k));
    if m.contains_key(k) {
        lemma_sum_split(m, amount, k);
    } else {
        assert(m.remove(k) =~= m);
    }
}

/// The balance of an active stake.
pub open spec fn active_amount() -> spec_fn(ActiveStake) -> nat {
    |s: ActiveStake| s.balance.lunas as nat
}

/// The balance of an inactive stake.
pub open spec fn inactive_amount() -> spec_fn(InactiveStake) -> nat {
    |s: InactiveStake| s.balance.lunas as nat
}

impl Ledger {
    /// What all active stakes add up to.
    pub open spec fn active_total(self) -> nat {
        sum_of(self.by_address, active_amount())
    }

    /// What all inactive stakes add up to.
    pub open spec fn inactive_total(self) -> nat {
        sum_of(self.inactive, inactive_amount())
    }

    /// The active stake of a staker, in lunas.
    pub open spec fn active_of(self, staker: Address) -> nat {
        match self.by_address.get(staker) {
            Some(s) => s.balance.lunas as nat,
            None => 0,
        }
    }

    /// The inactive stake of a staker, in lunas.
    pub open spec fn inactive_of(self, staker: Address) -> nat {
        match self.inactive.get(staker) {
            Some(s) => s.balance.lunas as nat,
            None => 0,
        }
    }

    /// The balance is what the stakes add up to.
    pub open spec fn backed(self) -> bool {
        self.balance.lunas == self.active_total() + self.inactive_total()
    }

    /// What holds of every ledger that transactions lead to: its two views of the
    /// active stakes agree, and a safe balance backs the stakes.
    pub open spec fn sound(self) -> bool {
        &&& self.consistent()
        &&& self.backed()
        &&& self.balance.lunas <= MAX_SAFE_VALUE
    }
}

/// All amounts of a ledger are within the safe range.
pub open spec fn amounts_safe(l: Ledger) -> bool {
    &&& l.balance.lunas <= MAX_SAFE_VALUE
    &&& forall|k: StakeKey| #[trigger]
        l.sorted.contains_key(k) ==> l.sorted[k].balance.lunas <= MAX_SAFE_VALUE
    &&& forall|a: Address| #[trigger]
        l.inactive.contains_key(a) ==> l.inactive[a].balance.lunas <= MAX_SAFE_VALUE
}

/// No staker has more than there is in all.
pub proof fn lemma_stake_within_total(l: Ledger, staker: Address)
    requires
        l.by_address.dom().finite(),
        l.inactive.dom().finite(),
    ensures
        l.active_of(staker) <= l.active_total(),
        l.inactive_of(staker) <= l.inactive_total(),
{
    if l.by_address.contains_key(staker) {
        lemma_sum_split(l.by_address, active_amount(), staker);
    }
    if l.inactive.contains_key(staker) {
        lemma_sum_split(l.inactive, inactive_amount(), staker);
    }
}

} // verus!
