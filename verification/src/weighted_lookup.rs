//! Looking up which of several weighted items covers a position.
//!
//! The items are laid out one behind the other on a line, each as long as its
//! weight; a position belongs to the item that covers it.

use crate::address::Address;
use vstd::prelude::*;

verus! {

/// The sum of the first `n` weights: where item `n` begins.
pub open spec fn offset(weights: Seq<(Address, u64)>, n: int) -> nat
    decreases n,
{
    if n <= 0 {
        0
    } else {
        offset(weights, n - 1) + weights[n - 1].1 as nat
    }
}

/// Item `j` covers `position`.
pub open spec fn covers(weights: Seq<(Address, u64)>, j: int, position: nat) -> bool {
    0 <= j < weights.len() && offset(weights, j) <= position < offset(weights, j + 1)
}

/// The item that covers `position`.
pub open spec fn owner(weights: Seq<(Address, u64)>, position: nat) -> int {
    choose|j: int| covers(weights, j, position)
}

/// Offsets only grow.
pub proof fn lemma_offset_grows(weights: Seq<(Address, u64)>, m: int, n: int)
    requires
        m <= n,
    ensures
        offset(weights, m) <= offset(weights, n),
    decreases n - m,
{
    if m < n {
        lemma_offset_grows(weights, m, n - 1);
    }
}

/// At most one item covers a position.
pub proof fn lemma_owner_unique(weights: Seq<(Address, u64)>, j: int, position: nat)
    requires
        covers(weights, j, position),
    ensures
        owner(weights, position) == j,
{
    let k = owner(weights, position);
    assert(covers(weights, k, position));
    if k < j {
        lemma_offset_grows(weights, k + 1, j);
    } else if j < k {
        lemma_offset_grows(weights, j + 1, k);
    }
}

/// Every position within the sum of the weights is covered.
pub proof fn lemma_owner_exists(weights: Seq<(Address, u64)>, n: int, position: nat)
    requires
        0 <= n <= weights.len(),
        position < offset(weights, n),
    ensures
        covers(weights, owner(weights, position), position),
    decreases n,
{
    if position >= offset(weights, n - 1) {
        assert(covers(weights, n - 1, position));
    } else {
        lemma_owner_exists(weights, n - 1, position);
    }
}

/// Weighted items, prepared for looking up positions.
pub struct WeightedLookup {
    items: Vec<(Address, u64)>,
    ends: Vec<u64>,
}

impl View for WeightedLookup {
    type V = Seq<(Address, u64)>;

    closed spec fn view(&self) -> Seq<(Address, u64)> {
        self.items@
    }
}

impl WeightedLookup {
    #[verifier::type_invariant]
    spec fn ends_match(self) -> bool {
        &&& self.ends@.len() == self.items@.len()
        &&& forall|i: int|
            0 <= i < self.ends@.len() ==> #[trigger] self.ends@[i] == offset(self.items@, i + 1)
    }

    /// Prepares the items, in the order given.
    pub fn new(weights: Vec<(Address, u64)>) -> (t: WeightedLookup)
        requires
            offset(weights@, weights@.len() as int) <= u64::MAX,
        ensures
            t@ == weights@,
    {
        let mut ends: Vec<u64> = Vec::new();
        let mut total: u64 = 0;
        let mut i: usize = 0;
        while i < weights.len()
            invariant
                i <= weights@.len(),
                ends@.len() == i,
                total == offset(weights@, i as int),
                offset(weights@, weights@.len() as int) <= u64::MAX,
                forall|j: int|
                    0 <= j < i ==> #[trigger] ends@[j] == offset(weights@, j + 1),
            decreases weights@.len() - i,
        {
            proof {
                lemma_offset_grows(weights@, i + 1, weights@.len() as int);
            }
            total = total + weights[i].1;
            ends.push(total);
            i = i + 1;
        }
        WeightedLookup { items: weights, ends }
    }

    /// The sum of all weights.
    pub fn range(&self) -> (n: u64)
        ensures
            n == offset(self@, self@.len() as int),
    {
        proof {
            use_type_invariant(self);
        }
        let n: usize = self.ends.len();
        if n == 0 {
            0
        } else {
            self.ends[n - 1]
        }
    }

    /// The item that covers `position`, if there is one.
    pub fn find(&self, position: u64) -> (a: Option<Address>)
        ensures
            position < offset(self@, self@.len() as int) ==> covers(
                self@,
                owner(self@, position as nat),
                position as nat,
            ) && a == Some(self@[owner(self@, position as nat)].0),
            position >= offset(self@, self@.len() as int) ==> a is None,
    {
        proof {
            use_type_invariant(self);
        }
        let ghost w = self@;
        let mut lo: usize = 0;
        let mut hi: usize = self.ends.len();
        while lo < hi
            invariant
                lo <= hi <= self.ends@.len(),
                w == self@,
                self.ends@.len() == self.items@.len(),
                forall|i: int|
                    0 <= i < self.ends@.len() ==> #[trigger] self.ends@[i] == offset(
                        self.items@,
                        i + 1,
                    ),
                offset(w, lo as int) <= position,
                hi < self.ends@.len() ==> position < offset(w, hi + 1),
            decreases hi - lo,
        {
            let mid: usize = lo + (hi - lo) / 2;
            assert(self.ends@[mid as int] == offset(w, mid + 1));
            if position < self.ends[mid] {
                hi = mid;
            } else {
                lo = mid + 1;
            }
        }
        if lo < self.items.len() {
            proof {
                assert(covers(w, lo as int, position as nat));
                lemma_owner_unique(w, lo as int, position as nat);
                lemma_offset_grows(w, lo + 1, w.len() as int);
            }
            Some(self.items[lo].0)
        } else {
            None
        }
    }
}

} // verus!
