//! Account addresses and their order.

use crate::sorted_map::{KeyOrder, SortKey};
use vstd::prelude::*;

verus! {

/// The number of bytes in an address.
pub const ADDRESS_SIZE: usize = 20;

/// The address of an account.
#[derive(Clone, Copy, Debug, PartialEq, Eq, PartialOrd, Ord, Hash)]
pub struct Address {
    pub bytes: [u8; 20],
}

/// The two addresses agree on their first `n` bytes.
pub open spec fn agree_upto(a: Address, b: Address, n: int) -> bool {
    forall|j: int| 0 <= j < n ==> #[trigger] a.bytes@[j] == b.bytes@[j]
}

/// The two addresses first differ at byte `i`, where `a` is smaller.
pub open spec fn smaller_at(a: Address, b: Address, i: int) -> bool {
    0 <= i < ADDRESS_SIZE && agree_upto(a, b, i) && a.bytes@[i] < b.bytes@[i]
}

/// Addresses that agree on every byte are equal.
pub proof fn lemma_same_bytes(a: Address, b: Address)
    requires
        agree_upto(a, b, ADDRESS_SIZE as int),
    ensures
        a == b,
{
    assert forall|i: int| 0 <= i < 20 implies a.bytes[i] == b.bytes[i] by {
        assert(a.bytes@[i] == b.bytes@[i]);
    }
    assert(a.bytes =~= b.bytes);
}

/// Addresses that differ somewhere have a first difference.
proof fn lemma_first_difference(a: Address, b: Address, n: int)
    requires
        0 <= n <= ADDRESS_SIZE,
    ensures
        agree_upto(a, b, n) || (exists|i: int| smaller_at(a, b, i)) || (exists|i: int|
            smaller_at(b, a, i)),
    decreases n,
{
    if n > 0 {
        lemma_first_difference(a, b, n - 1);
        if agree_upto(a, b, n - 1) {
            let i = n - 1;
            if a.bytes@[i] < b.bytes@[i] {
                assert(smaller_at(a, b, i));
            } else if b.bytes@[i] < a.bytes@[i] {
                assert(agree_upto(b, a, i));
                assert(smaller_at(b, a, i));
            }
        }
    }
}

impl SortKey for Address {
    /// Byte by byte, the first difference decides.
    open spec fn before(self, other: Self) -> bool {
        exists|i: int| smaller_at(self, other, i)
    }

    proof fn before_irreflexive(a: Self) {
    }

    proof fn before_transitive(a: Self, b: Self, c: Self) {
        let i = choose|i: int| smaller_at(a, b, i);
        let j = choose|j: int| smaller_at(b, c, j);
        let k = if i < j { i } else { j };
        assert forall|l: int| 0 <= l < k implies #[trigger] a.bytes@[l] == c.bytes@[l] by {
            assert(a.bytes@[l] == b.bytes@[l]);
            assert(b.bytes@[l] == c.bytes@[l]);
        }
        assert(a.bytes@[k] <= b.bytes@[k]);
        assert(b.bytes@[k] <= c.bytes@[k]);
        assert(smaller_at(a, c, k));
    }

    proof fn before_total(a: Self, b: Self) {
        lemma_first_difference(a, b, ADDRESS_SIZE as int);
        if agree_upto(a, b, ADDRESS_SIZE as int) {
            lemma_same_bytes(a, b);
        }
    }

    fn order(&self, other: &Self) -> (o: KeyOrder) {
        let mut i: usize = 0;
        while i < 20
            invariant
                i <= 20,
                agree_upto(*self, *other, i as int),
            decreases 20 - i,
        {
            let x: u8 = self.bytes[i];
            let y: u8 = other.bytes[i];
            if x < y {
                assert(smaller_at(*self, *other, i as int));
                return KeyOrder::Less;
            }
            if y < x {
                assert(agree_upto(*other, *self, i as int));
                assert(smaller_at(*other, *self, i as int));
                return KeyOrder::Greater;
            }
            i = i + 1;
        }
        proof {
            lemma_same_bytes(*self, *other);
        }
        KeyOrder::Equal
    }
}

impl Default for Address {
    /// The address of zeros.
    fn default() -> (a: Address)
        ensures
            a.bytes@ == Seq::new(20, |i: int| 0u8),
    {
        let a = Address { bytes: [0u8;20] };
        assert(a.bytes@ =~= Seq::new(20, |i: int| 0u8));
        a
    }
}

impl Address {
    /// Whether two addresses are the same.
    pub fn same(&self, other: &Address) -> (b: bool)
        ensures
            b == (*self == *other),
    {
        match self.order(other) {
            KeyOrder::Equal => true,
            KeyOrder::Less => {
                proof {
                    Address::before_irreflexive(*self);
                }
                false
            },
            KeyOrder::Greater => {
                proof {
                    Address::before_irreflexive(*self);
                }
                false
            },
        }
    }
}

} // verus!
