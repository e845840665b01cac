//! The parameters that the rules of the chain depend on.

use vstd::prelude::*;

verus! {

/// The parameters of a chain.
#[derive(Clone, Copy, Debug, PartialEq, Eq)]
pub struct Policy {
    /// How many blocks there are from one macro block to the next.
    pub epoch_length: u32,
    /// How many blocks retired stake is still locked after the next macro block.
    pub unstake_delay: u32,
    /// The number of votes that a majority has to exceed.
    pub two_third_validators: u16,
}

/// The first macro block after `block_height`.
pub open spec fn macro_block_after(policy: Policy, block_height: u32) -> int {
    (block_height as int / policy.epoch_length as int + 1) * policy.epoch_length
}

/// From this height on, stake retired at `retire_time` can be paid out.
pub open spec fn unlock_height(policy: Policy, retire_time: u32) -> int {
    macro_block_after(policy, retire_time) + policy.unstake_delay
}

impl Policy {
    /// The first macro block after `block_height`.
    pub fn next_macro_block(&self, block_height: u32) -> (h: u64)
        requires
            self.epoch_length > 0,
        ensures
            h == macro_block_after(*self, block_height),
            block_height < h <= block_height + self.epoch_length,
            h as int % self.epoch_length as int == 0,
    {
        let q: u64 = block_height as u64 / self.epoch_length as u64;
        let ghost e = self.epoch_length as int;
        let ghost b = block_height as int;
        proof {
            vstd::arithmetic::div_mod::lemma_fundamental_div_mod(b, e);
            vstd::arithmetic::div_mod::lemma_mod_bound(b, e);
            assert((b / e + 1) * e == e * (b / e) + e) by (nonlinear_arith);
            assert(q == b / e);
            vstd::arithmetic::div_mod::lemma_mod_multiples_basic(b / e + 1, e);
        }
        (q + 1) * (self.epoch_length as u64)
    }
}

} // verus!
