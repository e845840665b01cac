//! Verified model of a proof-of-stake staking contract: the stake ledger, its
//! reversible transactions, the selection of validators, and the wire formats.

pub mod address;
pub mod base_laws;
pub mod block_body;
pub mod bls;
pub mod codec;
pub mod coin;
pub mod contract_codec;
pub mod contract_laws;
pub mod contract_reader;
pub mod error;
pub mod hash;
pub mod interaction;
pub mod interaction_laws;
pub mod laws;
pub mod ledger;
pub mod policy;
pub mod selection;
pub mod selection_laws;
pub mod slots_codec;
pub mod slots_reader;
pub mod sorted_map;
pub mod stake;
pub mod staking_contract;
pub mod step_laws;
pub mod totals;
pub mod transaction;
pub mod transaction_laws;
pub mod validators;
pub mod weighted_lookup;
pub mod wire_laws;
