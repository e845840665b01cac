# nimiq-staking

A proof-of-stake staking contract with its proofs, written in Verus.

The contract keeps, for every staker, an active stake that counts when validators
are selected and an inactive stake that waits to be paid out. Transactions stake,
retire and unstake, and every one of them can be undone with the receipt that it
left.

- `src/ledger.rs` is the mathematical model: the state of a contract and what each
  step makes of it. `src/staking_contract.rs` carries the steps out,
  `src/interaction.rs` ties them to transactions.
- `src/laws.rs`, `src/transaction_laws.rs` and `src/selection_laws.rs` state what
  holds of the contract as a whole: the stakes are always backed by the balance,
  undoing a transaction restores the state, locked stake stays locked.
- `src/selection.rs` selects the validators of an epoch; `src/validators.rs` groups
  slots into validators.
- `src/codec.rs`, `src/stake.rs`, `src/contract_codec.rs` and `src/slots_codec.rs`
  are the wire formats, each with a proof that what is written is read back and that
  nothing cut short is accepted. `src/contract_reader.rs` and `src/slots_reader.rs`
  read them piece by piece.
- `src/block_body.rs` checks, writes and hashes the body of a block.
- `app/` is ordinary Rust around the library: byte streams, and the types of the
  other Nimiq crates.

Four calls leave the verified code: Blake2b and hash-tree roots (`src/hash.rs`), the
check that a key is a point of the curve (`src/bls.rs`), and the signer of a
signature proof (`src/transaction.rs`).
