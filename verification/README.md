# por_sim

A simulator of proof-of-work blockchains that reflect each other (proof of reflection),
used to measure how well double-spending and selfish-mining attackers do. Its core is
verified with Verus.

## Layout

- `src/` — the verified library.
  - `types.rs`, `hash.rs`, `rng.rs`, `collections.rs`: ids, hashing (XXH3), randomness,
    and the sets and maps of ids the chains keep.
  - `transactions.rs`: transactions, their encoding and ids, and the store of them.
  - `block.rs`, `block_metadata.rs`: single-parent and DAG blocks, the block store, and walks
    over a block's ancestors.
  - `chain.rs` and `chain/`: a chain's public and private sides, the fork rules, the common
    ancestor search, block validation and difficulty adjustment, and syncing the two sides.
  - `node.rs`, `msg.rs`: miners and the messages between them.
  - `strategies/relay.rs`: double spending and selfish mining.
  - `message_manager.rs`: the simulation loop over all chains and nodes.
  - `state.rs`: persistent state kept beside a chain.
  - `cli.rs`: checks of command line numbers.
- `tests/` — tests of the library.
- `app/` — the command line program: argument parsing, hash-rate distribution, timing and
  the printed summary.
