# sailfish

The core of a DAG-based consensus node, verified with Verus. The decisions of its tasks stand in `src/`
as functions and state machines over plain values, with contracts that Verus proves. The program in
`app/` does the input and output: it reads the clock, the store and the network, hands what it finds
to the library, and does what the library asks for.

- `src/ident.rs`, `src/messages.rs`, `src/committee.rs`: names, messages and members.
- `src/key.rs`, `src/table.rs`, `src/sorting.rs`, `src/decimal.rs`: ordered tables, a stable sort and
  decimal notation.
- `src/primary/`: what a primary does. `header_waiter.rs` fetches what headers lack (its model is
  `waiter_model.rs`, what always holds of it `waiter_laws.rs`), `proposer.rs` makes headers,
  `committer.rs` executes committed slots, `helper.rs` answers other primaries, `primary.rs` holds
  the messages and tells who handles them, `metrics.rs` and `telemetry.rs` keep accounts.
- `src/worker/`: what a worker does. `batch_maker.rs` assembles batches, `processor.rs` names them,
  `primary_connector.rs` judges how fast they reach the primary, and `synchronizer.rs` fetches those
  that are missing (with `sync_model.rs` and `sync_laws.rs`).
- `src/network/`: how messages are sent and taken in.
- `src/node.rs`: how a node is started and how its metrics are served.

A state machine is driven by events. Each of its steps takes the time and whatever came from outside
as arguments, so that what is proved holds of every clock, every store and every network.
