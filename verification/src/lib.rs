//! Append-only bookkeeping core of a chain-watching wallet.
//!
//! The crate records every transaction and output a wallet has observed,
//! resolves each record against a pluggable best-chain oracle, and derives
//! spendable balances from that resolution. All state changes flow through
//! mergeable, idempotent diffs so that a persisted diff stream can be
//! replayed after a crash.

pub mod index;
pub mod indexed_tx_graph;
pub mod kv;
pub mod laws;
pub mod oracle;
pub mod sync;
pub mod tx_graph;
pub mod types;
