//! Validation and ledger-state core of a UTXO-model sidechain.
//!
//! The crate decides whether a transaction or block body may extend the
//! current chain, and applies accepted blocks to a set of unspent outputs,
//! keeping the invariant that every spent output was authorized by its owner
//! and not previously spent. Blocks can be disconnected again, so that
//! reorganizations of the parent ("main") chain can retract previously
//! materialized deposits and withdrawals.

pub mod address;
pub mod authorization;
pub mod codec;
pub mod collections;
pub mod hashes;
pub mod state_machine;
pub mod traits;
pub mod types;
pub mod validator;
