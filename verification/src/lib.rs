//! Replay engine for a rollup account ledger.
//!
//! The ledger is reconstructed purely by folding an ordered sequence of
//! typed operations (deposits, transfers, withdrawals, closes, forced
//! exits) over an account tree, so that any party can recompute balances,
//! nonces, address assignments and the tree's root commitment from public
//! chain data alone.

pub mod account;
pub mod hash;
pub mod tree;
pub mod index;
pub mod executor;
pub mod state;
pub mod laws;
