//! A rebase-indexed balance ledger: participants deposit a base asset, request
//! timed unlocks of part of it, and withdraw once an unlock has matured, while
//! an append-only history of rebase multipliers continuously re-values every
//! recorded balance.

pub mod contract;
pub mod convert;
pub mod error;
pub mod history;
pub mod msg;
pub mod state;
