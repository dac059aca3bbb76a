//! The messages an external caller hands to the ledger, and the structured
//! answers it gets back.

use vstd::prelude::*;

use crate::state::LockEntry;
use crate::state::UnlockEntry;

verus! {

/// The initialization parameters of the ledger.
#[derive(Clone, Debug)]
pub struct InstantiateMsg {
    pub rebase_interval: u64,
    pub unlock_interval: u64,
    pub denom: String,
}

/// The four operations an external caller invokes. A deposit's amount is the
/// attached asset amount supplied by the execution context; a rebase's price
/// sample is supplied by the oracle collaborator.
#[derive(Clone, Copy, Debug, PartialEq, Eq, Structural)]
pub enum ExecuteMsg {
    Deposit {},
    Unlock { amount: u128 },
    Withdraw {},
    Rebase {},
}

/// The read-only queries.
#[derive(Clone, Debug)]
pub enum QueryMsg {
    GetUnlocks { address: String },
    GetLocks { address: String },
}

/// The structured answer to a query.
#[derive(Clone, Debug)]
pub enum QueryAnswer {
    Locks { lock: Option<LockEntry> },
    Unlocks { unlocks: Vec<UnlockEntry> },
}

/// The asset-custody effect a successful operation instructs the external
/// collaborator to perform.
#[derive(Clone, Copy, Debug, PartialEq, Eq, Structural)]
pub enum LedgerEffect {
    /// Take (burn) this much of the base asset from the caller.
    Burn { amount: u128 },
    /// Release (mint) this much of the base asset to the caller.
    Mint { amount: u128 },
    /// No asset movement.
    NoTransfer {},
}

/// A response struct for a count query surface.
#[derive(Clone, Copy, Debug, PartialEq, Eq, Structural)]
pub struct CountResponse {
    pub count: i32,
}

} // verus!
