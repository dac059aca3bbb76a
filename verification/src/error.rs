use vstd::prelude::*;

verus! {

/// The ledger's error taxonomy. Every operation either commits a consistent
/// new state or returns one of these and changes nothing.
#[derive(Clone, Copy, Debug, PartialEq, Eq, Structural)]
pub enum ContractError {
    /// The history is empty, no snapshot qualifies for the required time, or a
    /// stored basis multiplier is zero.
    NoRebaseRecord,
    /// The owner has no locked balance.
    NoLockEntry,
    /// No pending unlock exists at the referenced time.
    NoPendingUnlock,
    /// An unlock request exceeds the locked principal.
    InsufficientFunds,
    /// A rebase snapshot already exists at the trigger time.
    DuplicateTimestamp,
    /// A deposit of amount zero is rejected.
    ZeroAmount,
    /// A conversion or accumulation does not fit the amount range.
    Overflow,
}

impl ContractError {
    /// The stable, per-kind user-visible message.
    pub open spec fn spec_message(self) -> Seq<char> {
        match self {
            ContractError::NoRebaseRecord => "No rebase record"@,
            ContractError::NoLockEntry => "No lock entry"@,
            ContractError::NoPendingUnlock => "No pending unlock"@,
            ContractError::InsufficientFunds => "Insufficient funds"@,
            ContractError::DuplicateTimestamp => "Duplicate rebase timestamp"@,
            ContractError::ZeroAmount => "Zero amount"@,
            ContractError::Overflow => "Overflow"@,
        }
    }

    /// One unambiguous message per error kind.
    pub fn message(&self) -> (m: &'static str)
        ensures
            m@ == self.spec_message(),
    {
        match self {
            ContractError::NoRebaseRecord => "No rebase record",
            ContractError::NoLockEntry => "No lock entry",
            ContractError::NoPendingUnlock => "No pending unlock",
            ContractError::InsufficientFunds => "Insufficient funds",
            ContractError::DuplicateTimestamp => "Duplicate rebase timestamp",
            ContractError::ZeroAmount => "Zero amount",
            ContractError::Overflow => "Overflow",
        }
    }
}

} // verus!
