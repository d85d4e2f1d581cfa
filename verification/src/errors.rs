use vstd::prelude::*;

verus! {

/// A transient failure of the ledger backend: a membership lookup could not
/// be answered. Recoverable; the caller may retry.
#[derive(Clone, Copy, PartialEq, Eq, Structural, Debug)]
pub struct LedgerFault;

/// A transient failure of the block storage backend: a traversal query could
/// not be answered. Recoverable; the caller may retry.
#[derive(Clone, Copy, PartialEq, Eq, Structural, Debug)]
pub struct StorageFault;

/// The error surface of the consensus core. Every variant is recoverable:
/// the coordinator reports it and keeps serving other sessions.
#[derive(Clone, Copy, PartialEq, Eq, Structural, Debug)]
pub enum ConsensusError {
    /// A ledger membership lookup failed mid-operation.
    Ledger(LedgerFault),
    /// A canonical-chain traversal query failed.
    Storage(StorageFault),
}

} // verus!
