use vstd::prelude::*;

use crate::digest::{digests_contain, Digest};
use crate::errors::LedgerFault;

verus! {

/// What the canonical ledger holds, as far as admission cares: the spent
/// serial numbers, the existing commitments and the seen memoranda.
pub struct LedgerView {
    pub serials: Set<Digest>,
    pub commitments: Set<Digest>,
    pub memos: Set<Digest>,
}

/// The membership queries the mempool makes against canonical ledger state.
/// Backends are swapped at construction time; the core never assumes a
/// concrete one. Each lookup is I/O and may fail transiently: a lookup
/// answers exactly when the backend is available, and then reports
/// membership in the backend's view.
pub trait LedgerAdapter: Sized {
    /// The ledger contents this backend answers from.
    spec fn lview(&self) -> LedgerView;

    /// Whether the backend can currently answer queries.
    spec fn available(&self) -> bool;

    /// Whether the serial number is already spent on the canonical ledger.
    fn contains_serial(&self, serial: &Digest) -> (r: Result<bool, LedgerFault>)
        ensures
            r is Ok <==> self.available(),
            r matches Ok(b) ==> b == self.lview().serials.contains(*serial),
    ;

    /// Whether the commitment already exists on the canonical ledger.
    fn contains_commitment(&self, commitment: &Digest) -> (r: Result<bool, LedgerFault>)
        ensures
            r is Ok <==> self.available(),
            r matches Ok(b) ==> b == self.lview().commitments.contains(*commitment),
    ;

    /// Whether the memorandum already exists on the canonical ledger.
    fn contains_memo(&self, memo: &Digest) -> (r: Result<bool, LedgerFault>)
        ensures
            r is Ok <==> self.available(),
            r matches Ok(b) ==> b == self.lview().memos.contains(*memo),
    ;
}

/// An in-memory ledger backend. `online` stands for the transient health of
/// the underlying store: while it is false every lookup fails recoverably.
pub struct MemoryLedger {
    pub spent_serials: Vec<Digest>,
    pub commitments: Vec<Digest>,
    pub memos: Vec<Digest>,
    pub online: bool,
}

impl MemoryLedger {
    pub fn new() -> (r: MemoryLedger)
        ensures
            r.lview().serials == Set::<Digest>::empty(),
            r.lview().commitments == Set::<Digest>::empty(),
            r.lview().memos == Set::<Digest>::empty(),
            r.available(),
    {
        let r = MemoryLedger {
            spent_serials: Vec::new(),
            commitments: Vec::new(),
            memos: Vec::new(),
            online: true,
        };
        proof {
            assert(r.lview().serials =~= Set::<Digest>::empty());
            assert(r.lview().commitments =~= Set::<Digest>::empty());
            assert(r.lview().memos =~= Set::<Digest>::empty());
        }
        r
    }
}

impl LedgerAdapter for MemoryLedger {
    open spec fn lview(&self) -> LedgerView {
        LedgerView {
            serials: self.spent_serials@.to_set(),
            commitments: self.commitments@.to_set(),
            memos: self.memos@.to_set(),
        }
    }

    open spec fn available(&self) -> bool {
        self.online
    }

    fn contains_serial(&self, serial: &Digest) -> (r: Result<bool, LedgerFault>) {
        if self.online {
            Ok(digests_contain(&self.spent_serials, *serial))
        } else {
            Err(LedgerFault)
        }
    }

    fn contains_commitment(&self, commitment: &Digest) -> (r: Result<bool, LedgerFault>) {
        if self.online {
            Ok(digests_contain(&self.commitments, *commitment))
        } else {
            Err(LedgerFault)
        }
    }

    fn contains_memo(&self, memo: &Digest) -> (r: Result<bool, LedgerFault>) {
        if self.online {
            Ok(digests_contain(&self.memos, *memo))
        } else {
            Err(LedgerFault)
        }
    }
}

} // verus!
