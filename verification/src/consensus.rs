use vstd::prelude::*;

use crate::digest::Digest;
use crate::errors::ConsensusError;
use crate::fork::{forks_below, scan_forks, OLDEST_FORK_THRESHOLD};
use crate::ledger::LedgerAdapter;
use crate::mempool::{Mempool, PoolView};
use crate::storage::{canon_window, StorageAdapter};
use crate::transaction::SerialTransaction;

verus! {

/// The consensus coordinator: owns the ledger handle, the mempool and the
/// storage handle, and exposes the operations block acceptance and
/// transaction relay call into. All logic is delegated; callers serialize
/// mutation (one exclusive handle) while pure queries may run concurrently.
pub struct ConsensusInner<L: LedgerAdapter, S: StorageAdapter> {
    pub ledger: L,
    pub memory_pool: Mempool,
    pub storage: S,
}

impl<L: LedgerAdapter, S: StorageAdapter> ConsensusInner<L, S> {
    /// The coordinator's invariant: its pool is well-formed.
    pub open spec fn wf(self) -> bool {
        self.memory_pool.wf()
    }

    /// A coordinator starting with an empty pool over the given backends.
    pub fn new(ledger: L, storage: S) -> (r: Self)
        ensures
            r.ledger == ledger,
            r.storage == storage,
            r.memory_pool@ == PoolView::empty(),
            r.wf(),
    {
        ConsensusInner { ledger, memory_pool: Mempool::new(), storage }
    }

    /// Adds the transaction to the memory pool if it is valid in the current
    /// ledger: every admission check must pass, and then all of its markers
    /// are reserved atomically. `Ok(None)` turns the transaction away
    /// without mutating anything; an error is a ledger fault met before the
    /// checks finished, and mutates nothing either.
    pub fn insert_into_mempool(&mut self, transaction: SerialTransaction) -> (r: Result<
        Option<Digest>,
        ConsensusError,
    >)
        requires
            old(self).wf(),
        ensures
            final(self).wf(),
            final(self).ledger == old(self).ledger,
            final(self).storage == old(self).storage,
            r is Err <==> (!old(self).ledger.available() && !old(
                self,
            ).memory_pool@.pre_ledger_rejects(transaction@)),
            r is Err ==> final(self).memory_pool@ == old(self).memory_pool@,
            (r matches Ok(Some(d))) <==> (old(self).ledger.available() && !old(
                self,
            ).memory_pool@.rejects(old(self).ledger.lview(), transaction@)),
            r matches Ok(Some(d)) ==> d == transaction.id && final(self).memory_pool@ == old(
                self,
            ).memory_pool@.admitted(transaction@),
            r matches Ok(None) ==> old(self).memory_pool@.rejects(
                old(self).ledger.lview(),
                transaction@,
            ) && final(self).memory_pool@ == old(self).memory_pool@,
    {
        self.memory_pool.insert(&self.ledger, transaction)
    }

    /// Cleanse the memory pool of outdated transactions: rebuild it by
    /// re-admitting every held transaction, in insertion order, against a
    /// freshly emptied pool. On a ledger fault the pool is restored to its
    /// pre-cleanse state.
    pub fn cleanse_memory_pool(&mut self) -> (r: Result<(), ConsensusError>)
        requires
            old(self).wf(),
        ensures
            final(self).wf(),
            final(self).ledger == old(self).ledger,
            final(self).storage == old(self).storage,
            r is Err <==> (!old(self).ledger.available() && old(self).memory_pool@.txs.len() > 0),
            r is Err ==> final(self).memory_pool@ == old(self).memory_pool@,
            r is Ok ==> final(self).memory_pool@ == PoolView::empty().replay(
                old(self).ledger.lview(),
                old(self).memory_pool@.txs,
            ),
    {
        self.memory_pool.cleanse(&self.ledger)
    }

    /// Scans the recent canonical chain, up to the fork-resolution depth,
    /// for known children that diverge from the canonical path. Read-only.
    pub fn scan_forks(&self) -> (r: Result<Vec<(Digest, Digest)>, ConsensusError>)
        ensures
            r is Ok <==> self.storage.available(),
            r matches Ok(v) ==> v@ == forks_below(
                self.storage,
                canon_window(self.storage.canon_desc(), Some(OLDEST_FORK_THRESHOLD)),
                0,
            ),
    {
        match scan_forks(&self.storage, OLDEST_FORK_THRESHOLD) {
            Ok(v) => Ok(v),
            Err(f) => Err(ConsensusError::Storage(f)),
        }
    }
}

} // verus!
