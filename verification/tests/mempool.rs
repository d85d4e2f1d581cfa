use consensus_core::digest::Digest;
use consensus_core::errors::{ConsensusError, LedgerFault};
use consensus_core::ledger::MemoryLedger;
use consensus_core::mempool::Mempool;
use consensus_core::transaction::SerialTransaction;

fn tx(id: u64, serials: &[u64], commitments: &[u64], memo: u64) -> SerialTransaction {
    SerialTransaction {
        id: Digest(id),
        old_serial_numbers: serials.iter().map(|s| Digest(*s)).collect(),
        new_commitments: commitments.iter().map(|c| Digest(*c)).collect(),
        memorandum: Digest(memo),
        size_in_bytes: 32,
    }
}

#[test]
fn admits_then_rejects_serial_collision() {
    let ledger = MemoryLedger::new();
    let mut pool = Mempool::new();
    let r1 = pool.insert(&ledger, tx(1, &[10], &[20], 30)).unwrap();
    assert_eq!(r1, Some(Digest(1)));
    let r2 = pool.insert(&ledger, tx(2, &[10], &[21], 31)).unwrap();
    assert_eq!(r2, None);
    assert_eq!(pool.len(), 1);
}

#[test]
fn rejects_commitment_collision() {
    let ledger = MemoryLedger::new();
    let mut pool = Mempool::new();
    assert_eq!(pool.insert(&ledger, tx(1, &[10], &[20], 30)).unwrap(), Some(Digest(1)));
    assert_eq!(pool.insert(&ledger, tx(2, &[11], &[20], 31)).unwrap(), None);
    assert_eq!(pool.len(), 1);
}

#[test]
fn rejects_memo_collision() {
    let ledger = MemoryLedger::new();
    let mut pool = Mempool::new();
    assert_eq!(pool.insert(&ledger, tx(1, &[10], &[20], 30)).unwrap(), Some(Digest(1)));
    assert_eq!(pool.insert(&ledger, tx(2, &[11], &[21], 30)).unwrap(), None);
    assert_eq!(pool.len(), 1);
}

#[test]
fn rejects_duplicate_digest() {
    let ledger = MemoryLedger::new();
    let mut pool = Mempool::new();
    assert_eq!(pool.insert(&ledger, tx(1, &[10], &[20], 30)).unwrap(), Some(Digest(1)));
    // same digest, entirely different markers: still turned away
    assert_eq!(pool.insert(&ledger, tx(1, &[11], &[21], 31)).unwrap(), None);
    assert_eq!(pool.len(), 1);
}

#[test]
fn rejects_internal_duplicate_serial() {
    let ledger = MemoryLedger::new();
    let mut pool = Mempool::new();
    assert_eq!(pool.insert(&ledger, tx(1, &[10, 10], &[20], 30)).unwrap(), None);
    assert_eq!(pool.len(), 0);
}

#[test]
fn rejects_internal_duplicate_commitment() {
    let ledger = MemoryLedger::new();
    let mut pool = Mempool::new();
    assert_eq!(pool.insert(&ledger, tx(1, &[10], &[20, 20], 30)).unwrap(), None);
    assert_eq!(pool.len(), 0);
}

#[test]
fn rejects_ledger_spent_serial() {
    let mut ledger = MemoryLedger::new();
    ledger.spent_serials.push(Digest(10));
    let mut pool = Mempool::new();
    assert_eq!(pool.insert(&ledger, tx(1, &[10], &[20], 30)).unwrap(), None);
    assert_eq!(pool.len(), 0);
}

#[test]
fn rejects_ledger_commitment() {
    let mut ledger = MemoryLedger::new();
    ledger.commitments.push(Digest(20));
    let mut pool = Mempool::new();
    assert_eq!(pool.insert(&ledger, tx(1, &[10], &[20], 30)).unwrap(), None);
    assert_eq!(pool.len(), 0);
}

#[test]
fn rejects_ledger_memo() {
    let mut ledger = MemoryLedger::new();
    ledger.memos.push(Digest(30));
    let mut pool = Mempool::new();
    assert_eq!(pool.insert(&ledger, tx(1, &[10], &[20], 30)).unwrap(), None);
    assert_eq!(pool.len(), 0);
}

#[test]
fn insert_fails_on_ledger_fault_without_mutation() {
    let mut ledger = MemoryLedger::new();
    ledger.online = false;
    let mut pool = Mempool::new();
    let r = pool.insert(&ledger, tx(1, &[10], &[20], 30));
    assert_eq!(r, Err(ConsensusError::Ledger(LedgerFault)));
    assert_eq!(pool.len(), 0);
    assert_eq!(pool.serial_numbers.len(), 0);
    assert_eq!(pool.commitments.len(), 0);
    assert_eq!(pool.memos.len(), 0);
}

#[test]
fn insert_still_rejects_duplicates_on_faulty_ledger() {
    // the duplicate-marker checks need no ledger lookup, so they still answer
    let mut ledger = MemoryLedger::new();
    ledger.online = false;
    let mut pool = Mempool::new();
    assert_eq!(pool.insert(&ledger, tx(1, &[10, 10], &[20], 30)).unwrap(), None);
}

#[test]
fn cleanse_consistent_pool_is_identity() {
    let ledger = MemoryLedger::new();
    let mut pool = Mempool::new();
    assert_eq!(pool.insert(&ledger, tx(1, &[10], &[20], 30)).unwrap(), Some(Digest(1)));
    assert_eq!(pool.insert(&ledger, tx(2, &[11, 12], &[21], 31)).unwrap(), Some(Digest(2)));
    assert_eq!(pool.insert(&ledger, tx(3, &[13], &[22, 23], 32)).unwrap(), Some(Digest(3)));

    let digests_before: Vec<Digest> =
        pool.transactions.iter().map(|e| e.transaction.id).collect();
    let serials_before = pool.serial_numbers.clone();
    let commitments_before = pool.commitments.clone();
    let memos_before = pool.memos.clone();

    pool.cleanse(&ledger).unwrap();

    let digests_after: Vec<Digest> =
        pool.transactions.iter().map(|e| e.transaction.id).collect();
    assert_eq!(digests_after, digests_before);
    assert_eq!(pool.serial_numbers, serials_before);
    assert_eq!(pool.commitments, commitments_before);
    assert_eq!(pool.memos, memos_before);
}

#[test]
fn cleanse_drops_entries_spent_on_ledger() {
    let mut ledger = MemoryLedger::new();
    let mut pool = Mempool::new();
    assert_eq!(pool.insert(&ledger, tx(1, &[10], &[20], 30)).unwrap(), Some(Digest(1)));
    assert_eq!(pool.insert(&ledger, tx(2, &[11], &[21], 31)).unwrap(), Some(Digest(2)));
    // a block lands and spends one of the pooled serial numbers
    ledger.spent_serials.push(Digest(10));
    pool.cleanse(&ledger).unwrap();
    let digests: Vec<Digest> = pool.transactions.iter().map(|e| e.transaction.id).collect();
    assert_eq!(digests, vec![Digest(2)]);
    assert_eq!(pool.serial_numbers, vec![Digest(11)]);
    assert_eq!(pool.commitments, vec![Digest(21)]);
    assert_eq!(pool.memos, vec![Digest(31)]);
}

#[test]
fn cleanse_rolls_back_on_ledger_fault() {
    let mut ledger = MemoryLedger::new();
    let mut pool = Mempool::new();
    assert_eq!(pool.insert(&ledger, tx(1, &[10], &[20], 30)).unwrap(), Some(Digest(1)));
    assert_eq!(pool.insert(&ledger, tx(2, &[11], &[21], 31)).unwrap(), Some(Digest(2)));

    let digests_before: Vec<Digest> =
        pool.transactions.iter().map(|e| e.transaction.id).collect();
    let serials_before = pool.serial_numbers.clone();
    let commitments_before = pool.commitments.clone();
    let memos_before = pool.memos.clone();

    ledger.online = false;
    let r = pool.cleanse(&ledger);
    assert_eq!(r, Err(ConsensusError::Ledger(LedgerFault)));

    let digests_after: Vec<Digest> =
        pool.transactions.iter().map(|e| e.transaction.id).collect();
    assert_eq!(digests_after, digests_before);
    assert_eq!(pool.serial_numbers, serials_before);
    assert_eq!(pool.commitments, commitments_before);
    assert_eq!(pool.memos, memos_before);
}

#[test]
fn cleanse_of_empty_pool_is_ok_even_offline() {
    let mut ledger = MemoryLedger::new();
    ledger.online = false;
    let mut pool = Mempool::new();
    assert_eq!(pool.cleanse(&ledger), Ok(()));
    assert_eq!(pool.len(), 0);
}

#[test]
fn cached_entry_size_matches_transaction() {
    let ledger = MemoryLedger::new();
    let mut pool = Mempool::new();
    pool.insert(&ledger, tx(1, &[10], &[20], 30)).unwrap();
    assert_eq!(pool.transactions[0].size_in_bytes, 32);
    assert_eq!(pool.transactions[0].transaction.size_in_bytes, 32);
}
