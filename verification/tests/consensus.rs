use consensus_core::consensus::ConsensusInner;
use consensus_core::digest::Digest;
use consensus_core::errors::{ConsensusError, StorageFault};
use consensus_core::ledger::MemoryLedger;
use consensus_core::storage::{BlockOrder, MemoryStorage, StorageAdapter};
use consensus_core::transaction::SerialTransaction;

fn tx(id: u64, serials: &[u64], commitments: &[u64], memo: u64) -> SerialTransaction {
    SerialTransaction {
        id: Digest(id),
        old_serial_numbers: serials.iter().map(|s| Digest(*s)).collect(),
        new_commitments: commitments.iter().map(|c| Digest(*c)).collect(),
        memorandum: Digest(memo),
        size_in_bytes: 16,
    }
}

fn node() -> ConsensusInner<MemoryLedger, MemoryStorage> {
    let storage = MemoryStorage {
        canon: vec![Digest(3), Digest(2), Digest(1)],
        children: vec![(Digest(2), vec![Digest(3)]), (Digest(1), vec![Digest(2), Digest(99)])],
        online: true,
    };
    ConsensusInner::new(MemoryLedger::new(), storage)
}

#[test]
fn coordinator_inserts_and_rejects() {
    let mut inner = node();
    assert_eq!(inner.insert_into_mempool(tx(1, &[10], &[20], 30)).unwrap(), Some(Digest(1)));
    assert_eq!(inner.insert_into_mempool(tx(2, &[10], &[21], 31)).unwrap(), None);
    assert_eq!(inner.memory_pool.len(), 1);
}

#[test]
fn coordinator_cleanses_after_block_lands() {
    let mut inner = node();
    inner.insert_into_mempool(tx(1, &[10], &[20], 30)).unwrap();
    inner.insert_into_mempool(tx(2, &[11], &[21], 31)).unwrap();
    inner.ledger.spent_serials.push(Digest(11));
    inner.cleanse_memory_pool().unwrap();
    let digests: Vec<Digest> =
        inner.memory_pool.transactions.iter().map(|e| e.transaction.id).collect();
    assert_eq!(digests, vec![Digest(1)]);
}

#[test]
fn coordinator_scans_forks() {
    let inner = node();
    assert_eq!(inner.scan_forks().unwrap(), vec![(Digest(1), Digest(99))]);
}

#[test]
fn coordinator_scan_reports_storage_fault() {
    let mut inner = node();
    inner.storage.online = false;
    assert_eq!(inner.scan_forks(), Err(ConsensusError::Storage(StorageFault)));
}

#[test]
fn block_hashes_obey_limit_and_order() {
    let inner = node();
    let newest_two =
        inner.storage.get_block_hashes(Some(2), BlockOrder::Descending).unwrap();
    assert_eq!(newest_two, vec![Digest(3), Digest(2)]);
    let oldest_first = inner.storage.get_block_hashes(None, BlockOrder::Ascending).unwrap();
    assert_eq!(oldest_first, vec![Digest(1), Digest(2), Digest(3)]);
}

#[test]
fn block_children_answer_from_the_recorded_entry() {
    let inner = node();
    let kids = inner.storage.get_block_children(&Digest(1)).unwrap();
    assert_eq!(kids, vec![Digest(2), Digest(99)]);
    let none = inner.storage.get_block_children(&Digest(3)).unwrap();
    assert_eq!(none, Vec::<Digest>::new());
}
