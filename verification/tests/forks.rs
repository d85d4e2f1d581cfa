use consensus_core::digest::Digest;
use consensus_core::errors::StorageFault;
use consensus_core::fork::scan_forks;
use consensus_core::storage::MemoryStorage;

fn storage(canon_newest_first: &[u64], children: &[(u64, &[u64])]) -> MemoryStorage {
    MemoryStorage {
        canon: canon_newest_first.iter().map(|h| Digest(*h)).collect(),
        children: children
            .iter()
            .map(|(p, cs)| (Digest(*p), cs.iter().map(|c| Digest(*c)).collect()))
            .collect(),
        online: true,
    }
}

#[test]
fn empty_history_yields_no_forks() {
    let s = storage(&[], &[]);
    assert_eq!(scan_forks(&s, 1024).unwrap(), vec![]);
}

#[test]
fn single_block_history_yields_no_forks() {
    let s = storage(&[1], &[]);
    assert_eq!(scan_forks(&s, 1024).unwrap(), vec![]);
}

#[test]
fn two_children_yield_one_fork_record() {
    // canonical chain, newest first: 3 <- 2 <- 1; block 1 also has child 99
    let s = storage(&[3, 2, 1], &[(2, &[3]), (1, &[2, 99])]);
    assert_eq!(scan_forks(&s, 1024).unwrap(), vec![(Digest(1), Digest(99))]);
}

#[test]
fn linear_history_yields_no_forks() {
    let s = storage(&[4, 3, 2, 1], &[(3, &[4]), (2, &[3]), (1, &[2])]);
    assert_eq!(scan_forks(&s, 1024).unwrap(), vec![]);
}

#[test]
fn every_sibling_is_reported_in_window_order() {
    // block 2 has two extra children, block 1 one extra: targets come newest
    // first, siblings in the order the backend lists them
    let s = storage(
        &[3, 2, 1],
        &[(2, &[50, 3, 51]), (1, &[2, 99])],
    );
    assert_eq!(
        scan_forks(&s, 1024).unwrap(),
        vec![(Digest(2), Digest(50)), (Digest(2), Digest(51)), (Digest(1), Digest(99))]
    );
}

#[test]
fn lookback_limits_the_window() {
    // the fork below block 1 is older than the two-block window
    let s = storage(&[3, 2, 1], &[(2, &[3]), (1, &[2, 99])]);
    assert_eq!(scan_forks(&s, 2).unwrap(), vec![]);
}

#[test]
fn unknown_children_mean_no_fork() {
    // no children recorded at all for block 1
    let s = storage(&[2, 1], &[]);
    assert_eq!(scan_forks(&s, 1024).unwrap(), vec![]);
}

#[test]
fn scan_fails_recoverably_when_storage_is_offline() {
    let mut s = storage(&[3, 2, 1], &[(2, &[3]), (1, &[2, 99])]);
    s.online = false;
    assert_eq!(scan_forks(&s, 1024), Err(StorageFault));
}
