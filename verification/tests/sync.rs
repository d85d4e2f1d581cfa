use consensus_core::digest::Digest;
use consensus_core::sync::{PeerAddr, SyncHandler, SyncMessage, SyncPhase};

#[test]
fn sends_get_block() {
    let block_hash = Digest(77);

    // 1. Push hash to sync handler, set syncing to true
    let mut sync_handler = SyncHandler::new(PeerAddr(1));
    sync_handler.block_headers.push(block_hash);
    sync_handler.update_syncing(1);

    // 2. Step the handler

    let message = sync_handler.increment();

    // 3. Check that exactly one GetBlock request for the head was decided

    assert_eq!(message, Some(SyncMessage::GetBlock(block_hash)));
    assert_eq!(sync_handler.block_headers.len(), 0);
}

#[test]
fn sends_get_sync() {
    // 1. Set syncing to true

    let mut sync_handler = SyncHandler::new(PeerAddr(1));
    sync_handler.update_syncing(0);

    // 2. Step the handler

    let message = sync_handler.increment();

    // 3. Check that a GetSync request with an empty starting point was decided

    assert_eq!(message, Some(SyncMessage::GetSync(vec![])));
    assert_eq!(sync_handler.phase, SyncPhase::AwaitingHeaders);
}

#[test]
fn queue_advances_one_header_per_step() {
    let mut h = SyncHandler::new(PeerAddr(9));
    h.block_headers.push(Digest(1));
    h.block_headers.push(Digest(2));
    h.update_syncing(5);
    assert_eq!(h.increment(), Some(SyncMessage::GetBlock(Digest(1))));
    assert_eq!(h.phase, SyncPhase::FetchingBlocks);
    assert_eq!(h.increment(), Some(SyncMessage::GetBlock(Digest(2))));
    // queue exhausted: the next step asks the peer for more hashes
    assert_eq!(h.increment(), Some(SyncMessage::GetSync(vec![])));
    assert_eq!(h.phase, SyncPhase::AwaitingHeaders);
}

#[test]
fn idle_session_takes_no_action() {
    let mut h = SyncHandler::new(PeerAddr(9));
    assert_eq!(h.increment(), None);
    assert_eq!(h.phase, SyncPhase::Idle);
}

#[test]
fn cancelled_session_takes_no_action() {
    let mut h = SyncHandler::new(PeerAddr(9));
    h.block_headers.push(Digest(1));
    h.update_syncing(3);
    h.cancel();
    assert_eq!(h.block_headers.len(), 0);
    assert_eq!(h.phase, SyncPhase::Cancelled);
    assert_eq!(h.increment(), None);
}

#[test]
fn update_syncing_keeps_queue_and_sets_height() {
    let mut h = SyncHandler::new(PeerAddr(4));
    h.block_headers.push(Digest(8));
    h.update_syncing(42);
    assert_eq!(h.height, 42);
    assert_eq!(h.block_headers, vec![Digest(8)]);
    assert_eq!(h.phase, SyncPhase::AwaitingHeaders);
}
