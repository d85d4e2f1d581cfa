use vstd::prelude::*;

use crate::digest::Digest;

verus! {

/// An opaque identifier for the peer a session synchronizes with; the
/// transport that resolves it to a connection lives outside the core.
#[derive(Clone, Copy, PartialEq, Eq, Structural, Hash, Debug)]
pub struct PeerAddr(pub u64);

/// Where a synchronization session stands.
#[derive(Clone, Copy, PartialEq, Eq, Structural, Debug)]
pub enum SyncPhase {
    /// No outstanding headers and not syncing.
    Idle,
    /// A hash range was requested; waiting for the peer's headers.
    AwaitingHeaders,
    /// Holding a non-empty header queue and requesting block bodies.
    FetchingBlocks,
    /// The session was cancelled; no further requests are made.
    Cancelled,
}

/// One outbound protocol request, to be sent over the peer channel by the
/// transport around the core.
#[derive(Clone, PartialEq, Eq, Debug)]
pub enum SyncMessage {
    /// Request a single block body by hash.
    GetBlock(Digest),
    /// Request the block hashes the peer has beyond the given checkpoints; an
    /// empty sequence requests from the peer's own known starting point.
    GetSync(Vec<Digest>),
}

/// A per-peer synchronization session: the target peer, the queue of block
/// headers still to fetch, the phase and the height baseline of the current
/// pass.
#[derive(Debug)]
pub struct SyncHandler {
    pub sync_node: PeerAddr,
    pub block_headers: Vec<Digest>,
    pub phase: SyncPhase,
    pub height: u32,
}

impl SyncHandler {
    /// Whether the session is actively syncing.
    pub open spec fn is_syncing(self) -> bool {
        self.phase is AwaitingHeaders || self.phase is FetchingBlocks
    }

    /// A fresh, idle session bound to a peer.
    pub fn new(sync_node: PeerAddr) -> (r: SyncHandler)
        ensures
            r.sync_node == sync_node,
            r.block_headers@ == Seq::<Digest>::empty(),
            r.phase is Idle,
            r.height == 0,
    {
        SyncHandler { sync_node, block_headers: Vec::new(), phase: SyncPhase::Idle, height: 0 }
    }

    /// Mark the session active at the given height baseline, priming a fresh
    /// sync pass; the header queue and the peer binding are kept.
    pub fn update_syncing(&mut self, height: u32)
        ensures
            final(self).sync_node == old(self).sync_node,
            final(self).block_headers@ == old(self).block_headers@,
            final(self).phase is AwaitingHeaders,
            final(self).height == height,
    {
        self.phase = SyncPhase::AwaitingHeaders;
        self.height = height;
    }

    /// Cancel the session: the queue is dropped and no request follows. Safe
    /// between any two steps; no partial state is left behind.
    pub fn cancel(&mut self)
        ensures
            final(self).sync_node == old(self).sync_node,
            final(self).block_headers@ == Seq::<Digest>::empty(),
            final(self).phase is Cancelled,
            final(self).height == old(self).height,
    {
        self.block_headers.clear();
        self.phase = SyncPhase::Cancelled;
    }

    /// One step of the session: exactly one outbound request is decided per
    /// call, and none when the session is idle or cancelled. With headers
    /// queued, the head of the queue is consumed and its block body is
    /// requested; with an empty queue while syncing, a hash range is
    /// requested from the peer's own starting point. The caller performs the
    /// send; a failed send is recoverable and the session may simply be
    /// stepped again (requests carry at-least-once semantics).
    pub fn increment(&mut self) -> (m: Option<SyncMessage>)
        ensures
            final(self).sync_node == old(self).sync_node,
            final(self).height == old(self).height,
            old(self).block_headers@.len() > 0 ==> (m matches Some(SyncMessage::GetBlock(d))
                && d == old(self).block_headers@[0]
                && final(self).block_headers@ == old(self).block_headers@.drop_first()
                && final(self).phase is FetchingBlocks),
            old(self).block_headers@.len() == 0 && old(self).is_syncing() ==> (m matches Some(
                SyncMessage::GetSync(v),
            ) && v@ == Seq::<Digest>::empty()
                && final(self).block_headers@ == old(self).block_headers@
                && final(self).phase is AwaitingHeaders),
            old(self).block_headers@.len() == 0 && !old(self).is_syncing() ==> m is None
                && final(self).block_headers@ == old(self).block_headers@
                && final(self).phase == old(self).phase,
    {
        if self.block_headers.len() > 0 {
            let head = self.block_headers.remove(0);
            self.phase = SyncPhase::FetchingBlocks;
            Some(SyncMessage::GetBlock(head))
        } else {
            let syncing = match self.phase {
                SyncPhase::AwaitingHeaders => true,
                SyncPhase::FetchingBlocks => true,
                SyncPhase::Idle => false,
                SyncPhase::Cancelled => false,
            };
            if syncing {
                self.phase = SyncPhase::AwaitingHeaders;
                Some(SyncMessage::GetSync(Vec::new()))
            } else {
                None
            }
        }
    }
}

} // verus!
