//! Consensus core of a blockchain node: admission of transactions into the
//! pending pool, detection of forks in recent canonical history, and the
//! per-peer synchronization state machine.

pub mod digest;
pub mod errors;
pub mod transaction;
pub mod ledger;
pub mod mempool;
pub mod storage;
pub mod fork;
pub mod sync;
pub mod consensus;
