use vstd::prelude::*;

use crate::digest::{copy_digests, has_dup, Digest};

verus! {

/// A transaction record as the pool sees it: its identifying digest, the
/// serial numbers it spends, the commitments it creates, its memorandum tag
/// and its byte size.
#[derive(Debug)]
pub struct SerialTransaction {
    pub id: Digest,
    pub old_serial_numbers: Vec<Digest>,
    pub new_commitments: Vec<Digest>,
    pub memorandum: Digest,
    pub size_in_bytes: u64,
}

/// The mathematical value of a transaction: what the admission rules read.
#[verifier::ext_equal]
pub struct TxView {
    pub id: Digest,
    pub serials: Seq<Digest>,
    pub commitments: Seq<Digest>,
    pub memo: Digest,
    pub size: u64,
}

impl TxView {
    /// No serial number repeats and no commitment repeats within the
    /// transaction itself.
    pub open spec fn internally_consistent(self) -> bool {
        !has_dup(self.serials) && !has_dup(self.commitments)
    }
}

/// Two transactions share a serial number, a commitment, or a memorandum:
/// they can never stand in the pool together.
pub open spec fn overlapping(a: TxView, b: TxView) -> bool {
    ||| exists|d: Digest| a.serials.contains(d) && b.serials.contains(d)
    ||| exists|d: Digest| a.commitments.contains(d) && b.commitments.contains(d)
    ||| a.memo == b.memo
}

/// Two transactions that may stand in one pool together: distinct digests,
/// disjoint serial numbers and commitments, distinct memoranda.
pub open spec fn compatible(a: TxView, b: TxView) -> bool {
    &&& a.id != b.id
    &&& !overlapping(a, b)
}

impl View for SerialTransaction {
    type V = TxView;

    open spec fn view(&self) -> TxView {
        TxView {
            id: self.id,
            serials: self.old_serial_numbers@,
            commitments: self.new_commitments@,
            memo: self.memorandum,
            size: self.size_in_bytes,
        }
    }
}

impl Clone for SerialTransaction {
    fn clone(&self) -> (r: Self)
        ensures
            r@ == self@,
    {
        SerialTransaction {
            id: self.id,
            old_serial_numbers: copy_digests(&self.old_serial_numbers),
            new_commitments: copy_digests(&self.new_commitments),
            memorandum: self.memorandum,
            size_in_bytes: self.size_in_bytes,
        }
    }
}

} // verus!
