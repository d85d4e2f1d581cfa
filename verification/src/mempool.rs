use vstd::prelude::*;

use crate::digest::{digests_contain, has_dup, has_duplicates, Digest};
use crate::errors::ConsensusError;
use crate::ledger::{LedgerAdapter, LedgerView};
use crate::transaction::{compatible, overlapping, SerialTransaction, TxView};

verus! {

/// A pool entry: a transaction together with its cached byte size.
#[derive(Debug)]
pub struct MempoolEntry {
    pub size_in_bytes: u64,
    pub transaction: SerialTransaction,
}

/// The mathematical value of the pool: the stored transactions in insertion
/// order and the three reservation collections.
#[verifier::ext_equal]
pub struct PoolView {
    pub txs: Seq<TxView>,
    pub serials: Seq<Digest>,
    pub commitments: Seq<Digest>,
    pub memos: Seq<Digest>,
}

/// The transaction cannot enter because the canonical ledger already holds
/// one of its serial numbers, one of its commitments, or its memorandum.
pub open spec fn ledger_conflicts(lv: LedgerView, t: TxView) -> bool {
    ||| exists|k: int| 0 <= k < t.serials.len() && lv.serials.contains(#[trigger] t.serials[k])
    ||| exists|k: int|
        0 <= k < t.commitments.len() && lv.commitments.contains(#[trigger] t.commitments[k])
    ||| lv.memos.contains(t.memo)
}

impl PoolView {
    pub open spec fn empty() -> PoolView {
        PoolView {
            txs: Seq::empty(),
            serials: Seq::empty(),
            commitments: Seq::empty(),
            memos: Seq::empty(),
        }
    }

    /// A transaction with this digest is already stored.
    pub open spec fn has_digest(self, d: Digest) -> bool {
        exists|i: int| 0 <= i < self.txs.len() && (#[trigger] self.txs[i]).id == d
    }

    /// Some stored transaction carries this serial number.
    pub open spec fn holds_serial(self, d: Digest) -> bool {
        exists|i: int| 0 <= i < self.txs.len() && (#[trigger] self.txs[i]).serials.contains(d)
    }

    /// Some stored transaction carries this commitment.
    pub open spec fn holds_commitment(self, d: Digest) -> bool {
        exists|i: int| 0 <= i < self.txs.len() && (#[trigger] self.txs[i]).commitments.contains(d)
    }

    /// Some stored transaction carries this memorandum.
    pub open spec fn holds_memo(self, d: Digest) -> bool {
        exists|i: int| 0 <= i < self.txs.len() && (#[trigger] self.txs[i]).memo == d
    }

    /// The checks that need no ledger lookup: a duplicate marker inside the
    /// transaction itself, or a transaction with the same digest already in
    /// the pool.
    pub open spec fn pre_ledger_rejects(self, t: TxView) -> bool {
        !t.internally_consistent() || self.has_digest(t.id)
    }

    /// The transaction cannot enter because the pool already reserved one of
    /// its serial numbers, one of its commitments, or its memorandum.
    pub open spec fn pool_conflicts(self, t: TxView) -> bool {
        ||| exists|k: int|
            0 <= k < t.serials.len() && self.serials.contains(#[trigger] t.serials[k])
        ||| exists|k: int|
            0 <= k < t.commitments.len() && self.commitments.contains(#[trigger] t.commitments[k])
        ||| self.memos.contains(t.memo)
    }

    /// The transaction is turned away ("not admitted"): routine behaviour,
    /// never an error.
    pub open spec fn rejects(self, lv: LedgerView, t: TxView) -> bool {
        self.pre_ledger_rejects(t) || ledger_conflicts(lv, t) || self.pool_conflicts(t)
    }

    /// The pool after an admission: the entry appended, every marker of the
    /// transaction reserved.
    pub open spec fn admitted(self, t: TxView) -> PoolView {
        PoolView {
            txs: self.txs.push(t),
            serials: self.serials + t.serials,
            commitments: self.commitments + t.commitments,
            memos: self.memos.push(t.memo),
        }
    }

    /// The pool that results from re-admitting the pending transactions one
    /// by one, in order, against this pool: an entry that any admission check
    /// turns away is silently dropped.
    pub open spec fn replay(self, lv: LedgerView, pending: Seq<TxView>) -> PoolView
        decreases pending.len(),
    {
        if pending.len() == 0 {
            self
        } else {
            let next = if self.rejects(lv, pending[0]) {
                self
            } else {
                self.admitted(pending[0])
            };
            next.replay(lv, pending.drop_first())
        }
    }

    /// The pool's invariant: stored transactions are internally consistent
    /// and pairwise compatible, the reservation collections hold no
    /// duplicates, and they hold exactly the markers of the stored
    /// transactions (no orphaned reservations).
    pub open spec fn wf(self) -> bool {
        &&& forall|i: int|
            0 <= i < self.txs.len() ==> (#[trigger] self.txs[i]).internally_consistent()
        &&& forall|i: int, j: int|
            0 <= i < j < self.txs.len() ==> compatible(
                #[trigger] self.txs[i],
                #[trigger] self.txs[j],
            )
        &&& !has_dup(self.serials)
        &&& !has_dup(self.commitments)
        &&& !has_dup(self.memos)
        &&& forall|d: Digest|
            #![trigger self.serials.contains(d)]
            #![trigger self.holds_serial(d)]
            self.serials.contains(d) <==> self.holds_serial(d)
        &&& forall|d: Digest|
            #![trigger self.commitments.contains(d)]
            #![trigger self.holds_commitment(d)]
            self.commitments.contains(d) <==> self.holds_commitment(d)
        &&& forall|d: Digest|
            #![trigger self.memos.contains(d)]
            #![trigger self.holds_memo(d)]
            self.memos.contains(d) <==> self.holds_memo(d)
    }
}

/// Admission from a well-formed pool preserves every pool invariant.
pub proof fn lemma_admitted_preserves_wf(p: PoolView, lv: LedgerView, t: TxView)
    requires
        p.wf(),
        !p.rejects(lv, t),
    ensures
        p.admitted(t).wf(),
{
    let q = p.admitted(t);
    let n = p.txs.len() as int;
    assert forall|i: int| 0 <= i < q.txs.len() implies (
    #[trigger] q.txs[i]).internally_consistent() by {
        if i < n {
            assert(q.txs[i] == p.txs[i]);
        } else {
            assert(q.txs[i] == t);
        }
    }
    assert forall|i: int, j: int| 0 <= i < j < q.txs.len() implies compatible(
        #[trigger] q.txs[i],
        #[trigger] q.txs[j],
    ) by {
        if j < n {
            assert(compatible(p.txs[i], p.txs[j]));
        } else {
            assert(q.txs[j] == t);
            assert(q.txs[i] == p.txs[i]);
            // distinct digests: t's digest is not yet in the pool
            assert(p.txs[i].id != t.id);
            // disjoint serial numbers
            assert forall|d: Digest| !(p.txs[i].serials.contains(d) && t.serials.contains(d)) by {
                if p.txs[i].serials.contains(d) && t.serials.contains(d) {
                    assert(p.holds_serial(d));
                    assert(p.serials.contains(d));
                    let k = choose|k: int| 0 <= k < t.serials.len() && t.serials[k] == d;
                    assert(p.serials.contains(t.serials[k]));
                    assert(p.pool_conflicts(t));
                }
            }
            // disjoint commitments
            assert forall|d: Digest|
                !(p.txs[i].commitments.contains(d) && t.commitments.contains(d)) by {
                if p.txs[i].commitments.contains(d) && t.commitments.contains(d) {
                    assert(p.holds_commitment(d));
                    assert(p.commitments.contains(d));
                    let k = choose|k: int|
                        0 <= k < t.commitments.len() && t.commitments[k] == d;
                    assert(p.commitments.contains(t.commitments[k]));
                    assert(p.pool_conflicts(t));
                }
            }
            // distinct memoranda
            assert(p.holds_memo(p.txs[i].memo));
            assert(p.memos.contains(p.txs[i].memo));
            assert(p.txs[i].memo != t.memo);
        }
    }
    let m = p.serials.len() as int;
    assert(!has_dup(q.serials)) by {
        if has_dup(q.serials) {
            let (i, j) = choose|i: int, j: int|
                0 <= i < j < q.serials.len() && q.serials[i] == q.serials[j];
            if j < m {
                assert(has_dup(p.serials));
            } else if i >= m {
                assert(t.serials[i - m] == t.serials[j - m]);
                assert(has_dup(t.serials));
            } else {
                assert(p.serials[i] == t.serials[j - m]);
                assert(p.serials.contains(t.serials[j - m]));
                assert(p.pool_conflicts(t));
            }
        }
    }
    let mc = p.commitments.len() as int;
    assert(!has_dup(q.commitments)) by {
        if has_dup(q.commitments) {
            let (i, j) = choose|i: int, j: int|
                0 <= i < j < q.commitments.len() && q.commitments[i] == q.commitments[j];
            if j < mc {
                assert(has_dup(p.commitments));
            } else if i >= mc {
                assert(t.commitments[i - mc] == t.commitments[j - mc]);
                assert(has_dup(t.commitments));
            } else {
                assert(p.commitments[i] == t.commitments[j - mc]);
                assert(p.commitments.contains(t.commitments[j - mc]));
                assert(p.pool_conflicts(t));
            }
        }
    }
    assert(!has_dup(q.memos)) by {
        if has_dup(q.memos) {
            let (i, j) = choose|i: int, j: int|
                0 <= i < j < q.memos.len() && q.memos[i] == q.memos[j];
            if j < p.memos.len() {
                assert(has_dup(p.memos));
            } else {
                assert(q.memos[j] == t.memo);
                assert(p.memos[i] == t.memo);
                assert(p.memos.contains(t.memo));
                assert(p.pool_conflicts(t));
            }
        }
    }
    assert forall|d: Digest| q.serials.contains(d) <==> q.holds_serial(d) by {
        if q.serials.contains(d) {
            let k = choose|k: int| 0 <= k < q.serials.len() && q.serials[k] == d;
            if k < m {
                assert(p.serials.contains(d));
                let i = choose|i: int|
                    0 <= i < p.txs.len() && (#[trigger] p.txs[i]).serials.contains(d);
                assert((#[trigger] q.txs[i]).serials.contains(d));
            } else {
                assert(t.serials[k - m] == d);
                assert((#[trigger] q.txs[n]).serials.contains(d));
            }
            assert(q.holds_serial(d));
        }
        if q.holds_serial(d) {
            let i = choose|i: int|
                0 <= i < q.txs.len() && (#[trigger] q.txs[i]).serials.contains(d);
            if i < n {
                assert(p.holds_serial(d));
                assert(p.serials.contains(d));
                let k = choose|k: int| 0 <= k < p.serials.len() && p.serials[k] == d;
                assert(q.serials[k] == d);
            } else {
                assert(t.serials.contains(d));
                let k = choose|k: int| 0 <= k < t.serials.len() && t.serials[k] == d;
                assert(q.serials[m + k] == d);
            }
            assert(q.serials.contains(d));
        }
    }
    assert forall|d: Digest| q.commitments.contains(d) <==> q.holds_commitment(d) by {
        if q.commitments.contains(d) {
            let k = choose|k: int| 0 <= k < q.commitments.len() && q.commitments[k] == d;
            if k < mc {
                assert(p.commitments.contains(d));
                let i = choose|i: int|
                    0 <= i < p.txs.len() && (#[trigger] p.txs[i]).commitments.contains(d);
                assert((#[trigger] q.txs[i]).commitments.contains(d));
            } else {
                assert(t.commitments[k - mc] == d);
                assert((#[trigger] q.txs[n]).commitments.contains(d));
            }
            assert(q.holds_commitment(d));
        }
        if q.holds_commitment(d) {
            let i = choose|i: int|
                0 <= i < q.txs.len() && (#[trigger] q.txs[i]).commitments.contains(d);
            if i < n {
                assert(p.holds_commitment(d));
                assert(p.commitments.contains(d));
                let k = choose|k: int|
                    0 <= k < p.commitments.len() && p.commitments[k] == d;
                assert(q.commitments[k] == d);
            } else {
                assert(t.commitments.contains(d));
                let k = choose|k: int| 0 <= k < t.commitments.len() && t.commitments[k] == d;
                assert(q.commitments[mc + k] == d);
            }
            assert(q.commitments.contains(d));
        }
    }
    assert forall|d: Digest| q.memos.contains(d) <==> q.holds_memo(d) by {
        if q.memos.contains(d) {
            let k = choose|k: int| 0 <= k < q.memos.len() && q.memos[k] == d;
            if k < p.memos.len() {
                assert(p.memos.contains(d));
                let i = choose|i: int|
                    0 <= i < p.txs.len() && (#[trigger] p.txs[i]).memo == d;
                assert((#[trigger] q.txs[i]).memo == d);
            } else {
                assert((#[trigger] q.txs[n]).memo == d);
            }
            assert(q.holds_memo(d));
        }
        if q.holds_memo(d) {
            let i = choose|i: int| 0 <= i < q.txs.len() && (#[trigger] q.txs[i]).memo == d;
            if i < n {
                assert(p.holds_memo(d));
                assert(p.memos.contains(d));
                let k = choose|k: int| 0 <= k < p.memos.len() && p.memos[k] == d;
                assert(q.memos[k] == d);
            } else {
                assert(q.memos[p.memos.len() as int] == d);
            }
            assert(q.memos.contains(d));
        }
    }
}

/// Replaying one more pending transaction extends the replay by one
/// admission step at the end.
pub proof fn lemma_replay_snoc(p: PoolView, lv: LedgerView, s: Seq<TxView>, x: TxView)
    ensures
        p.replay(lv, s.push(x)) == (if p.replay(lv, s).rejects(lv, x) {
            p.replay(lv, s)
        } else {
            p.replay(lv, s).admitted(x)
        }),
    decreases s.len(),
{
    reveal_with_fuel(PoolView::replay, 2);
    if s.len() == 0 {
        assert(s.push(x)[0] == x);
        assert(s.push(x).drop_first() =~= Seq::<TxView>::empty());
    } else {
        assert(s.push(x)[0] == s[0]);
        let q = if p.rejects(lv, s[0]) {
            p
        } else {
            p.admitted(s[0])
        };
        assert(s.push(x).drop_first() =~= s.drop_first().push(x));
        lemma_replay_snoc(q, lv, s.drop_first(), x);
    }
}

/// All serial numbers of a run of transactions, in admission order.
pub open spec fn flat_serials(ts: Seq<TxView>) -> Seq<Digest>
    decreases ts.len(),
{
    if ts.len() == 0 {
        Seq::empty()
    } else {
        flat_serials(ts.drop_last()) + ts.last().serials
    }
}

/// All commitments of a run of transactions, in admission order.
pub open spec fn flat_commitments(ts: Seq<TxView>) -> Seq<Digest>
    decreases ts.len(),
{
    if ts.len() == 0 {
        Seq::empty()
    } else {
        flat_commitments(ts.drop_last()) + ts.last().commitments
    }
}

/// All memoranda of a run of transactions, in admission order.
pub open spec fn memo_seq(ts: Seq<TxView>) -> Seq<Digest> {
    ts.map_values(|t: TxView| t.memo)
}

pub proof fn lemma_flat_serials_contains(ts: Seq<TxView>, d: Digest)
    ensures
        flat_serials(ts).contains(d) <==> exists|i: int|
            0 <= i < ts.len() && (#[trigger] ts[i]).serials.contains(d),
    decreases ts.len(),
{
    if ts.len() > 0 {
        lemma_flat_serials_contains(ts.drop_last(), d);
        let n = ts.len() - 1;
        if flat_serials(ts).contains(d) {
            let k = choose|k: int| 0 <= k < flat_serials(ts).len() && flat_serials(ts)[k] == d;
            if k < flat_serials(ts.drop_last()).len() {
                assert(flat_serials(ts.drop_last()).contains(d));
                let i = choose|i: int|
                    0 <= i < ts.drop_last().len() && (#[trigger] ts.drop_last()[i]).serials.contains(d);
                assert((#[trigger] ts[i]).serials.contains(d));
            } else {
                assert(ts.last().serials[k - flat_serials(ts.drop_last()).len()] == d);
                assert((#[trigger] ts[n]).serials.contains(d));
            }
        }
        if exists|i: int| 0 <= i < ts.len() && (#[trigger] ts[i]).serials.contains(d) {
            let i = choose|i: int| 0 <= i < ts.len() && (#[trigger] ts[i]).serials.contains(d);
            if i < n {
                assert((#[trigger] ts.drop_last()[i]).serials.contains(d));
                assert(flat_serials(ts.drop_last()).contains(d));
                let k = choose|k: int|
                    0 <= k < flat_serials(ts.drop_last()).len() && flat_serials(ts.drop_last())[k]
                        == d;
                assert(flat_serials(ts)[k] == d);
            } else {
                let k = choose|k: int|
                    0 <= k < ts.last().serials.len() && ts.last().serials[k] == d;
                assert(flat_serials(ts)[flat_serials(ts.drop_last()).len() + k] == d);
            }
            assert(flat_serials(ts).contains(d));
        }
    }
}

pub proof fn lemma_flat_commitments_contains(ts: Seq<TxView>, d: Digest)
    ensures
        flat_commitments(ts).contains(d) <==> exists|i: int|
            0 <= i < ts.len() && (#[trigger] ts[i]).commitments.contains(d),
    decreases ts.len(),
{
    if ts.len() > 0 {
        lemma_flat_commitments_contains(ts.drop_last(), d);
        let n = ts.len() - 1;
        if flat_commitments(ts).contains(d) {
            let k = choose|k: int|
                0 <= k < flat_commitments(ts).len() && flat_commitments(ts)[k] == d;
            if k < flat_commitments(ts.drop_last()).len() {
                assert(flat_commitments(ts.drop_last()).contains(d));
                let i = choose|i: int|
                    0 <= i < ts.drop_last().len() && (
                    #[trigger] ts.drop_last()[i]).commitments.contains(d);
                assert((#[trigger] ts[i]).commitments.contains(d));
            } else {
                assert(ts.last().commitments[k - flat_commitments(ts.drop_last()).len()] == d);
                assert((#[trigger] ts[n]).commitments.contains(d));
            }
        }
        if exists|i: int| 0 <= i < ts.len() && (#[trigger] ts[i]).commitments.contains(d) {
            let i = choose|i: int| 0 <= i < ts.len() && (#[trigger] ts[i]).commitments.contains(d);
            if i < n {
                assert((#[trigger] ts.drop_last()[i]).commitments.contains(d));
                assert(flat_commitments(ts.drop_last()).contains(d));
                let k = choose|k: int|
                    0 <= k < flat_commitments(ts.drop_last()).len() && flat_commitments(
                        ts.drop_last(),
                    )[k] == d;
                assert(flat_commitments(ts)[k] == d);
            } else {
                let k = choose|k: int|
                    0 <= k < ts.last().commitments.len() && ts.last().commitments[k] == d;
                assert(flat_commitments(ts)[flat_commitments(ts.drop_last()).len() + k] == d);
            }
            assert(flat_commitments(ts).contains(d));
        }
    }
}

pub proof fn lemma_memo_seq_contains(ts: Seq<TxView>, d: Digest)
    ensures
        memo_seq(ts).contains(d) <==> exists|i: int|
            0 <= i < ts.len() && (#[trigger] ts[i]).memo == d,
{
    if memo_seq(ts).contains(d) {
        let k = choose|k: int| 0 <= k < memo_seq(ts).len() && memo_seq(ts)[k] == d;
        assert((#[trigger] ts[k]).memo == d);
    }
    if exists|i: int| 0 <= i < ts.len() && (#[trigger] ts[i]).memo == d {
        let i = choose|i: int| 0 <= i < ts.len() && (#[trigger] ts[i]).memo == d;
        assert(memo_seq(ts)[i] == d);
        assert(memo_seq(ts).contains(d));
    }
}

/// Replaying a prefix of a well-formed, ledger-consistent pool from an empty
/// pool admits every transaction of the prefix and rebuilds exactly the
/// markers of that prefix.
proof fn lemma_replay_all(p: PoolView, lv: LedgerView, k: int)
    requires
        p.wf(),
        forall|i: int| 0 <= i < p.txs.len() ==> !ledger_conflicts(lv, #[trigger] p.txs[i]),
        0 <= k <= p.txs.len(),
    ensures
        PoolView::empty().replay(lv, p.txs.take(k)) == (PoolView {
            txs: p.txs.take(k),
            serials: flat_serials(p.txs.take(k)),
            commitments: flat_commitments(p.txs.take(k)),
            memos: memo_seq(p.txs.take(k)),
        }),
    decreases k,
{
    if k == 0 {
        assert(p.txs.take(0) =~= Seq::<TxView>::empty());
        assert(PoolView::empty() =~= (PoolView {
            txs: p.txs.take(0),
            serials: flat_serials(p.txs.take(0)),
            commitments: flat_commitments(p.txs.take(0)),
            memos: memo_seq(p.txs.take(0)),
        }));
    } else {
        lemma_replay_all(p, lv, k - 1);
        let pre = p.txs.take(k - 1);
        let q = PoolView::empty().replay(lv, pre);
        let t = p.txs[k - 1];
        assert(p.txs.take(k) =~= pre.push(t));
        lemma_replay_snoc(PoolView::empty(), lv, pre, t);
        // the next transaction passes every admission check
        assert(!q.pre_ledger_rejects(t)) by {
            assert(t.internally_consistent());
            if q.has_digest(t.id) {
                let i = choose|i: int| 0 <= i < q.txs.len() && (#[trigger] q.txs[i]).id == t.id;
                assert(q.txs[i] == p.txs[i]);
                assert(compatible(p.txs[i], p.txs[k - 1]));
            }
        }
        assert(!ledger_conflicts(lv, t));
        assert(!q.pool_conflicts(t)) by {
            if exists|c: int| 0 <= c < t.serials.len() && q.serials.contains(#[trigger] t.serials[c]) {
                let c = choose|c: int|
                    0 <= c < t.serials.len() && q.serials.contains(#[trigger] t.serials[c]);
                let d = t.serials[c];
                lemma_flat_serials_contains(pre, d);
                let i = choose|i: int| 0 <= i < pre.len() && (#[trigger] pre[i]).serials.contains(d);
                assert(compatible(p.txs[i], p.txs[k - 1]));
                assert(overlapping(p.txs[i], t));
            }
            if exists|c: int|
                0 <= c < t.commitments.len() && q.commitments.contains(#[trigger] t.commitments[c]) {
                let c = choose|c: int|
                    0 <= c < t.commitments.len() && q.commitments.contains(
                        #[trigger] t.commitments[c],
                    );
                let d = t.commitments[c];
                lemma_flat_commitments_contains(pre, d);
                let i = choose|i: int|
                    0 <= i < pre.len() && (#[trigger] pre[i]).commitments.contains(d);
                assert(compatible(p.txs[i], p.txs[k - 1]));
                assert(overlapping(p.txs[i], t));
            }
            if q.memos.contains(t.memo) {
                lemma_memo_seq_contains(pre, t.memo);
                let i = choose|i: int| 0 <= i < pre.len() && (#[trigger] pre[i]).memo == t.memo;
                assert(compatible(p.txs[i], p.txs[k - 1]));
                assert(overlapping(p.txs[i], t));
            }
        }
        assert(!q.rejects(lv, t));
        assert(p.txs.take(k).drop_last() =~= pre);
        assert(p.txs.take(k).last() == t);
        assert(q.admitted(t).serials == flat_serials(p.txs.take(k)));
        assert(q.admitted(t).commitments == flat_commitments(p.txs.take(k)));
        assert(q.admitted(t).memos =~= memo_seq(p.txs.take(k)));
        assert(q.admitted(t) =~= (PoolView {
            txs: p.txs.take(k),
            serials: flat_serials(p.txs.take(k)),
            commitments: flat_commitments(p.txs.take(k)),
            memos: memo_seq(p.txs.take(k)),
        }));
    }
}

/// Two transactions with any overlapping serial number, commitment, or
/// memorandum are never both in the pool: once the first stands in a pool,
/// that pool turns the second away, whatever the ledger holds, and a
/// rejection leaves the pool unchanged.
pub proof fn lemma_overlap_rejected(p: PoolView, lv: LedgerView, t1: TxView, t2: TxView)
    requires
        overlapping(t1, t2),
    ensures
        p.admitted(t1).rejects(lv, t2),
{
    let q = p.admitted(t1);
    let m = p.serials.len() as int;
    let mc = p.commitments.len() as int;
    if exists|d: Digest| t1.serials.contains(d) && t2.serials.contains(d) {
        let d = choose|d: Digest| t1.serials.contains(d) && t2.serials.contains(d);
        let k1 = choose|k: int| 0 <= k < t1.serials.len() && t1.serials[k] == d;
        assert(q.serials[m + k1] == d);
        assert(q.serials.contains(d));
        let k2 = choose|k: int| 0 <= k < t2.serials.len() && t2.serials[k] == d;
        assert(q.serials.contains(#[trigger] t2.serials[k2]));
        assert(q.pool_conflicts(t2));
    } else if exists|d: Digest| t1.commitments.contains(d) && t2.commitments.contains(d) {
        let d = choose|d: Digest| t1.commitments.contains(d) && t2.commitments.contains(d);
        let k1 = choose|k: int| 0 <= k < t1.commitments.len() && t1.commitments[k] == d;
        assert(q.commitments[mc + k1] == d);
        assert(q.commitments.contains(d));
        let k2 = choose|k: int| 0 <= k < t2.commitments.len() && t2.commitments[k] == d;
        assert(q.commitments.contains(#[trigger] t2.commitments[k2]));
        assert(q.pool_conflicts(t2));
    } else {
        assert(t1.memo == t2.memo);
        assert(q.memos[p.memos.len() as int] == t1.memo);
        assert(q.memos.contains(t2.memo));
        assert(q.pool_conflicts(t2));
    }
}

/// Admitting the same transaction digest twice: the pool that holds the
/// first admission turns the second away (and, by the insertion contract, a
/// turned-away transaction changes nothing, so the pool size is unchanged).
pub proof fn lemma_duplicate_digest_rejected(p: PoolView, lv: LedgerView, t1: TxView, t2: TxView)
    requires
        t1.id == t2.id,
    ensures
        p.admitted(t1).rejects(lv, t2),
{
    let q = p.admitted(t1);
    assert((#[trigger] q.txs[p.txs.len() as int]).id == t2.id);
    assert(q.has_digest(t2.id));
}

/// Cleansing a pool whose transactions all remain consistent with the
/// ledger re-admits every one of them in the original insertion order and
/// rebuilds reservation collections holding exactly the same markers.
pub proof fn lemma_cleanse_consistent_identity(p: PoolView, lv: LedgerView)
    requires
        p.wf(),
        forall|i: int| 0 <= i < p.txs.len() ==> !ledger_conflicts(lv, #[trigger] p.txs[i]),
    ensures
        PoolView::empty().replay(lv, p.txs).txs == p.txs,
        forall|d: Digest| #![all_triggers]
            PoolView::empty().replay(lv, p.txs).serials.contains(d) <==> p.serials.contains(d),
        forall|d: Digest| #![all_triggers]
            PoolView::empty().replay(lv, p.txs).commitments.contains(d) <==> p.commitments.contains(
                d,
            ),
        forall|d: Digest| #![all_triggers]
            PoolView::empty().replay(lv, p.txs).memos.contains(d) <==> p.memos.contains(d),
{
    lemma_replay_all(p, lv, p.txs.len() as int);
    assert(p.txs.take(p.txs.len() as int) =~= p.txs);
    let r = PoolView::empty().replay(lv, p.txs);
    assert forall|d: Digest| #![all_triggers] r.serials.contains(d) <==> p.serials.contains(
        d,
    ) by {
        lemma_flat_serials_contains(p.txs, d);
        assert((exists|i: int| 0 <= i < p.txs.len() && (#[trigger] p.txs[i]).serials.contains(d))
            == p.holds_serial(d));
    }
    assert forall|d: Digest| #![all_triggers] r.commitments.contains(d) <==> p.commitments.contains(
        d,
    ) by {
        lemma_flat_commitments_contains(p.txs, d);
        assert((exists|i: int|
            0 <= i < p.txs.len() && (#[trigger] p.txs[i]).commitments.contains(d))
            == p.holds_commitment(d));
    }
    assert forall|d: Digest| #![all_triggers] r.memos.contains(d) <==> p.memos.contains(d) by {
        lemma_memo_seq_contains(p.txs, d);
        assert((exists|i: int| 0 <= i < p.txs.len() && (#[trigger] p.txs[i]).memo == d)
            == p.holds_memo(d));
    }
}

/// The pool of unconfirmed transactions: the gatekeeper for what may be
/// relayed or included in a future block.
#[derive(Debug)]
pub struct Mempool {
    pub transactions: Vec<MempoolEntry>,
    pub serial_numbers: Vec<Digest>,
    pub commitments: Vec<Digest>,
    pub memos: Vec<Digest>,
}

impl View for Mempool {
    type V = PoolView;

    open spec fn view(&self) -> PoolView {
        PoolView {
            txs: self.transactions@.map_values(|e: MempoolEntry| e.transaction@),
            serials: self.serial_numbers@,
            commitments: self.commitments@,
            memos: self.memos@,
        }
    }
}

impl Mempool {
    /// The pool invariant, plus the cached byte size of every entry agreeing
    /// with its transaction.
    pub open spec fn wf(self) -> bool {
        &&& self@.wf()
        &&& forall|i: int|
            0 <= i < self.transactions@.len() ==> (#[trigger] self.transactions@[i]).size_in_bytes
                == self.transactions@[i].transaction.size_in_bytes
    }

    /// A node starts with an empty pool.
    pub fn new() -> (r: Mempool)
        ensures
            r@ == PoolView::empty(),
            r.wf(),
    {
        let r = Mempool {
            transactions: Vec::new(),
            serial_numbers: Vec::new(),
            commitments: Vec::new(),
            memos: Vec::new(),
        };
        proof {
            assert(r@ =~= PoolView::empty());
        }
        r
    }

    /// The number of transactions held.
    pub fn len(&self) -> (r: usize)
        ensures
            r == self@.txs.len(),
    {
        self.transactions.len()
    }

    /// Whether a transaction with this digest is already stored.
    pub fn contains_transaction(&self, d: Digest) -> (r: bool)
        ensures
            r == self@.has_digest(d),
    {
        let mut i: usize = 0;
        while i < self.transactions.len()
            invariant
                0 <= i <= self.transactions@.len(),
                forall|j: int| 0 <= j < i ==> (#[trigger] self@.txs[j]).id != d,
            decreases self.transactions@.len() - i,
        {
            if self.transactions[i].transaction.id == d {
                assert(self@.txs[i as int].id == d);
                return true;
            }
            i += 1;
        }
        false
    }

    /// Admission: the transaction enters the pool exactly when none of the
    /// checks of the admission rule turns it away, and every check ran. A
    /// rejection returns `Ok(None)` and mutates nothing; a ledger fault
    /// before the checks finished returns the error and mutates nothing;
    /// otherwise the digest of the admitted transaction is returned and all
    /// of its markers are reserved atomically.
    pub fn insert<L: LedgerAdapter>(
        &mut self,
        ledger: &L,
        transaction: SerialTransaction,
    ) -> (r: Result<Option<Digest>, ConsensusError>)
        requires
            old(self).wf(),
        ensures
            final(self).wf(),
            r is Err <==> (!ledger.available() && !old(self)@.pre_ledger_rejects(transaction@)),
            r is Err ==> final(self)@ == old(self)@,
            (r matches Ok(Some(d))) <==> (ledger.available() && !old(self)@.rejects(
                ledger.lview(),
                transaction@,
            )),
            r matches Ok(Some(d)) ==> d == transaction.id && final(self)@ == old(self)@.admitted(
                transaction@,
            ),
            r matches Ok(None) ==> old(self)@.rejects(ledger.lview(), transaction@)
                && final(self)@ == old(self)@,
    {
        let transaction_id: Digest = transaction.id;

        if has_duplicates(&transaction.old_serial_numbers)
            || has_duplicates(&transaction.new_commitments)
            || self.contains_transaction(transaction_id) {
            return Ok(None);
        }
        assert(!old(self)@.pre_ledger_rejects(transaction@));

        let ghost lv = ledger.lview();

        let mut i: usize = 0;
        while i < transaction.old_serial_numbers.len()
            invariant
                old(self).wf(),
                *self == *old(self),
                !old(self)@.pre_ledger_rejects(transaction@),
                0 <= i <= transaction.old_serial_numbers@.len(),
                forall|k: int|
                    0 <= k < i ==> !lv.serials.contains(
                        #[trigger] transaction.old_serial_numbers@[k],
                    ) && !old(self)@.serials.contains(transaction.old_serial_numbers@[k]),
                lv == ledger.lview(),
            decreases transaction.old_serial_numbers@.len() - i,
        {
            let sn = transaction.old_serial_numbers[i];
            match ledger.contains_serial(&sn) {
                Err(f) => {
                    return Err(ConsensusError::Ledger(f));
                },
                Ok(true) => {
                    assert(lv.serials.contains(transaction@.serials[i as int]));
                    assert(ledger_conflicts(lv, transaction@));
                    return Ok(None);
                },
                Ok(false) => {},
            }
            if digests_contain(&self.serial_numbers, sn) {
                assert(old(self)@.serials.contains(transaction@.serials[i as int]));
                assert(old(self)@.pool_conflicts(transaction@));
                return Ok(None);
            }
            i += 1;
        }

        let mut i: usize = 0;
        while i < transaction.new_commitments.len()
            invariant
                old(self).wf(),
                *self == *old(self),
                !old(self)@.pre_ledger_rejects(transaction@),
                0 <= i <= transaction.new_commitments@.len(),
                forall|k: int|
                    0 <= k < i ==> !lv.commitments.contains(
                        #[trigger] transaction.new_commitments@[k],
                    ) && !old(self)@.commitments.contains(transaction.new_commitments@[k]),
                lv == ledger.lview(),
            decreases transaction.new_commitments@.len() - i,
        {
            let cm = transaction.new_commitments[i];
            match ledger.contains_commitment(&cm) {
                Err(f) => {
                    return Err(ConsensusError::Ledger(f));
                },
                Ok(true) => {
                    assert(lv.commitments.contains(transaction@.commitments[i as int]));
                    assert(ledger_conflicts(lv, transaction@));
                    return Ok(None);
                },
                Ok(false) => {},
            }
            if digests_contain(&self.commitments, cm) {
                assert(old(self)@.commitments.contains(transaction@.commitments[i as int]));
                assert(old(self)@.pool_conflicts(transaction@));
                return Ok(None);
            }
            i += 1;
        }

        match ledger.contains_memo(&transaction.memorandum) {
            Err(f) => {
                return Err(ConsensusError::Ledger(f));
            },
            Ok(true) => {
                assert(ledger_conflicts(lv, transaction@));
                return Ok(None);
            },
            Ok(false) => {},
        }
        if digests_contain(&self.memos, transaction.memorandum) {
            assert(old(self)@.pool_conflicts(transaction@));
            return Ok(None);
        }

        assert(ledger.available());
        assert(!old(self)@.rejects(lv, transaction@));

        // Every check passed: reserve all markers and store the entry.
        let mut i: usize = 0;
        while i < transaction.old_serial_numbers.len()
            invariant
                0 <= i <= transaction.old_serial_numbers@.len(),
                self.transactions == old(self).transactions,
                self.commitments == old(self).commitments,
                self.memos == old(self).memos,
                self.serial_numbers@ == old(self).serial_numbers@
                    + transaction.old_serial_numbers@.take(i as int),
            decreases transaction.old_serial_numbers@.len() - i,
        {
            let sn = transaction.old_serial_numbers[i];
            self.serial_numbers.push(sn);
            proof {
                assert(self.serial_numbers@ =~= old(self).serial_numbers@
                    + transaction.old_serial_numbers@.take(i + 1 as int));
            }
            i += 1;
        }
        proof {
            assert(transaction.old_serial_numbers@.take(
                transaction.old_serial_numbers@.len() as int,
            ) =~= transaction.old_serial_numbers@);
        }

        let mut i: usize = 0;
        while i < transaction.new_commitments.len()
            invariant
                0 <= i <= transaction.new_commitments@.len(),
                self.transactions == old(self).transactions,
                self.memos == old(self).memos,
                self.serial_numbers@ == old(self).serial_numbers@
                    + transaction.old_serial_numbers@,
                self.commitments@ == old(self).commitments@ + transaction.new_commitments@.take(
                    i as int,
                ),
            decreases transaction.new_commitments@.len() - i,
        {
            let cm = transaction.new_commitments[i];
            self.commitments.push(cm);
            proof {
                assert(self.commitments@ =~= old(self).commitments@
                    + transaction.new_commitments@.take(i + 1 as int));
            }
            i += 1;
        }
        proof {
            assert(transaction.new_commitments@.take(transaction.new_commitments@.len() as int)
                =~= transaction.new_commitments@);
        }

        self.memos.push(transaction.memorandum);

        let ghost t = transaction@;
        let size_in_bytes = transaction.size_in_bytes;
        self.transactions.push(MempoolEntry { size_in_bytes, transaction });

        proof {
            assert(self@.txs =~= old(self)@.txs.push(t));
            assert(self@ =~= old(self)@.admitted(t));
            lemma_admitted_preserves_wf(old(self)@, lv, t);
        }

        Ok(Some(transaction_id))
    }

    /// Rebuild the pool after the canonical chain moved: every held
    /// transaction is re-admitted, in the original insertion order, against a
    /// freshly emptied pool, so that reservations of entries that no longer
    /// pass do not block the rest. A re-admission that is merely turned away
    /// is silently dropped; a re-admission that fails with an error aborts
    /// the whole rebuild and restores the pool exactly as it was.
    pub fn cleanse<L: LedgerAdapter>(&mut self, ledger: &L) -> (r: Result<(), ConsensusError>)
        requires
            old(self).wf(),
        ensures
            final(self).wf(),
            r is Err <==> (!ledger.available() && old(self)@.txs.len() > 0),
            r is Err ==> final(self)@ == old(self)@,
            r is Ok ==> final(self)@ == PoolView::empty().replay(ledger.lview(), old(self)@.txs),
    {
        let mut drained = Mempool::new();
        core::mem::swap(self, &mut drained);
        let ghost lv = ledger.lview();
        let mut i: usize = 0;
        while i < drained.transactions.len()
            invariant
                old(self).wf(),
                drained == *old(self),
                self.wf(),
                lv == ledger.lview(),
                0 <= i <= drained.transactions@.len(),
                i > 0 ==> ledger.available(),
                self@ == PoolView::empty().replay(lv, old(self)@.txs.take(i as int)),
            decreases drained.transactions@.len() - i,
        {
            let tx = drained.transactions[i].transaction.clone();
            assert(tx@ == old(self)@.txs[i as int]);
            let ghost pre = self@;
            let outcome = self.insert(ledger, tx);
            proof {
                lemma_replay_snoc(
                    PoolView::empty(),
                    lv,
                    old(self)@.txs.take(i as int),
                    old(self)@.txs[i as int],
                );
                assert(old(self)@.txs.take(i + 1 as int) =~= old(self)@.txs.take(i as int).push(
                    old(self)@.txs[i as int],
                ));
            }
            match outcome {
                Ok(_) => {
                    proof {
                        if i == 0 {
                            // a fault surfaces at the very first entry: an
                            // `Ok` here means the ledger answered
                            assert(old(self)@.txs.take(0) =~= Seq::<TxView>::empty());
                            assert(pre == PoolView::empty());
                            assert(old(self)@.txs[0].internally_consistent());
                            assert(!pre.has_digest(old(self)@.txs[0].id));
                            assert(!pre.pre_ledger_rejects(old(self)@.txs[0]));
                            assert(ledger.available());
                        }
                    }
                },
                Err(e) => {
                    *self = drained;
                    return Err(e);
                },
            }
            i += 1;
        }
        proof {
            assert(old(self)@.txs.take(old(self)@.txs.len() as int) =~= old(self)@.txs);
            if drained.transactions@.len() == 0 {
                assert(old(self)@.txs.take(0int) =~= Seq::<TxView>::empty());
            }
        }
        Ok(())
    }
}

} // verus!
