use vstd::prelude::*;

use crate::digest::{has_dup, Digest};
use crate::errors::StorageFault;
use crate::storage::{canon_window, BlockOrder, StorageAdapter};

verus! {

/// How far back along the canonical chain the scanner looks for forks: the
/// system's fork-resolution depth.
pub const OLDEST_FORK_THRESHOLD: u32 = 1024;

/// The fork records one canonical block contributes: one record per known
/// child that is not the canonical child, in the order the children are
/// reported.
pub open spec fn pair_forks(target: Digest, canon_child: Digest, kids: Seq<Digest>) -> Seq<
    (Digest, Digest),
>
    decreases kids.len(),
{
    if kids.len() == 0 {
        Seq::empty()
    } else {
        let rest = pair_forks(target, canon_child, kids.drop_last());
        if kids.last() == canon_child {
            rest
        } else {
            rest.push((target, kids.last()))
        }
    }
}

/// The fork records of every adjacent pair of the window from position `i`
/// on: pair `i` holds target `canon[i + 1]` against its canonical child
/// `canon[i]`, so targets come newest first.
pub open spec fn forks_below<S: StorageAdapter>(s: S, canon: Seq<Digest>, i: int) -> Seq<
    (Digest, Digest),
>
    decreases canon.len() - i,
{
    if i < 0 || i + 1 >= canon.len() {
        Seq::empty()
    } else {
        pair_forks(canon[i + 1], canon[i], s.child_map(canon[i + 1])) + forks_below(s, canon, i + 1)
    }
}

/// The fork records whose fork point is `target`, in order.
pub open spec fn with_target(records: Seq<(Digest, Digest)>, target: Digest) -> Seq<
    (Digest, Digest),
>
    decreases records.len(),
{
    if records.len() == 0 {
        Seq::empty()
    } else {
        let rest = with_target(records.drop_last(), target);
        if records.last().0 == target {
            rest.push(records.last())
        } else {
            rest
        }
    }
}

proof fn lemma_with_target_concat(a: Seq<(Digest, Digest)>, b: Seq<(Digest, Digest)>, target: Digest)
    ensures
        with_target(a + b, target) == with_target(a, target) + with_target(b, target),
    decreases b.len(),
{
    if b.len() == 0 {
        assert(a + b =~= a);
        assert(with_target(b, target) =~= Seq::<(Digest, Digest)>::empty());
        assert(with_target(a, target) + with_target(b, target) =~= with_target(a, target));
    } else {
        lemma_with_target_concat(a, b.drop_last(), target);
        assert((a + b).drop_last() =~= a + b.drop_last());
        assert((a + b).last() == b.last());
        if b.last().0 == target {
            assert((with_target(a, target) + with_target(b.drop_last(), target)).push(b.last())
                =~= with_target(a, target) + with_target(b.drop_last(), target).push(b.last()));
        }
    }
}

proof fn lemma_with_target_pair(target: Digest, canon_child: Digest, kids: Seq<Digest>)
    ensures
        with_target(pair_forks(target, canon_child, kids), target) == pair_forks(
            target,
            canon_child,
            kids,
        ),
    decreases kids.len(),
{
    if kids.len() > 0 {
        lemma_with_target_pair(target, canon_child, kids.drop_last());
        let rest = pair_forks(target, canon_child, kids.drop_last());
        if kids.last() != canon_child {
            assert(rest.push((target, kids.last())).drop_last() =~= rest);
        }
    }
}

proof fn lemma_with_target_absent(
    target: Digest,
    canon_child: Digest,
    kids: Seq<Digest>,
    b: Digest,
)
    requires
        b != target,
    ensures
        with_target(pair_forks(target, canon_child, kids), b) == Seq::<(Digest, Digest)>::empty(),
    decreases kids.len(),
{
    if kids.len() > 0 {
        lemma_with_target_absent(target, canon_child, kids.drop_last(), b);
        let rest = pair_forks(target, canon_child, kids.drop_last());
        if kids.last() != canon_child {
            assert(rest.push((target, kids.last())).drop_last() =~= rest);
        }
    }
}

proof fn lemma_pair_forks_two(target: Digest, canon_child: Digest, other: Digest, kids: Seq<Digest>)
    requires
        kids == seq![canon_child, other] || kids == seq![other, canon_child],
        other != canon_child,
    ensures
        pair_forks(target, canon_child, kids) == seq![(target, other)],
{
    reveal_with_fuel(pair_forks, 3);
    if kids == seq![canon_child, other] {
        assert(kids.drop_last() =~= seq![canon_child]);
        assert(seq![canon_child].drop_last() =~= Seq::<Digest>::empty());
        assert(pair_forks(target, canon_child, kids) =~= seq![(target, other)]);
    } else {
        assert(kids.drop_last() =~= seq![other]);
        assert(seq![other].drop_last() =~= Seq::<Digest>::empty());
        assert(pair_forks(target, canon_child, kids) =~= seq![(target, other)]);
    }
}

proof fn lemma_forks_with_target<S: StorageAdapter>(
    s: S,
    canon: Seq<Digest>,
    j: int,
    ti: int,
    other: Digest,
)
    requires
        !has_dup(canon),
        0 <= ti,
        ti + 1 < canon.len(),
        s.child_map(canon[ti + 1]) == seq![canon[ti], other] || s.child_map(canon[ti + 1])
            == seq![other, canon[ti]],
        other != canon[ti],
        0 <= j <= canon.len(),
    ensures
        with_target(forks_below(s, canon, j), canon[ti + 1]) == (if j <= ti {
            seq![(canon[ti + 1], other)]
        } else {
            Seq::<(Digest, Digest)>::empty()
        }),
    decreases canon.len() - j,
{
    let b = canon[ti + 1];
    if j + 1 >= canon.len() {
        assert(forks_below(s, canon, j) == Seq::<(Digest, Digest)>::empty());
    } else {
        lemma_forks_with_target(s, canon, j + 1, ti, other);
        let pf = pair_forks(canon[j + 1], canon[j], s.child_map(canon[j + 1]));
        lemma_with_target_concat(pf, forks_below(s, canon, j + 1), b);
        if j == ti {
            lemma_pair_forks_two(b, canon[ti], other, s.child_map(b));
            lemma_with_target_pair(b, canon[ti], s.child_map(b));
            assert(seq![(b, other)] + Seq::<(Digest, Digest)>::empty() =~= seq![(b, other)]);
        } else {
            assert(canon[j + 1] != b) by {
                if canon[j + 1] == canon[ti + 1] {
                    assert(has_dup(canon));
                }
            }
            lemma_with_target_absent(canon[j + 1], canon[j], s.child_map(canon[j + 1]), b);
            assert(Seq::<(Digest, Digest)>::empty() + with_target(forks_below(s, canon, j + 1), b)
                =~= with_target(forks_below(s, canon, j + 1), b));
        }
    }
}

/// A canonical block that is not the newest of the window and has exactly
/// two known children, its canonical successor and one other, contributes
/// exactly one fork record to the scan: the pair of that block and the other
/// child.
pub proof fn lemma_two_children_one_fork<S: StorageAdapter>(
    s: S,
    canon: Seq<Digest>,
    i: int,
    other: Digest,
)
    requires
        !has_dup(canon),
        0 <= i,
        i + 1 < canon.len(),
        s.child_map(canon[i + 1]) == seq![canon[i], other] || s.child_map(canon[i + 1])
            == seq![other, canon[i]],
        other != canon[i],
    ensures
        with_target(forks_below(s, canon, 0), canon[i + 1]) == seq![(canon[i + 1], other)],
{
    lemma_forks_with_target(s, canon, 0, i, other);
}

proof fn lemma_linear_from<S: StorageAdapter>(s: S, canon: Seq<Digest>, j: int)
    requires
        forall|k: int|
            0 <= k < canon.len() - 1 ==> s.child_map(#[trigger] canon[k + 1]) == seq![canon[k]],
        0 <= j,
    ensures
        forks_below(s, canon, j) == Seq::<(Digest, Digest)>::empty(),
    decreases canon.len() - j,
{
    reveal_with_fuel(pair_forks, 2);
    if j + 1 < canon.len() {
        lemma_linear_from(s, canon, j + 1);
        assert(s.child_map(canon[j + 1]) == seq![canon[j]]);
        assert(seq![canon[j]].drop_last() =~= Seq::<Digest>::empty());
        assert(pair_forks(canon[j + 1], canon[j], seq![canon[j]]) =~= Seq::<(Digest, Digest)>::empty());
        assert(forks_below(s, canon, j) =~= Seq::<(Digest, Digest)>::empty());
    }
}

/// A canonical history in which every block's only known child is its
/// canonical successor yields no fork records at all.
pub proof fn lemma_linear_history_no_forks<S: StorageAdapter>(s: S, canon: Seq<Digest>)
    requires
        forall|k: int|
            0 <= k < canon.len() - 1 ==> s.child_map(#[trigger] canon[k + 1]) == seq![canon[k]],
    ensures
        forks_below(s, canon, 0) == Seq::<(Digest, Digest)>::empty(),
{
    lemma_linear_from(s, canon, 0);
}

/// Scan the most recent canonical blocks, up to `lookback` of them, for
/// known children that diverge from the canonical path. Read-only: one
/// record per non-canonical sibling, targets in descending canonical order.
/// A window shorter than two blocks has no adjacent pair and yields nothing.
pub fn scan_forks<S: StorageAdapter>(storage: &S, lookback: u32) -> (r: Result<
    Vec<(Digest, Digest)>,
    StorageFault,
>)
    ensures
        r is Ok <==> storage.available(),
        r matches Ok(v) ==> v@ == forks_below(
            *storage,
            canon_window(storage.canon_desc(), Some(lookback)),
            0,
        ),
        canon_window(storage.canon_desc(), Some(lookback)).len() < 2 ==> (r matches Ok(v) ==> v@
            == Seq::<(Digest, Digest)>::empty()),
{
    let canon_hashes = match storage.get_block_hashes(Some(lookback), BlockOrder::Descending) {
        Ok(v) => v,
        Err(f) => {
            return Err(f);
        },
    };
    let ghost canon = canon_hashes@;

    if canon_hashes.len() < 2 {
        return Ok(Vec::new());
    }

    let mut known_forks: Vec<(Digest, Digest)> = Vec::new();
    let mut i: usize = 0;
    while i + 1 < canon_hashes.len()
        invariant
            storage.available(),
            canon == canon_hashes@,
            canon.len() >= 2,
            0 <= i <= canon.len() - 1,
            known_forks@ + forks_below(*storage, canon, i as int) == forks_below(
                *storage,
                canon,
                0,
            ),
        decreases canon.len() - i,
    {
        let target_hash = canon_hashes[i + 1];
        let ignore_child_hash = canon_hashes[i];
        let children = match storage.get_block_children(&target_hash) {
            Ok(v) => v,
            Err(f) => {
                return Err(f);
            },
        };
        let ghost kids = children@;
        let ghost before = known_forks@;

        if children.len() == 1 && ignore_child_hash == children[0] {
            proof {
                assert(kids.drop_last() =~= Seq::<Digest>::empty());
                assert(pair_forks(target_hash, ignore_child_hash, kids.drop_last()) =~= Seq::<
                    (Digest, Digest),
                >::empty());
                assert(pair_forks(target_hash, ignore_child_hash, kids) =~= Seq::<
                    (Digest, Digest),
                >::empty());
                assert(before + forks_below(*storage, canon, i + 1 as int) =~= before + (pair_forks(
                    target_hash,
                    ignore_child_hash,
                    kids,
                ) + forks_below(*storage, canon, i + 1 as int)));
            }
            i += 1;
            continue ;
        }

        let mut j: usize = 0;
        while j < children.len()
            invariant
                kids == children@,
                0 <= j <= kids.len(),
                known_forks@ == before + pair_forks(
                    target_hash,
                    ignore_child_hash,
                    kids.take(j as int),
                ),
            decreases kids.len() - j,
        {
            proof {
                assert(kids.take(j + 1 as int).drop_last() =~= kids.take(j as int));
                assert(kids.take(j + 1 as int).last() == kids[j as int]);
            }
            let child = children[j];
            if !(child == ignore_child_hash) {
                known_forks.push((target_hash, child));
            }
            j += 1;
        }
        proof {
            assert(kids.take(kids.len() as int) =~= kids);
            assert(before + pair_forks(target_hash, ignore_child_hash, kids) + forks_below(
                *storage,
                canon,
                i + 1 as int,
            ) =~= before + (pair_forks(target_hash, ignore_child_hash, kids) + forks_below(
                *storage,
                canon,
                i + 1 as int,
            )));
        }
        i += 1;
    }
    proof {
        assert(forks_below(*storage, canon, canon.len() - 1) =~= Seq::<(Digest, Digest)>::empty());
        assert(known_forks@ + Seq::<(Digest, Digest)>::empty() =~= known_forks@);
    }
    Ok(known_forks)
}

} // verus!
