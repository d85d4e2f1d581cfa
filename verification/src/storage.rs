use vstd::prelude::*;

use crate::digest::{copy_digests, Digest};
use crate::errors::StorageFault;

verus! {

/// The order in which a canonical-chain traversal hands back block hashes.
#[derive(Clone, Copy, PartialEq, Eq, Structural, Debug)]
pub enum BlockOrder {
    Ascending,
    Descending,
}

/// The most recent canonical hashes, newest first: all of them, or at most
/// `limit` of them.
pub open spec fn canon_window(canon_desc: Seq<Digest>, limit: Option<u32>) -> Seq<Digest> {
    match limit {
        Option::None => canon_desc,
        Option::Some(l) => if l as int <= canon_desc.len() {
            canon_desc.take(l as int)
        } else {
            canon_desc
        },
    }
}

/// The canonical-chain traversal queries the fork scanner makes. Backends
/// are swapped at construction time; the core never assumes a concrete one.
/// Each query is I/O and may fail transiently: it answers exactly when the
/// backend is available.
pub trait StorageAdapter: Sized {
    /// The canonical chain's block hashes, newest first.
    spec fn canon_desc(&self) -> Seq<Digest>;

    /// The known children of a block, in the order the backend reports them:
    /// empty for an unknown or childless block, more than one at a fork
    /// point.
    spec fn child_map(&self, block: Digest) -> Seq<Digest>;

    /// Whether the backend can currently answer queries.
    spec fn available(&self) -> bool;

    /// The most recent canonical block hashes, newest or oldest first per
    /// `order`, up to `limit` of them.
    fn get_block_hashes(&self, limit: Option<u32>, order: BlockOrder) -> (r: Result<
        Vec<Digest>,
        StorageFault,
    >)
        ensures
            r is Ok <==> self.available(),
            r matches Ok(v) ==> match order {
                BlockOrder::Descending => v@ == canon_window(self.canon_desc(), limit),
                BlockOrder::Ascending => v@ == canon_window(self.canon_desc(), limit).reverse(),
            },
    ;

    /// All known children of the block.
    fn get_block_children(&self, block: &Digest) -> (r: Result<Vec<Digest>, StorageFault>)
        ensures
            r is Ok <==> self.available(),
            r matches Ok(v) ==> v@ == self.child_map(*block),
    ;
}

/// The children recorded for a block: the list of the first matching entry,
/// empty when none matches.
pub open spec fn lookup_children(entries: Seq<(Digest, Vec<Digest>)>, block: Digest) -> Seq<Digest>
    decreases entries.len(),
{
    if entries.len() == 0 {
        Seq::empty()
    } else if entries[0].0 == block {
        entries[0].1@
    } else {
        lookup_children(entries.drop_first(), block)
    }
}

/// An in-memory storage backend: the canonical chain newest first, and the
/// known children of each block. `online` stands for the transient health of
/// the underlying store: while it is false every query fails recoverably.
pub struct MemoryStorage {
    pub canon: Vec<Digest>,
    pub children: Vec<(Digest, Vec<Digest>)>,
    pub online: bool,
}

impl StorageAdapter for MemoryStorage {
    open spec fn canon_desc(&self) -> Seq<Digest> {
        self.canon@
    }

    open spec fn child_map(&self, block: Digest) -> Seq<Digest> {
        lookup_children(self.children@, block)
    }

    open spec fn available(&self) -> bool {
        self.online
    }

    fn get_block_hashes(&self, limit: Option<u32>, order: BlockOrder) -> (r: Result<
        Vec<Digest>,
        StorageFault,
    >) {
        if !self.online {
            return Err(StorageFault);
        }
        let n: usize = match limit {
            Option::None => self.canon.len(),
            Option::Some(l) => {
                if (l as usize) <= self.canon.len() {
                    l as usize
                } else {
                    self.canon.len()
                }
            },
        };
        assert(canon_window(self.canon@, limit) == self.canon@.take(n as int)) by {
            assert(self.canon@.take(self.canon@.len() as int) =~= self.canon@);
        }
        let mut out: Vec<Digest> = Vec::new();
        match order {
            BlockOrder::Descending => {
                let mut i: usize = 0;
                while i < n
                    invariant
                        0 <= i <= n <= self.canon@.len(),
                        out@ == self.canon@.take(n as int).take(i as int),
                    decreases n - i,
                {
                    out.push(self.canon[i]);
                    proof {
                        assert(out@ =~= self.canon@.take(n as int).take(i + 1 as int));
                    }
                    i += 1;
                }
                proof {
                    assert(self.canon@.take(n as int).take(n as int) =~= self.canon@.take(
                        n as int,
                    ));
                }
            },
            BlockOrder::Ascending => {
                let mut i: usize = 0;
                while i < n
                    invariant
                        0 <= i <= n <= self.canon@.len(),
                        out@.len() == i,
                        forall|k: int| 0 <= k < i ==> out@[k] == self.canon@[n - 1 - k],
                    decreases n - i,
                {
                    out.push(self.canon[n - 1 - i]);
                    i += 1;
                }
                proof {
                    assert(out@ =~= self.canon@.take(n as int).reverse());
                }
            },
        }
        Ok(out)
    }

    fn get_block_children(&self, block: &Digest) -> (r: Result<Vec<Digest>, StorageFault>) {
        if !self.online {
            return Err(StorageFault);
        }
        let mut i: usize = 0;
        proof {
            assert(self.children@.skip(0int) =~= self.children@);
        }
        while i < self.children.len()
            invariant
                self.online,
                0 <= i <= self.children@.len(),
                lookup_children(self.children@, *block) == lookup_children(
                    self.children@.skip(i as int),
                    *block,
                ),
            decreases self.children@.len() - i,
        {
            proof {
                assert(self.children@.skip(i as int)[0] == self.children@[i as int]);
                assert(self.children@.skip(i as int).drop_first() =~= self.children@.skip(
                    i + 1 as int,
                ));
            }
            if self.children[i].0 == *block {
                let found = copy_digests(&self.children[i].1);
                return Ok(found);
            }
            i += 1;
        }
        proof {
            assert(self.children@.skip(self.children@.len() as int) =~= Seq::<(
                Digest,
                Vec<Digest>,
            )>::empty());
        }
        Ok(Vec::new())
    }
}

} // verus!
