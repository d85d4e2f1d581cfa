use vstd::prelude::*;

verus! {

/// A fixed-size content hash identifying a block or a transaction, and also
/// used for the serial-number, commitment and memorandum markers carried by
/// transactions.
#[derive(Clone, Copy, PartialEq, Eq, Structural, Hash, Debug)]
pub struct Digest(pub u64);

/// Whether the sequence holds the same digest at two different positions.
pub open spec fn has_dup(s: Seq<Digest>) -> bool {
    exists|i: int, j: int| 0 <= i < j < s.len() && s[i] == s[j]
}

/// Linear membership scan over a vector of digests.
pub fn digests_contain(v: &Vec<Digest>, d: Digest) -> (r: bool)
    ensures
        r == v@.contains(d),
{
    let mut i: usize = 0;
    while i < v.len()
        invariant
            0 <= i <= v@.len(),
            forall|j: int| 0 <= j < i ==> v@[j] != d,
        decreases v@.len() - i,
    {
        if v[i] == d {
            return true;
        }
        i += 1;
    }
    false
}

/// Whether any digest occurs twice in the vector, as the admission checks ask
/// of a transaction's own serial numbers and commitments.
pub fn has_duplicates(v: &Vec<Digest>) -> (r: bool)
    ensures
        r == has_dup(v@),
{
    let mut i: usize = 0;
    while i < v.len()
        invariant
            0 <= i <= v@.len(),
            forall|p: int, q: int| 0 <= p < q < v@.len() && p < i ==> v@[p] != v@[q],
        decreases v@.len() - i,
    {
        let mut j: usize = i + 1;
        while j < v.len()
            invariant
                0 <= i < j <= v@.len(),
                forall|q: int| i < q < j ==> v@[i as int] != v@[q],
            decreases v@.len() - j,
        {
            if v[i] == v[j] {
                return true;
            }
            j += 1;
        }
        i += 1;
    }
    false
}

/// A fresh vector holding the same digests in the same order.
pub fn copy_digests(v: &Vec<Digest>) -> (r: Vec<Digest>)
    ensures
        r@ == v@,
{
    let mut out: Vec<Digest> = Vec::new();
    let mut i: usize = 0;
    while i < v.len()
        invariant
            0 <= i <= v@.len(),
            out@ == v@.take(i as int),
        decreases v@.len() - i,
    {
        out.push(v[i]);
        proof {
            assert(out@ =~= v@.take(i + 1 as int));
        }
        i += 1;
    }
    proof {
        assert(v@.take(v@.len() as int) =~= v@);
    }
    out
}

} // verus!
