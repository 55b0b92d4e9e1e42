//! Byte-sequence helpers: equality, copying, and the breeding crossover.

use vstd::prelude::*;

verus! {

/// Byte-wise selection between two parent dna sequences: position `i` takes
/// `other`'s byte when the selector byte at `i` is even, else `base`'s byte.
pub open spec fn crossover_spec(base: Seq<u8>, other: Seq<u8>, sel: Seq<u8>) -> Seq<u8> {
    Seq::new(base.len(), |i: int| if sel[i] % 2 == 0 { other[i] } else { base[i] })
}

/// Compute the crossover of two equally wide dna sequences under a selector
/// of the same width.
pub fn crossover(base: &Vec<u8>, other: &Vec<u8>, sel: &Vec<u8>) -> (r: Vec<u8>)
    requires
        base@.len() == other@.len(),
        base@.len() == sel@.len(),
    ensures
        r@ == crossover_spec(base@, other@, sel@),
{
    let mut r: Vec<u8> = Vec::new();
    let n = base.len();
    let mut i: usize = 0;
    while i < n
        invariant
            i <= n,
            n == base@.len(),
            base@.len() == other@.len(),
            base@.len() == sel@.len(),
            r@.len() == i,
            forall|j: int|
                0 <= j < i ==> r@[j] == (if sel@[j] % 2 == 0 {
                    other@[j]
                } else {
                    base@[j]
                }),
        decreases n - i,
    {
        if sel[i] % 2 == 0 {
            r.push(other[i]);
        } else {
            r.push(base[i]);
        }
        i = i + 1;
    }
    proof {
        assert(r@ =~= crossover_spec(base@, other@, sel@));
    }
    r
}

/// Whether two byte vectors hold the same bytes.
pub fn eq_bytes(a: &Vec<u8>, b: &Vec<u8>) -> (r: bool)
    ensures
        r <==> a@ == b@,
{
    if a.len() != b.len() {
        return false;
    }
    let n = a.len();
    let mut i: usize = 0;
    while i < n
        invariant
            i <= n,
            n == a@.len(),
            a@.len() == b@.len(),
            forall|j: int| 0 <= j < i ==> a@[j] == b@[j],
        decreases n - i,
    {
        if a[i] != b[i] {
            return false;
        }
        i = i + 1;
    }
    proof {
        assert(a@ =~= b@);
    }
    true
}

/// A fresh vector with the same bytes.
pub fn copy_bytes(v: &Vec<u8>) -> (r: Vec<u8>)
    ensures
        r@ == v@,
{
    let mut r: Vec<u8> = Vec::new();
    let n = v.len();
    let mut i: usize = 0;
    while i < n
        invariant
            i <= n,
            n == v@.len(),
            r@.len() == i,
            forall|j: int| 0 <= j < i ==> r@[j] == v@[j],
        decreases n - i,
    {
        r.push(v[i]);
        i = i + 1;
    }
    proof {
        assert(r@ =~= v@);
    }
    r
}

} // verus!
