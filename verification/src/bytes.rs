//! Byte strings.
use vstd::prelude::*;

verus! {

/// Copies the first `n` bytes of a slice.
pub fn copy_prefix(from: &[u8], n: usize) -> (r: Vec<u8>)
    requires
        n <= from@.len(),
    ensures
        r@ == from@.take(n as int),
{
    let mut r: Vec<u8> = Vec::new();
    let mut i: usize = 0;
    while i < n
        invariant
            i <= n <= from@.len(),
            r@ == from@.take(i as int),
        decreases n - i,
    {
        r.push(from[i]);
        assert(from@.take(i as int + 1) =~= from@.take(i as int).push(from@[i as int]));
        i = i + 1;
    }
    r
}

/// Copies a slice.
pub fn copy_bytes(from: &[u8]) -> (r: Vec<u8>)
    ensures
        r@ == from@,
{
    assert(from@.take(from@.len() as int) =~= from@);
    copy_prefix(from, from.len())
}

/// Whether two byte strings are the same.
pub fn same_bytes(a: &[u8], b: &[u8]) -> (r: bool)
    ensures
        r == (a@ == b@),
{
    if a.len() != b.len() {
        return false;
    }
    let mut i: usize = 0;
    while i < a.len()
        invariant
            i <= a@.len() == b@.len(),
            forall|j: int| 0 <= j < i ==> a@[j] == b@[j],
        decreases a.len() - i,
    {
        if a[i] != b[i] {
            return false;
        }
        i = i + 1;
    }
    assert(a@ =~= b@);
    true
}

} // verus!
