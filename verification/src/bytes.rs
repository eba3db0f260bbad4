//! Byte-sequence helpers.

use vstd::prelude::*;

verus! {

/// `data` begins with `prefix`.
pub open spec fn begins(data: Seq<u8>, prefix: Seq<u8>) -> bool {
    prefix.len() <= data.len() && data.take(prefix.len() as int) == prefix
}

/// Whether `data` begins with `prefix`.
pub fn starts_with(data: &[u8], prefix: &[u8]) -> (r: bool)
    ensures
        r == begins(data@, prefix@),
{
    if prefix.len() > data.len() {
        return false;
    }
    let mut i: usize = 0;
    while i < prefix.len()
        invariant
            i <= prefix@.len() <= data@.len(),
            forall|j: int| 0 <= j < i ==> data@[j] == prefix@[j],
        decreases prefix@.len() - i,
    {
        if data[i] != prefix[i] {
            assert(data@.take(prefix@.len() as int)[i as int] != prefix@[i as int]);
            return false;
        }
        i = i + 1;
    }
    assert(data@.take(prefix@.len() as int) =~= prefix@);
    true
}

/// A sequence begins with another one exactly where it is that one and
/// something more.
pub proof fn beginnings_are_prefixes(prefix: Seq<u8>, rest: Seq<u8>, data: Seq<u8>)
    ensures
        begins(prefix + rest, prefix),
        begins(data, prefix) ==> data == prefix + data.skip(prefix.len() as int),
{
    assert((prefix + rest).take(prefix.len() as int) =~= prefix);
    if begins(data, prefix) {
        assert(data =~= data.take(prefix.len() as int) + data.skip(prefix.len() as int));
    }
}

} // verus!
