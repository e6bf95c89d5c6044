//! Runs of bytes.

use vstd::prelude::*;
use vstd::slice::slice_subrange;

verus! {

/// A run of bytes as a vector of its own.
pub fn copied(data: &[u8], from: usize, to: usize) -> (r: Vec<u8>)
    requires
        from <= to <= data@.len(),
    ensures
        r@ == data@.subrange(from as int, to as int),
{
    let mut v: Vec<u8> = Vec::new();
    v.extend_from_slice(slice_subrange(data, from, to));
    assert(v@ =~= data@.subrange(from as int, to as int));
    v
}

} // verus!
