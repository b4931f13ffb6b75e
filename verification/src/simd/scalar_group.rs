//! Scalar probe over the same 16-slot layout, kept so that benchmarks can
//! separate wider buckets from the group probe.

use crate::simd::Bucket;
use crate::simd::SLOTS;
use vstd::prelude::*;

verus! {

/// Whether some slot holds `byte`.
pub fn any_eq(bucket: &Bucket, byte: u8) -> (found: bool)
    ensures
        found <==> bucket.0@.contains(byte),
{
    let mut i: usize = 0;
    while i < SLOTS
        invariant
            i <= SLOTS,
            forall|j: int| 0 <= j < i ==> bucket.0@[j] != byte,
        decreases SLOTS - i,
    {
        if bucket.0[i] == byte {
            assert(bucket.0@[i as int] == byte);
            return true;
        }
        i = i + 1;
    }
    false
}

} // verus!
