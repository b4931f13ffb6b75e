//! The group probe: all eight lanes of a bucket are compared at once, and a
//! bitmask tells which of them match.

use crate::pow2;
use crate::wide::Bucket;
use crate::wide::SLOTS;
use vstd::prelude::*;

verus! {

/// Whether bit `bit` of `mask` is set.
pub open spec fn bit_set(mask: u32, bit: u32) -> bool {
    (mask >> bit) & 1 == 1
}

/// A bit is set exactly if the mask shares it with the power of two of its
/// place.
pub proof fn law_bit_set_reads_its_place(mask: u32, bit: u32)
    requires
        bit < 32,
    ensures
        bit_set(mask, bit) <==> mask & (1u32 << bit) != 0,
{
    pow2::lemma_bit_in_place(mask, bit);
}

/// Bitmask with two bits set per matching lane.
pub fn eq_mask(bucket: &Bucket, fp: u16) -> (mask: u32)
    ensures
        forall|bit: u32|
            bit < 32 ==> (#[trigger] bit_set(mask, bit) <==> bit < 2 * SLOTS
                && bucket.0@[bit as int / 2] == fp),
{
    let mut mask: u32 = 0;
    let mut i: u32 = 0;
    assert forall|bit: u32| bit < 32 implies !#[trigger] bit_set(0, bit) by {
        assert((0u32 >> bit) & 1 == 0) by (bit_vector);
    }
    while i < 8
        invariant
            i <= 8,
            forall|bit: u32|
                bit < 32 ==> (#[trigger] bit_set(mask, bit) <==> bit < 2 * i
                    && bucket.0@[bit as int / 2] == fp),
        decreases 8 - i,
    {
        if bucket.0[i as usize] == fp {
            let ghost before = mask;
            mask = mask | (3u32 << (2 * i));
            assert forall|bit: u32| bit < 32 implies (#[trigger] bit_set(mask, bit) <==> bit_set(
                before,
                bit,
            ) || bit / 2 == i) by {
                let shift = (2 * i) as u32;
                assert((((before | (3u32 << shift)) >> bit) & 1 == 1) <==> ((before >> bit) & 1 == 1
                    || bit / 2 == i)) by (bit_vector)
                    requires
                        bit < 32,
                        i < 8,
                        shift == 2 * i,
                ;
            }
        }
        i = i + 1;
    }
    mask
}

/// No bit of an empty mask is set, so no lane matches.
proof fn lemma_empty_mask(bucket: &Bucket, fp: u16)
    requires
        forall|bit: u32|
            bit < 32 ==> (#[trigger] bit_set(0, bit) <==> bit < 2 * SLOTS && bucket.0@[bit as int
                / 2] == fp),
    ensures
        !bucket.0@.contains(fp),
{
    assert forall|i: int| 0 <= i < SLOTS implies bucket.0@[i] != fp by {
        let bit = (2 * i) as u32;
        assert(!bit_set(0, bit)) by {
            assert((0u32 >> bit) & 1 == 0) by (bit_vector);
        }
    }
}

/// Whether some lane holds `fp`.
pub fn any_eq(bucket: &Bucket, fp: u16) -> (found: bool)
    ensures
        found <==> bucket.0@.contains(fp),
{
    let mask: u32 = eq_mask(bucket, fp);
    proof {
        vstd::std_specs::bits::axiom_u32_trailing_zeros(mask);
        let bit = vstd::std_specs::bits::u32_trailing_zeros(mask);
        if mask != 0 {
            assert(bit_set(mask, bit));
            assert(bucket.0@[bit as int / 2] == fp);
        } else {
            lemma_empty_mask(bucket, fp);
        }
    }
    mask != 0
}

/// The first lane that holds `fp`.
pub fn first_eq(bucket: &Bucket, fp: u16) -> (lane: Option<usize>)
    ensures
        lane is Some <==> bucket.0@.contains(fp),
        lane matches Some(i) ==> {
            &&& i < SLOTS
            &&& bucket.0@[i as int] == fp
            &&& forall|j: int| 0 <= j < i ==> bucket.0@[j] != fp
        },
{
    let mask: u32 = eq_mask(bucket, fp);
    proof {
        vstd::std_specs::bits::axiom_u32_trailing_zeros(mask);
        let bit = vstd::std_specs::bits::u32_trailing_zeros(mask);
        if mask != 0 {
            assert(bit_set(mask, bit));
            assert(bucket.0@[bit as int / 2] == fp);
            assert(bit >> 1 == bit / 2) by (bit_vector);
            assert forall|j: int| 0 <= j < bit / 2 implies bucket.0@[j] != fp by {
                let low = (2 * j) as u32;
                assert((mask >> low) & 1u32 == 0u32);
                assert(!bit_set(mask, low));
            }
        } else {
            lemma_empty_mask(bucket, fp);
        }
    }
    if mask == 0 {
        None
    } else {
        Some((mask.trailing_zeros() >> 1) as usize)
    }
}

} // verus!
