//! The group probe: all sixteen lanes of a bucket are compared at once, and a
//! bitmask tells which of them match.

use crate::pow2;
use crate::simd::Bucket;
use crate::simd::SLOTS;
use vstd::prelude::*;

verus! {

/// Whether bit `lane` of `mask` is set.
pub open spec fn lane_set(mask: u32, lane: u32) -> bool {
    (mask >> lane) & 1 == 1
}

/// A bit is set exactly if the mask shares it with the power of two of its
/// place.
pub proof fn law_lane_set_reads_its_place(mask: u32, lane: u32)
    requires
        lane < 32,
    ensures
        lane_set(mask, lane) <==> mask & (1u32 << lane) != 0,
{
    pow2::lemma_bit_in_place(mask, lane);
}

/// Bitmask with one bit set per matching lane.
pub fn eq_mask(bucket: &Bucket, byte: u8) -> (mask: u32)
    ensures
        forall|lane: u32|
            lane < 32 ==> (#[trigger] lane_set(mask, lane) <==> lane < SLOTS
                && bucket.0@[lane as int] == byte),
{
    let mut mask: u32 = 0;
    let mut i: u32 = 0;
    assert forall|lane: u32| lane < 32 implies !#[trigger] lane_set(0, lane) by {
        assert((0u32 >> lane) & 1 == 0) by (bit_vector);
    }
    while i < 16
        invariant
            i <= 16,
            forall|lane: u32|
                lane < 32 ==> (#[trigger] lane_set(mask, lane) <==> lane < i
                    && bucket.0@[lane as int] == byte),
        decreases 16 - i,
    {
        if bucket.0[i as usize] == byte {
            let ghost before = mask;
            mask = mask | (1u32 << i);
            assert forall|lane: u32| lane < 32 implies (#[trigger] lane_set(mask, lane)
                <==> lane_set(before, lane) || lane == i) by {
                assert((((before | (1u32 << i)) >> lane) & 1 == 1) <==> ((before >> lane) & 1 == 1
                    || lane == i)) by (bit_vector)
                    requires
                        lane < 32,
                        i < 16,
                ;
            }
        }
        i = i + 1;
    }
    mask
}

/// No bit of an empty mask is set, so no lane matches.
proof fn lemma_empty_mask(bucket: &Bucket, byte: u8)
    requires
        forall|lane: u32|
            lane < 32 ==> (#[trigger] lane_set(0, lane) <==> lane < SLOTS
                && bucket.0@[lane as int] == byte),
    ensures
        !bucket.0@.contains(byte),
{
    assert forall|i: int| 0 <= i < SLOTS implies bucket.0@[i] != byte by {
        let lane = i as u32;
        assert(!lane_set(0, lane)) by {
            assert((0u32 >> lane) & 1 == 0) by (bit_vector);
        }
    }
}

/// Whether some lane holds `byte`.
pub fn any_eq(bucket: &Bucket, byte: u8) -> (found: bool)
    ensures
        found <==> bucket.0@.contains(byte),
{
    let mask: u32 = eq_mask(bucket, byte);
    proof {
        vstd::std_specs::bits::axiom_u32_trailing_zeros(mask);
        let lane = vstd::std_specs::bits::u32_trailing_zeros(mask);
        if mask != 0 {
            assert(lane_set(mask, lane));
            assert(bucket.0@[lane as int] == byte);
        } else {
            lemma_empty_mask(bucket, byte);
        }
    }
    mask != 0
}

/// The first lane that holds `byte`.
pub fn first_eq(bucket: &Bucket, byte: u8) -> (lane: Option<usize>)
    ensures
        lane is Some <==> bucket.0@.contains(byte),
        lane matches Some(i) ==> {
            &&& i < SLOTS
            &&& bucket.0@[i as int] == byte
            &&& forall|j: int| 0 <= j < i ==> bucket.0@[j] != byte
        },
{
    let mask: u32 = eq_mask(bucket, byte);
    proof {
        vstd::std_specs::bits::axiom_u32_trailing_zeros(mask);
        let lane = vstd::std_specs::bits::u32_trailing_zeros(mask);
        if mask != 0 {
            assert(lane_set(mask, lane));
            assert(bucket.0@[lane as int] == byte);
            assert forall|j: int| 0 <= j < lane implies bucket.0@[j] != byte by {
                assert((mask >> (j as u32)) & 1u32 == 0u32);
                assert(!lane_set(mask, j as u32));
            }
        } else {
            lemma_empty_mask(bucket, byte);
        }
    }
    if mask == 0 {
        None
    } else {
        Some(mask.trailing_zeros() as usize)
    }
}

} // verus!
