//! What the four cuckoo filters take of a hash: a bucket and a fingerprint,
//! in plain arithmetic, and nothing else.

use crate::pow2;
use crate::simd::SimdCuckooFilter;
use crate::standard::CuckooFilter;
use crate::standard16::CuckooFilter16;
use crate::wide::WideCuckooFilter;
use vstd::prelude::*;

verus! {

/// The buckets have 4 slots, and there is a power of two of them.
/// The hash of an item decides what happens to it by two numbers alone: its
/// remainder by the number of buckets, and the eight bits above its low
/// word, with 1 in place of 0.
pub proof fn law_standard_filter_reads_a_bucket_and_a_byte(f: &CuckooFilter, hash: u64, i: int, fp: u16)
    requires
        f.wf(),
        i == hash as int % f@.rows.len() as int,
        fp == (if (hash / 0x1_0000_0000) % 0x100 == 0 {
            1
        } else {
            (hash / 0x1_0000_0000) % 0x100
        }),
    ensures
        pow2::is_pow2(f@.rows.len() as int),
        forall|b: int| 0 <= b < f@.rows.len() ==> (#[trigger] f@.rows[b]).len() == 4,
        f.entry(hash) == f@.entry(i, fp),
        f.insertion(hash) == f@.insert(i, fp),
        f.has_room(hash) == f@.has_room(i, fp),
        f.holds(hash) == f@.holds(i, fp),
        f.depth(hash) == f@.depth(i, fp),
        f.removal(hash) == f@.remove(i, fp),
{
}

/// The buckets have 4 slots, and there is a power of two of them.
/// The hash of an item decides what happens to it by two numbers alone: its
/// remainder by the number of buckets, and the sixteen bits above its low
/// word, with 1 in place of 0.
pub proof fn law_standard16_filter_reads_a_bucket_and_a_half_word(f: &CuckooFilter16, hash: u64, i: int, fp: u16)
    requires
        f.wf(),
        i == hash as int % f@.rows.len() as int,
        fp == (if (hash / 0x1_0000_0000) % 0x1_0000 == 0 {
            1
        } else {
            (hash / 0x1_0000_0000) % 0x1_0000
        }),
    ensures
        pow2::is_pow2(f@.rows.len() as int),
        forall|b: int| 0 <= b < f@.rows.len() ==> (#[trigger] f@.rows[b]).len() == 4,
        f.entry(hash) == f@.entry(i, fp),
        f.insertion(hash) == f@.insert(i, fp),
        f.has_room(hash) == f@.has_room(i, fp),
        f.holds(hash) == f@.holds(i, fp),
        f.depth(hash) == f@.depth(i, fp),
        f.removal(hash) == f@.remove(i, fp),
{
}

/// The buckets have 16 slots, and there is a power of two of them.
/// The hash of an item decides what happens to it by two numbers alone: its
/// remainder by the number of buckets, and the eight bits above its low
/// word, with 1 in place of 0.
pub proof fn law_simd_filter_reads_a_bucket_and_a_byte(f: &SimdCuckooFilter, hash: u64, i: int, fp: u16)
    requires
        f.wf(),
        i == hash as int % f@.rows.len() as int,
        fp == (if (hash / 0x1_0000_0000) % 0x100 == 0 {
            1
        } else {
            (hash / 0x1_0000_0000) % 0x100
        }),
    ensures
        pow2::is_pow2(f@.rows.len() as int),
        forall|b: int| 0 <= b < f@.rows.len() ==> (#[trigger] f@.rows[b]).len() == 16,
        f.entry(hash) == f@.entry(i, fp),
        f.insertion(hash) == f@.insert(i, fp),
        f.has_room(hash) == f@.has_room(i, fp),
        f.holds(hash) == f@.holds(i, fp),
        f.depth(hash) == f@.depth(i, fp),
        f.removal(hash) == f@.remove(i, fp),
{
}

/// The buckets have 8 slots, and there is a power of two of them.
/// The hash of an item decides what happens to it by two numbers alone: its
/// remainder by the number of buckets, and the sixteen bits above its low
/// word, with 1 in place of 0.
pub proof fn law_wide_filter_reads_a_bucket_and_a_half_word(f: &WideCuckooFilter, hash: u64, i: int, fp: u16)
    requires
        f.wf(),
        i == hash as int % f@.rows.len() as int,
        fp == (if (hash / 0x1_0000_0000) % 0x1_0000 == 0 {
            1
        } else {
            (hash / 0x1_0000_0000) % 0x1_0000
        }),
    ensures
        pow2::is_pow2(f@.rows.len() as int),
        forall|b: int| 0 <= b < f@.rows.len() ==> (#[trigger] f@.rows[b]).len() == 8,
        f.entry(hash) == f@.entry(i, fp),
        f.insertion(hash) == f@.insert(i, fp),
        f.has_room(hash) == f@.has_room(i, fp),
        f.holds(hash) == f@.holds(i, fp),
        f.depth(hash) == f@.depth(i, fp),
        f.removal(hash) == f@.remove(i, fp),
{
}

} // verus!
