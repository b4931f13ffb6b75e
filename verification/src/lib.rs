//! Approximate-membership filters with machine-checked contracts.
//!
//! - [`standard::CuckooFilter`]: the classic cuckoo filter, buckets of four
//!   8-bit fingerprints probed slot by slot.
//! - [`standard16::CuckooFilter16`]: the same layout with 16-bit fingerprints.
//! - [`simd::SimdCuckooFilter`]: buckets of sixteen 8-bit fingerprints, probed
//!   as one group through a lane mask, the way a Swiss table probes its
//!   control bytes.
//! - [`wide::WideCuckooFilter`]: the same group probe over eight 16-bit
//!   fingerprints.
//! - [`bloom::BloomFilter`]: a Bloom filter with double hashing.
//!
//! All cuckoo filters use partial-key cuckoo hashing: a fingerprint lives in
//! one of two buckets, and the second is computed from the first and the
//! fingerprint alone. [`table::Table`] is their common mathematical model.
//!
//! What holds of the filters over any sequence of operations is in [`laws`].
//! What single operations do is stated in plain arithmetic, slot by slot and
//! bit by bit, in [`hash_laws`], [`table_laws`], [`filter_laws`] and
//! [`bloom_laws`].

pub mod bloom;
pub mod bloom_laws;
pub mod filter_laws;
pub mod hash;
pub mod hash_laws;
pub mod laws;
pub mod pow2;
pub mod simd;
pub mod standard;
pub mod standard16;
pub mod table;
pub mod table_laws;
pub mod wide;
