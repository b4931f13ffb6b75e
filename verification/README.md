# cuckoo-bench

Approximate-membership filters, verified with Verus: four cuckoo filters and a
Bloom filter, with a demo program that compares their memory, false-positive
rate and lookup time.

| | `standard::CuckooFilter` | `standard16::CuckooFilter16` | `simd::SimdCuckooFilter` | `wide::WideCuckooFilter` |
| --- | --- | --- | --- | --- |
| Bucket | 4 x 8-bit fingerprints | 4 x 16-bit | 16 x 8-bit | 8 x 16-bit |
| Probe | slot by slot | slot by slot | lane mask over the group | lane mask over the group |
| Memory | 1 byte/slot | 2 bytes/slot | 1 byte/slot | 2 bytes/slot |

All cuckoo filters use partial-key cuckoo hashing (alternate bucket =
`i ^ h(fp)`), the same hash, eviction capped at 500 kicks, and support
`insert`, `contains` and `remove`. Fingerprint 0 is the empty slot.

## Layout

- `src/hash.rs`: the hasher, the keys it takes, fingerprints, the alternate
  bucket, the pseudo-random stream.
- `src/pow2.rs`: powers of two, table sizes, masks as remainders.
- `src/table.rs`: the model of a cuckoo filter, a table of rows of
  fingerprints with the multiset of entries that it stores, and the lemmas on
  what each operation does to that multiset.
- `src/standard.rs`, `src/standard16.rs`, `src/simd.rs`, `src/wide.rs`: the
  filters. Every contract gives the exact table after the call and the effect
  on the stored entries.
- `src/bloom.rs`: the Bloom filter, whose model is its sequence of bits.
- `src/laws.rs`: what holds over whole histories, first of all that no filter
  has false negatives.
- `app/`: the demo, and the ratios that need floating point.

## Keys

`insert`, `contains`, `probe_depth` and `remove` take any `hash::HashKey`:
integers of 8, 32 and 64 bits and of pointer size, `bool`, `char`, strings,
bytes, references, boxes, pairs and options of these. The contracts know the
hash of such a key, whatever the machine's byte order.

A value of any other type that implements `std::hash::Hash` goes in by its
hash: `filter.insert_hash(hash_of_any(&value))`. The 16-bit and 128-bit
integers are among these, since their `Hash` writes bytes in native order. What
such a type writes to a hasher is its own affair, so `hash_of_any` promises
nothing of the hash; this call is the only one that is trusted and not proved.
