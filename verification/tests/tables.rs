use cuckoo_bench::bloom::BloomFilter;
use cuckoo_bench::hash::alt_index;
use cuckoo_bench::hash::fingerprint;
use cuckoo_bench::hash::hash_of;
use cuckoo_bench::hash::hash_of_any;
use cuckoo_bench::hash::xorshift;
use cuckoo_bench::pow2::bucket_count;
use cuckoo_bench::pow2::next_power_of_two;
use cuckoo_bench::simd;
use cuckoo_bench::simd::SimdCuckooFilter;
use cuckoo_bench::standard::CuckooFilter;
use cuckoo_bench::standard16::CuckooFilter16;
use cuckoo_bench::wide;
use cuckoo_bench::wide::WideCuckooFilter;

fn keys(n: usize, mut seed: u64) -> Vec<u64> {
    (0..n).map(|_| xorshift(&mut seed)).collect()
}

fn depths(text: &str) -> Vec<Option<u8>> {
    text.bytes().map(|b| if b == b'-' { None } else { Some(b - b'0') }).collect()
}

#[test]
fn standard_overflow_leaves_known_probe_depths() {
    let items = keys(40, 77);
    let mut filter = CuckooFilter::with_capacity(16);
    let accepted: Vec<bool> = items.iter().map(|k| filter.insert(k)).collect();
    assert_eq!(accepted.iter().filter(|ok| **ok).count(), 16);
    assert!(accepted[..16].iter().all(|ok| *ok));
    assert_eq!(filter.len(), 16);
    let found: Vec<Option<u8>> = items.iter().map(|k| filter.probe_depth(k)).collect();
    assert_eq!(found, depths("---1----1-211------2--1----112-1111--112"));
    for key in &items {
        assert_eq!(filter.contains(key), filter.probe_depth(key).is_some());
        assert_eq!(filter.contains_hash(hash_of(key)), filter.contains(key));
        assert_eq!(filter.probe_depth_hash(hash_of(key)), filter.probe_depth(key));
    }
}

#[test]
fn standard16_overflow_leaves_known_probe_depths() {
    let items = keys(40, 77);
    let mut filter = CuckooFilter16::with_capacity(13);
    assert_eq!(filter.capacity(), 16);
    let accepted: Vec<bool> = items.iter().map(|k| filter.insert(k)).collect();
    assert!(accepted[..16].iter().all(|ok| *ok));
    assert!(accepted[16..].iter().all(|ok| !*ok));
    assert_eq!(filter.len(), 16);
    let found: Vec<Option<u8>> = items.iter().map(|k| filter.probe_depth(k)).collect();
    assert_eq!(found, depths("---1----1-211------2--1----1-2-1111--112"));
    for key in &items {
        assert_eq!(filter.contains(key), filter.probe_depth(key).is_some());
        assert_eq!(filter.contains_hash(hash_of(key)), filter.contains(key));
        assert_eq!(filter.probe_depth_hash(hash_of(key)), filter.probe_depth(key));
    }
}

#[test]
fn simd_overflow_leaves_known_probe_depths() {
    let items = keys(40, 77);
    let mut filter = SimdCuckooFilter::with_capacity(1);
    assert_eq!(filter.capacity(), 16);
    let accepted: Vec<bool> = items.iter().map(|k| filter.insert(k)).collect();
    assert!(accepted[..16].iter().all(|ok| *ok));
    assert!(accepted[16..].iter().all(|ok| !*ok));
    assert_eq!(filter.len(), 16);
    let found: Vec<Option<u8>> = items.iter().map(|k| filter.probe_depth(k)).collect();
    assert_eq!(found, depths("-1----1-1------1----1-11-11-11-1--111111"));
    for key in &items {
        assert_eq!(filter.contains(key), filter.probe_depth(key).is_some());
        assert_eq!(filter.contains_scalar(key), filter.contains(key));
        assert_eq!(filter.contains_hash(hash_of(key)), filter.contains(key));
        assert_eq!(filter.contains_scalar_hash(hash_of(key)), filter.contains(key));
        assert_eq!(filter.probe_depth_hash(hash_of(key)), filter.probe_depth(key));
    }
}

#[test]
fn wide_overflow_leaves_known_probe_depths() {
    let items = keys(40, 77);
    let mut filter = WideCuckooFilter::with_capacity(16);
    let accepted: Vec<bool> = items.iter().map(|k| filter.insert(k)).collect();
    assert!(accepted[..16].iter().all(|ok| *ok));
    assert!(accepted[16..].iter().all(|ok| !*ok));
    assert_eq!(filter.len(), 16);
    let found: Vec<Option<u8>> = items.iter().map(|k| filter.probe_depth(k)).collect();
    assert_eq!(found, depths("-2--1-1------------1--2---112-2--2121211"));
    for key in &items {
        assert_eq!(filter.contains(key), filter.probe_depth(key).is_some());
        assert_eq!(filter.contains_hash(hash_of(key)), filter.contains(key));
        assert_eq!(filter.probe_depth_hash(hash_of(key)), filter.probe_depth(key));
    }
}

#[test]
fn fresh_filters_are_empty() {
    let standard = CuckooFilter::with_capacity(0);
    let standard16 = CuckooFilter16::with_capacity(0);
    let simd = SimdCuckooFilter::with_capacity(0);
    let wide = WideCuckooFilter::with_capacity(0);
    assert_eq!(standard.capacity(), 4);
    assert_eq!(standard16.capacity(), 4);
    assert_eq!(simd.capacity(), 16);
    assert_eq!(wide.capacity(), 8);
    assert!(standard.is_empty() && standard16.is_empty() && simd.is_empty() && wide.is_empty());
    assert_eq!(standard.len() + standard16.len() + simd.len() + wide.len(), 0);
    for key in keys(1000, 3) {
        assert!(!standard.contains(&key));
        assert!(!standard16.contains(&key));
        assert!(!simd.contains(&key));
        assert!(!wide.contains(&key));
        assert_eq!(standard.probe_depth(&key), None);
    }
}

#[test]
fn history_of_insertions_and_removals_has_no_false_negatives() {
    let mut standard = CuckooFilter::with_capacity(4096);
    let mut standard16 = CuckooFilter16::with_capacity(4096);
    let mut simd = SimdCuckooFilter::with_capacity(4096);
    let mut wide = WideCuckooFilter::with_capacity(4096);
    let mut live: Vec<u64> = Vec::new();
    for (turn, key) in keys(6000, 21).into_iter().enumerate() {
        assert!(standard.insert(&key));
        assert!(standard16.insert(&key));
        assert!(simd.insert(&key));
        assert!(wide.insert(&key));
        live.push(key);
        if turn % 2 == 1 {
            let gone = live.swap_remove(turn % live.len());
            assert!(standard.remove(&gone));
            assert!(standard16.remove(&gone));
            assert!(simd.remove(&gone));
            assert!(wide.remove(&gone));
        }
    }
    assert_eq!(live.len(), 3000);
    assert_eq!(standard.len(), 3000);
    assert_eq!(standard16.len(), 3000);
    assert_eq!(simd.len(), 3000);
    assert_eq!(wide.len(), 3000);
    for key in &live {
        assert!(standard.contains(key));
        assert!(standard16.contains(key));
        assert!(simd.contains(key));
        assert!(wide.contains(key));
    }
}

#[test]
fn every_hit_shares_fingerprint_and_buckets_with_an_item() {
    let items = keys(200, 31);
    let mut filter = CuckooFilter::with_capacity(256);
    for key in &items {
        assert!(filter.insert(key));
    }
    let mask = filter.capacity() / 4 - 1;
    let entry = |key: &u64| {
        let hash = hash_of(key);
        let fp = fingerprint(hash);
        let index = (hash as usize) & mask;
        let alt = alt_index(index, fp as usize, mask);
        (fp, index.min(alt))
    };
    let mut false_positives = 0;
    for key in keys(5000, 32) {
        let shared = items.iter().any(|item| entry(item) == entry(&key));
        assert_eq!(filter.contains(&key), shared);
        if shared {
            false_positives += 1;
        }
    }
    assert!(false_positives > 0);
}

#[test]
fn removal_undoes_insertion() {
    let mut filter = CuckooFilter16::with_capacity(64);
    assert!(!filter.remove(&5u64));
    assert!(filter.insert(&5u64));
    assert!(filter.insert(&5u64));
    assert_eq!(filter.len(), 2);
    assert!(filter.remove(&5u64));
    assert!(filter.contains(&5u64));
    assert!(filter.remove_hash(hash_of(&5u64)));
    assert!(!filter.contains(&5u64));
    assert!(!filter.remove(&5u64));
    assert!(filter.is_empty());
}

#[test]
fn ninth_copy_of_an_item_is_rejected() {
    // Two candidate buckets of four slots hold eight copies.
    let key = 42u64;
    let mut filter = CuckooFilter::with_capacity(1 << 10);
    for copies in 1..9 {
        assert!(filter.insert(&key));
        assert_eq!(filter.len(), copies);
    }
    assert!(!filter.insert(&key));
    assert_eq!(filter.len(), 8);
    assert!(filter.contains(&key));
}

#[test]
fn full_filter_rejects_and_keeps_its_length() {
    let mut filter = WideCuckooFilter::with_capacity(8);
    let items = keys(50, 9);
    for key in &items[..8] {
        assert!(filter.insert(key));
    }
    assert_eq!(filter.len(), filter.capacity());
    for key in &items[8..] {
        assert!(!filter.insert(key));
        assert_eq!(filter.len(), 8);
    }
}

#[test]
fn items_of_any_type_go_in_by_hash() {
    let item = (1u8, String::from("two"), [3u64, 4]);
    let mut standard = CuckooFilter::with_capacity(32);
    let mut simd = SimdCuckooFilter::with_capacity(32);
    let mut wide = WideCuckooFilter::with_capacity(32);
    let mut bloom = BloomFilter::new(1024, 4);
    assert!(standard.insert_hash(hash_of_any(&item)));
    assert!(simd.insert_hash(hash_of_any(&item)));
    assert!(wide.insert_hash(hash_of_any(&item)));
    bloom.insert_hash(hash_of_any(&item));
    assert!(standard.contains_hash(hash_of_any(&item)));
    assert!(simd.contains_hash(hash_of_any(&item)));
    assert!(wide.contains_hash(hash_of_any(&item)));
    assert!(bloom.contains_hash(hash_of_any(&item)));
    assert!(standard.remove_hash(hash_of_any(&item)));
    assert!(simd.remove_hash(hash_of_any(&item)));
    assert!(wide.remove_hash(hash_of_any(&item)));
    assert!(standard.is_empty() && simd.is_empty() && wide.is_empty());
}

#[test]
fn string_items_are_found() {
    let mut filter = SimdCuckooFilter::with_capacity(64);
    assert!(filter.insert("cuckoo"));
    assert!(filter.contains("cuckoo"));
    assert!(filter.contains(&String::from("cuckoo")));
    assert_eq!(filter.probe_depth("cuckoo"), Some(1));
}

#[test]
fn byte_group_probe_finds_lanes() {
    let mut lanes = [7u8; 16];
    lanes[5] = 9;
    lanes[11] = 9;
    lanes[15] = 0;
    let bucket = simd::Bucket(lanes);
    assert_eq!(simd::group::eq_mask(&bucket, 9), (1 << 5) | (1 << 11));
    assert_eq!(simd::group::eq_mask(&bucket, 8), 0);
    assert_eq!(simd::group::first_eq(&bucket, 9), Some(5));
    assert_eq!(simd::group::first_eq(&bucket, 0), Some(15));
    assert_eq!(simd::group::first_eq(&bucket, 7), Some(0));
    assert_eq!(simd::group::first_eq(&bucket, 8), None);
    for byte in 0..=255u8 {
        assert_eq!(simd::group::any_eq(&bucket, byte), lanes.contains(&byte));
        assert_eq!(simd::scalar_group::any_eq(&bucket, byte), lanes.contains(&byte));
    }
}

#[test]
fn wide_group_probe_finds_lanes() {
    let bucket = wide::Bucket([1, 0xffff, 2, 0, 0xffff, 3, 256, 0]);
    assert_eq!(wide::group::eq_mask(&bucket, 0xffff), 0b11_0000_1100);
    assert_eq!(wide::group::eq_mask(&bucket, 0), 0b1100_0000_1100_0000);
    assert_eq!(wide::group::first_eq(&bucket, 0xffff), Some(1));
    assert_eq!(wide::group::first_eq(&bucket, 0), Some(3));
    assert_eq!(wide::group::first_eq(&bucket, 256), Some(6));
    assert_eq!(wide::group::first_eq(&bucket, 4), None);
    assert!(wide::group::any_eq(&bucket, 3));
    assert!(!wide::group::any_eq(&bucket, 255));
}

#[test]
fn tables_are_sized_by_powers_of_two() {
    assert_eq!(next_power_of_two(0), 1);
    assert_eq!(next_power_of_two(1), 1);
    assert_eq!(next_power_of_two(5), 8);
    assert_eq!(next_power_of_two(8), 8);
    assert_eq!(next_power_of_two(1 << 63), 1 << 63);
    assert_eq!(bucket_count(0, 4), 1);
    assert_eq!(bucket_count(16, 4), 4);
    assert_eq!(bucket_count(17, 4), 8);
    assert_eq!(bucket_count(17, 16), 2);
    for capacity in 0..200 {
        assert!(CuckooFilter::with_capacity(capacity).capacity() >= capacity);
        assert!(WideCuckooFilter::with_capacity(capacity).capacity() >= capacity);
    }
    assert_eq!(CuckooFilter::with_capacity(100).memory_bytes(), 128);
    assert_eq!(CuckooFilter16::with_capacity(100).memory_bytes(), 256);
    assert_eq!(SimdCuckooFilter::with_capacity(100).memory_bytes(), 128);
    assert_eq!(WideCuckooFilter::with_capacity(100).memory_bytes(), 256);
}

#[test]
fn bloom_reports_its_shape() {
    let mut bloom = BloomFilter::new(0, 3);
    assert_eq!(bloom.bits(), 64);
    assert_eq!(bloom.memory_bytes(), 8);
    assert_eq!(bloom.k(), 3);
    assert!(bloom.is_empty());
    bloom.insert(&1u64);
    bloom.insert(&1u64);
    assert_eq!(bloom.len(), 2);
    assert!(!bloom.is_empty());
    assert_eq!(BloomFilter::new(65, 1).bits(), 128);
    assert_eq!(BloomFilter::new(1024, 1).bits(), 1024);
}

#[test]
fn bloom_sets_the_probed_bits_only() {
    // First probe 3, step 1, so two probes hit bits 3 and 4.
    let mut bloom = BloomFilter::new(64, 2);
    bloom.insert_hash(3);
    assert!(bloom.contains_hash(3));
    assert!(!bloom.contains_hash(2));
    assert!(!bloom.contains_hash(4));
    bloom.insert_hash(5);
    assert!(bloom.contains_hash(4));
    assert!(!bloom.contains_hash(6));
    // The step of this hash is 3: probes 63 and 2.
    assert!(!bloom.contains_hash((2 << 32) | 63));
    bloom.insert_hash((2 << 32) | 63);
    assert!(bloom.contains_hash(2));
    assert!(!bloom.contains_hash(1));
}

#[test]
fn bloom_probes_cycle_through_all_bits() {
    // As many probes as bits set every bit.
    let mut bloom = BloomFilter::new(64, 64);
    bloom.insert(&12345u64);
    for key in keys(100, 8) {
        assert!(bloom.contains(&key));
    }
}

#[test]
fn bloom_without_probes_finds_everything() {
    let bloom = BloomFilter::new(64, 0);
    assert!(bloom.contains(&1u64));
    let probing = BloomFilter::new(64, 1);
    for key in keys(100, 8) {
        assert!(!probing.contains(&key));
    }
}

#[test]
fn bloom_insertions_commute() {
    let items = keys(20, 4);
    let mut forward = BloomFilter::new(256, 5);
    let mut backward = BloomFilter::new(256, 5);
    for key in &items {
        forward.insert(key);
    }
    for key in items.iter().rev() {
        backward.insert(key);
    }
    for key in keys(5000, 6) {
        assert_eq!(forward.contains(&key), backward.contains(&key));
    }
}
