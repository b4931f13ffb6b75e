use cuckoo_bench::hash::alt_index;
use cuckoo_bench::hash::fingerprint;
use cuckoo_bench::hash::fingerprint_u16;
use cuckoo_bench::hash::finish_hash;
use cuckoo_bench::hash::hash_of;
use cuckoo_bench::hash::hash_of_any;
use cuckoo_bench::hash::splitmix_finalize;
use cuckoo_bench::hash::xorshift;
use cuckoo_bench::hash::FxHasher;
use std::hash::Hash;
use std::hash::Hasher;

#[test]
fn hash_of_integers_has_known_values() {
    assert_eq!(hash_of(&0u64), 0);
    assert_eq!(hash_of(&42u64), 0xe214_952e_5491_74e8);
    assert_eq!(hash_of(&u64::MAX), 0x5461_6970_9fc5_0745);
    assert_eq!(hash_of(&42u8), hash_of(&42u64));
    assert_eq!(hash_of(&42usize), hash_of(&42u64));
}

#[test]
fn hash_of_strings_and_bytes_has_known_values() {
    assert_eq!(hash_of(""), 0x4c13_2917_89bd_ae17);
    assert_eq!(hash_of("abc"), 0x08dd_5e03_8d2b_b9be);
    assert_eq!(hash_of("hello, world"), 0x2566_ec72_5f37_d423);
    assert_eq!(hash_of(&String::from("abc")), hash_of("abc"));
    assert_eq!(hash_of(&vec![1u8, 2, 3]), 0x67e4_77d3_40d3_8e38);
    let bytes: &[u8] = &[1, 2, 3];
    assert_eq!(hash_of(bytes), 0x67e4_77d3_40d3_8e38);
    assert_eq!(hash_of(&bytes), 0x67e4_77d3_40d3_8e38);
}

#[test]
fn keys_hash_like_their_std_implementations() {
    assert_eq!(hash_of(&7u8), hash_of_any(&7u8));
    assert_eq!(hash_of(&0x1234_5678u32), hash_of_any(&0x1234_5678u32));
    assert_eq!(hash_of(&42u64), hash_of_any(&42u64));
    assert_eq!(hash_of(&99usize), hash_of_any(&99usize));
    assert_eq!(hash_of(&-7i8), hash_of_any(&-7i8));
    assert_eq!(hash_of(&-7i32), hash_of_any(&-7i32));
    assert_eq!(hash_of(&-7i64), hash_of_any(&-7i64));
    assert_eq!(hash_of(&-7isize), hash_of_any(&-7isize));
    assert_eq!(hash_of(&true), hash_of_any(&true));
    assert_eq!(hash_of(&false), hash_of_any(&false));
    assert_eq!(hash_of(&'\u{1f980}'), hash_of_any(&'\u{1f980}'));
    assert_eq!(hash_of("h\u{e9}llo, world"), hash_of_any("h\u{e9}llo, world"));
    let text = String::from("seventeen letters");
    assert_eq!(hash_of(&text), hash_of_any(&text));
    let bytes: Vec<u8> = (0..21).collect();
    assert_eq!(hash_of(&bytes), hash_of_any(&bytes));
    assert_eq!(hash_of(bytes.as_slice()), hash_of_any(bytes.as_slice()));
    assert_eq!(hash_of(&&5u64), hash_of_any(&&5u64));
    assert_eq!(hash_of(&Box::new(5u64)), hash_of_any(&Box::new(5u64)));
    assert_eq!(hash_of(&(5u32, "x")), hash_of_any(&(5u32, "x")));
    assert_eq!(hash_of(&Some(5u64)), hash_of_any(&Some(5u64)));
    let nothing: Option<u64> = None;
    assert_eq!(hash_of(&nothing), hash_of_any(&nothing));
}

#[test]
fn other_integers_hash_by_their_native_bytes() {
    let mut a = FxHasher::default();
    a.write(&0x1234u16.to_ne_bytes());
    assert_eq!(hash_of_any(&0x1234u16), finish_hash(&a));
    let wide = 5u128 + (7u128 << 64);
    let mut b = FxHasher::default();
    b.write(&wide.to_ne_bytes());
    assert_eq!(hash_of_any(&wide), finish_hash(&b));
    let mut c = FxHasher::default();
    c.write(&(-7i16).to_ne_bytes());
    assert_eq!(hash_of_any(&-7i16), finish_hash(&c));
    let mut d = FxHasher::default();
    d.write(&(-7i128).to_ne_bytes());
    assert_eq!(hash_of_any(&-7i128), finish_hash(&d));
}

#[test]
fn finished_hash_is_the_finalized_state() {
    let mut hasher = FxHasher::default();
    assert_eq!(finish_hash(&hasher), 0);
    hasher.write_u64(42);
    assert_eq!(finish_hash(&hasher), hash_of(&42u64));
    assert_eq!(finish_hash(&hasher), splitmix_finalize(hasher.finish()));
}

#[derive(Hash)]
struct Point {
    x: u32,
    y: u64,
}

#[test]
fn any_hashable_type_has_a_hash() {
    let p = Point { x: 3, y: 9 };
    assert_eq!(hash_of_any(&p), hash_of(&(3u32, 9u64)));
    assert_ne!(hash_of_any(&p), hash_of_any(&Point { x: 9, y: 3 }));
}

#[test]
fn hasher_absorbs_bytes_by_words() {
    let mut a = FxHasher::default();
    assert_eq!(a.finish(), 0);
    a.write(&[1, 2, 3, 4, 5, 6, 7, 8, 9]);
    let mut b = FxHasher::default();
    b.write_u64(0x0807_0605_0403_0201);
    b.write_u8(9);
    assert_eq!(a.finish(), b.finish());
    let mut c = FxHasher::default();
    c.write(&[]);
    assert_eq!(c.finish(), 0);
    c.write_u32(1);
    assert_eq!(c.finish(), 0x517c_c1b7_2722_0a95);
    let mut d = FxHasher::default();
    d.write_usize(1);
    assert_eq!(d.finish(), c.finish());
    let mut e = FxHasher::default();
    1u64.hash(&mut e);
    assert_eq!(e.finish(), c.finish());
}

#[test]
fn splitmix_has_known_values() {
    assert_eq!(splitmix_finalize(0), 0);
    assert_eq!(splitmix_finalize(1), 0x5692_161d_100b_05e5);
    assert_eq!(splitmix_finalize(0xdead_beef), 0x4e06_2702_ec92_9eea);
}

#[test]
fn fingerprints_are_never_zero() {
    assert_eq!(fingerprint(0x1234_5678_0000_0000), 0x78);
    assert_eq!(fingerprint_u16(0x1234_5678_0000_0000), 0x5678);
    assert_eq!(fingerprint(0xffff_ff00_ffff_ffff), 1);
    assert_eq!(fingerprint_u16(0xffff_ff00_ffff_ffff), 0xff00);
    assert_eq!(fingerprint_u16(0xffff_0000_ffff_ffff), 1);
    assert_eq!(fingerprint(0), 1);
    assert_eq!(fingerprint_u16(0), 1);
}

#[test]
fn alternate_of_the_alternate_is_the_bucket() {
    assert_eq!(alt_index(3, 0xab, 63), 4);
    assert_eq!(alt_index(0, 1, (1 << 20) - 1), 125_333);
    assert_eq!(alt_index(5, 0xbeef, 15), 14);
    for index in 0..64 {
        for fp in 1..256 {
            let alt = alt_index(index, fp, 63);
            assert!(alt < 64);
            assert_eq!(alt_index(alt, fp, 63), index);
        }
    }
}

#[test]
fn xorshift_has_known_values_and_stays_nonzero() {
    let mut state = 1u64;
    assert_eq!(xorshift(&mut state), 0x4082_2041);
    assert_eq!(state, 0x4082_2041);
    assert_eq!(xorshift(&mut state), 0x1000_4106_0c01_1441);
    let mut seed = 0x9e37_79b9_7f4a_7c15u64;
    assert_eq!(xorshift(&mut seed), 0xdc1b_77ae_0bf3_4dad);
    let mut zero = 0u64;
    assert_eq!(xorshift(&mut zero), 0);
    for _ in 0..10_000 {
        assert_ne!(xorshift(&mut state), 0);
    }
}
