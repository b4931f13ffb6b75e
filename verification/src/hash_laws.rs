//! What hashing keeps: every step of it can be undone, so nothing that was
//! absorbed is lost, and every byte and every word counts.

use crate::hash;
use crate::hash::HashKey;
use crate::pow2;
use vstd::arithmetic::div_mod;
use vstd::prelude::*;

verus! {

/// Multiplication by an odd number is undone by its inverse modulo `2^64`.
proof fn lemma_unmultiply(x: u64, c: u64, inverse: u64, q: int)
    requires
        c * inverse == q * 0x1_0000_0000_0000_0000 + 1,
    ensures
        x.wrapping_mul(c).wrapping_mul(inverse) == x,
{
    let m: int = 0x1_0000_0000_0000_0000;
    div_mod::lemma_mul_mod_noop_left(x * c, inverse as int, m);
    assert((x * c) * inverse == m * (x * q) + x) by (nonlinear_arith)
        requires
            c * inverse == q * m + 1,
    ;
    div_mod::lemma_mod_multiples_vanish(x * q, x as int, m);
    div_mod::lemma_small_mod(x as nat, m as nat);
}

/// Absorbing a word can be undone: the state before is what remains when the
/// multiplication, the word and the rotation are taken back in turn.
pub proof fn law_absorbing_is_reversible(state: u64, word: u64)
    ensures
        ({
            let mixed = hash::fx_add(state, word).wrapping_mul(0x2040_003d_7809_70bd) ^ word;
            (mixed >> 5) | (mixed << 59) == state
        }),
{
    let rotated = hash::rotate5(state);
    lemma_unmultiply(
        rotated ^ word,
        0x517c_c1b7_2722_0a95,
        0x2040_003d_7809_70bd,
        0x0a43_f77a_e39d_ae8d,
    );
    assert((rotated ^ word) ^ word == rotated) by (bit_vector);
    assert((((state << 5) | (state >> 59)) >> 5) | (((state << 5) | (state >> 59)) << 59) == state)
        by (bit_vector);
}

/// Different words take a hasher to different states, and so does one word
/// from different states.
pub proof fn law_absorbing_tells_words_apart(s: u64, t: u64, a: u64, b: u64)
    ensures
        hash::fx_add(s, a) == hash::fx_add(s, b) ==> a == b,
        hash::fx_add(s, a) == hash::fx_add(t, a) ==> s == t,
{
    law_absorbing_is_reversible(s, a);
    law_absorbing_is_reversible(t, a);
    law_absorbing_is_reversible(s, b);
    if hash::fx_add(s, a) == hash::fx_add(s, b) {
        let r = hash::fx_add(s, a).wrapping_mul(0x2040_003d_7809_70bd);
        assert(a == b) by (bit_vector)
            requires
                ((r ^ a) >> 5) | ((r ^ a) << 59) == s,
                ((r ^ b) >> 5) | ((r ^ b) << 59) == s,
        ;
    }
}

/// Folding the high bits into the low ones is undone by folding twice more.
proof fn lemma_unfold(x: u64, shift: u64)
    requires
        22 <= shift < 32,
    ensures
        ({
            let y = hash::fold_high(x, shift);
            y ^ (y >> shift) ^ (y >> (2 * shift) as u64) == x
        }),
{
    let twice = (2 * shift) as u64;
    assert(({
        let y = x ^ (x >> shift);
        y ^ (y >> shift) ^ (y >> twice)
    }) == x) by (bit_vector)
        requires
            22 <= shift < 32,
            twice == 2 * shift,
    ;
}

/// Finalizing can be undone: each shift is folded back out and each
/// multiplication undone by its inverse.
pub proof fn law_finalizing_is_reversible(x: u64)
    ensures
        ({
            let y = hash::splitmix(x);
            let b = (y ^ (y >> 31) ^ (y >> 62)).wrapping_mul(0x3196_42b2_d24d_8ec3);
            let a = (b ^ (b >> 27) ^ (b >> 54)).wrapping_mul(0x96de_1b17_3f11_9089);
            a ^ (a >> 30) ^ (a >> 60) == x
        }),
{
    let x1 = hash::fold_high(x, 30);
    let a = x1.wrapping_mul(0xbf58_476d_1ce4_e5b9);
    let a1 = hash::fold_high(a, 27);
    let b = a1.wrapping_mul(0x94d0_49bb_1331_11eb);
    lemma_unfold(b, 31);
    lemma_unmultiply(
        a1,
        0x94d0_49bb_1331_11eb,
        0x3196_42b2_d24d_8ec3,
        0x1cd3_36ed_a85f_1453,
    );
    lemma_unfold(a, 27);
    lemma_unmultiply(
        x1,
        0xbf58_476d_1ce4_e5b9,
        0x96de_1b17_3f11_9089,
        0x70c3_bca7_8f27_f46c,
    );
    lemma_unfold(x, 30);
}

/// Different states have different finalized forms.
pub proof fn law_finalizing_tells_states_apart(s: u64, t: u64)
    ensures
        hash::splitmix(s) == hash::splitmix(t) ==> s == t,
{
    law_finalizing_is_reversible(s);
    law_finalizing_is_reversible(t);
}

/// The stream of pseudo-random numbers can be run backwards: each number
/// determines the one before it.
pub proof fn law_xorshift_is_reversible(x: u64)
    ensures
        ({
            let y = hash::xorshift_spec(x);
            let b = y ^ (y << 17) ^ (y << 34) ^ (y << 51);
            let a0 = b ^ (b >> 7) ^ (b >> 14) ^ (b >> 21) ^ (b >> 28);
            let a = a0 ^ (b >> 35) ^ (b >> 42) ^ (b >> 49) ^ (b >> 56) ^ (b >> 63);
            a ^ (a << 13) ^ (a << 26) ^ (a << 39) ^ (a << 52) == x
        }),
{
    let a = x ^ (x << 13);
    let b = a ^ (a >> 7);
    let y = b ^ (b << 17);
    assert(b == y ^ (y << 17) ^ (y << 34) ^ (y << 51)) by (bit_vector)
        requires
            y == b ^ (b << 17),
    ;
    assert(a == b ^ (b >> 7) ^ (b >> 14) ^ (b >> 21) ^ (b >> 28) ^ (b >> 35) ^ (b >> 42) ^ (b
        >> 49) ^ (b >> 56) ^ (b >> 63)) by (bit_vector)
        requires
            b == a ^ (a >> 7),
    ;
    assert(x == a ^ (a << 13) ^ (a << 26) ^ (a << 39) ^ (a << 52)) by (bit_vector)
        requires
            a == x ^ (x << 13),
    ;
}

proof fn lemma_word_byte(bytes: Seq<u8>, word: u64, i: u64)
    requires
        bytes.len() <= 8,
        word == hash::le_value(bytes),
        i < 8,
    ensures
        (word >> (8 * i) as u64) & 0xff == (if i < bytes.len() {
            bytes[i as int]
        } else {
            0u8
        }),
    decreases i,
{
    assert(word & 0xff == word % 256 && word >> 8 == word / 256 && word >> 0 == word)
        by (bit_vector);
    if i > 0 {
        let rest = if bytes.len() == 0 {
            bytes
        } else {
            bytes.drop_first()
        };
        let shift = (8 * i) as u64;
        let less = (8 * (i - 1)) as u64;
        assert(word >> shift == (word >> 8) >> less) by (bit_vector)
            requires
                shift == less + 8,
                shift < 64,
        ;
        lemma_word_byte(rest, word >> 8, (i - 1) as u64);
    }
}

/// Absorbing no bytes changes nothing, and absorbing one to eight bytes
/// absorbs the one word whose bytes from the lowest on are these, with zeros
/// above.
pub proof fn law_short_write_absorbs_one_word(state: u64, bytes: Seq<u8>)
    requires
        bytes.len() <= 8,
    ensures
        bytes.len() == 0 ==> hash::fx_write(state, bytes) == state,
        bytes.len() > 0 ==> exists|word: u64|
            hash::fx_write(state, bytes) == #[trigger] hash::fx_add(state, word) && (forall|i: u64|
                i < 8 ==> (#[trigger] (word >> (8 * i) as u64)) & 0xff == (if i < bytes.len() {
                    bytes[i as int]
                } else {
                    0u8
                })),
{
    if bytes.len() > 0 {
        hash::lemma_le_value_bound(bytes);
        let word = hash::le_value(bytes) as u64;
        assert(bytes.take(bytes.len() as int) =~= bytes);
        assert(bytes.skip(bytes.len() as int).len() == 0);
        assert(hash::fx_write(hash::fx_add(state, word), bytes.skip(bytes.len() as int))
            == hash::fx_add(state, word));
        assert(hash::fx_write(state, bytes) == hash::fx_add(state, word));
        assert forall|i: u64| i < 8 implies (#[trigger] (word >> (8 * i) as u64)) & 0xff == (if i
            < bytes.len() {
            bytes[i as int]
        } else {
            0u8
        }) by {
            lemma_word_byte(bytes, word, i);
        }
    }
}

/// Bytes may be absorbed in parts, cut anywhere between two words.
pub proof fn law_writing_in_parts(state: u64, a: Seq<u8>, b: Seq<u8>)
    requires
        a.len() % 8 == 0,
    ensures
        hash::fx_write(state, a + b) == hash::fx_write(hash::fx_write(state, a), b),
    decreases a.len(),
{
    if a.len() == 0 {
        assert(a + b =~= b);
    } else {
        let word = hash::le_value(a.take(8)) as u64;
        assert((a + b).take(8) =~= a.take(8));
        assert((a + b).skip(8) =~= a.skip(8) + b);
        law_writing_in_parts(hash::fx_add(state, word), a.skip(8), b);
    }
}

/// The same bytes take different states to different states.
pub proof fn law_writing_tells_states_apart(s: u64, t: u64, bytes: Seq<u8>)
    ensures
        hash::fx_write(s, bytes) == hash::fx_write(t, bytes) ==> s == t,
    decreases bytes.len(),
{
    if bytes.len() > 0 {
        let n = hash::word_len(bytes.len());
        let word = hash::le_value(bytes.take(n)) as u64;
        law_writing_tells_states_apart(
            hash::fx_add(s, word),
            hash::fx_add(t, word),
            bytes.skip(n),
        );
        law_absorbing_tells_words_apart(s, t, word, word);
    }
}

proof fn lemma_words_differ(state: u64, a: Seq<u8>, b: Seq<u8>)
    requires
        a.len() == b.len(),
        0 < a.len() <= 8,
        hash::fx_write(state, a) == hash::fx_write(state, b),
    ensures
        a == b,
{
    law_short_write_absorbs_one_word(state, a);
    law_short_write_absorbs_one_word(state, b);
    let v = choose|word: u64|
        hash::fx_write(state, a) == #[trigger] hash::fx_add(state, word) && (forall|i: u64|
            i < 8 ==> (#[trigger] (word >> (8 * i) as u64)) & 0xff == (if i < a.len() {
                a[i as int]
            } else {
                0u8
            }));
    let w = choose|word: u64|
        hash::fx_write(state, b) == #[trigger] hash::fx_add(state, word) && (forall|i: u64|
            i < 8 ==> (#[trigger] (word >> (8 * i) as u64)) & 0xff == (if i < b.len() {
                b[i as int]
            } else {
                0u8
            }));
    law_absorbing_tells_words_apart(state, state, v, w);
    assert forall|i: int| 0 <= i < a.len() implies a[i] == b[i] by {
        let j = i as u64;
        assert((v >> (8 * j) as u64) & 0xff == a[i]);
        assert((w >> (8 * j) as u64) & 0xff == b[i]);
    }
    assert(a =~= b);
}

/// Every byte counts: byte strings of one length that differ, and do so within
/// one word only, take a hasher from one state to different states.
pub proof fn law_every_byte_counts(state: u64, a: Seq<u8>, b: Seq<u8>, w: int)
    requires
        a.len() == b.len(),
        0 <= w,
        forall|j: int| 0 <= j < a.len() && j / 8 != w ==> a[j] == b[j],
        a != b,
    ensures
        hash::fx_write(state, a) != hash::fx_write(state, b),
{
    if 8 * w >= a.len() {
        assert(a =~= b);
    } else {
        let lo = 8 * w;
        let hi = if lo + 8 < a.len() {
            lo + 8
        } else {
            a.len() as int
        };
        let head = a.take(lo);
        let tail = a.skip(hi);
        let ca = a.subrange(lo, hi);
        let cb = b.subrange(lo, hi);
        assert(head =~= b.take(lo));
        assert(tail =~= b.skip(hi));
        assert(a =~= head + (ca + tail));
        assert(b =~= head + (cb + tail));
        let mid = hash::fx_write(state, head);
        law_writing_in_parts(state, head, ca + tail);
        law_writing_in_parts(state, head, cb + tail);
        if tail.len() > 0 {
            law_writing_in_parts(mid, ca, tail);
            law_writing_in_parts(mid, cb, tail);
        } else {
            assert(ca + tail =~= ca);
            assert(cb + tail =~= cb);
        }
        if hash::fx_write(state, a) == hash::fx_write(state, b) {
            if tail.len() > 0 {
                law_writing_tells_states_apart(
                    hash::fx_write(mid, ca),
                    hash::fx_write(mid, cb),
                    tail,
                );
            }
            lemma_words_differ(mid, ca, cb);
        }
    }
}

/// A word as a key can be taken back out: what it did to the state is undone
/// by the word itself.
pub proof fn law_word_key_is_reversible(state: u64, x: u64)
    ensures
        ({
            let mixed = x.fed(state).wrapping_mul(0x2040_003d_7809_70bd) ^ x;
            (mixed >> 5) | (mixed << 59) == state
        }),
{
    law_absorbing_is_reversible(state, x);
}

/// A number is the same key in every unsigned type that can hold it; a truth
/// value is 0 or 1, and a character its code point.
pub proof fn law_unsigned_keys_agree(state: u64, x: u64, c: char)
    ensures
        x <= u8::MAX ==> (x as u8).fed(state) == x.fed(state),
        x <= u32::MAX ==> (x as u32).fed(state) == x.fed(state),
        x <= usize::MAX ==> (x as usize).fed(state) == x.fed(state),
        true.fed(state) == 1u64.fed(state),
        false.fed(state) == 0u64.fed(state),
        c.fed(state) == (c as u64).fed(state),
{
}

/// A signed number that is not negative is the same key as the unsigned one,
/// and a negative one is the key that lies as many below the end of the
/// unsigned range.
pub proof fn law_signed_keys_agree(state: u64, a: i8, b: i32, c: i64, d: isize)
    ensures
        a.fed(state) == ((if a < 0 {
            0x100 + a
        } else {
            a as int
        }) as u64).fed(state),
        b.fed(state) == ((if b < 0 {
            0x1_0000_0000 + b
        } else {
            b as int
        }) as u64).fed(state),
        c.fed(state) == ((if c < 0 {
            0x1_0000_0000_0000_0000 + c
        } else {
            c as int
        }) as u64).fed(state),
        d.fed(state) == ((if d < 0 {
            usize::MAX + 1 + d
        } else {
            d as int
        }) as u64).fed(state),
{
    assert((a < 0 ==> a as u8 == 0x100 + a) && (b < 0 ==> b as u32 == 0x1_0000_0000 + b) && (c < 0
        ==> c as u64 == 0x1_0000_0000_0000_0000 + c)) by (bit_vector);
    assert(d < 0 ==> d as usize == (if usize::BITS == 32 {
        0x1_0000_0000int
    } else {
        0x1_0000_0000_0000_0000
    }) + d) by (bit_vector);
}

/// Different numbers of one type are told apart.
pub proof fn law_keys_tell_numbers_apart(state: u64, a: u64, b: u64, c: i64, d: i64)
    ensures
        a.fed(state) == b.fed(state) ==> a == b,
        c.fed(state) == d.fed(state) ==> c == d,
{
    law_absorbing_tells_words_apart(state, state, a, b);
    law_absorbing_tells_words_apart(state, state, c as u64, d as u64);
    law_signed_keys_agree(state, 0, 0, c, 0);
    law_signed_keys_agree(state, 0, 0, d, 0);
    assert(c as u64 == d as u64 ==> c == d) by (bit_vector);
}

/// A byte string is fed as its length and then its bytes, whether it is owned
/// or borrowed; a text as its UTF-8 bytes and then the byte 255, whether it is
/// owned or borrowed.
pub proof fn law_string_keys(state: u64, slice: &[u8], bytes: Vec<u8>, text: &str, owned: String)
    ensures
        slice.fed(state) == hash::fx_write((slice@.len() as u64).fed(state), slice@),
        slice@ == bytes@ ==> bytes.fed(state) == slice.fed(state),
        text.fed(state) == 255u64.fed(
            hash::fx_write(state, vstd::utf8::encode_utf8(text@)),
        ),
        text@ == owned@ ==> owned.fed(state) == text.fed(state),
{
}

/// A pair is fed as its halves in turn, an option as 0, or as 1 and then what
/// it holds, and a reference or a box as what it leads to.
pub proof fn law_compound_keys<A: HashKey, B: HashKey>(state: u64, a: A, b: B)
    ensures
        (a, b).fed(state) == b.fed(a.fed(state)),
        Some(a).fed(state) == a.fed(1u64.fed(state)),
        None::<A>.fed(state) == 0u64.fed(state),
        (&a).fed(state) == a.fed(state),
        Box::new(a).fed(state) == a.fed(state),
{
}

/// The hash of a key is the finalized form of the state in which the key
/// leaves a hasher that started at 0, so two keys have the same hash exactly
/// if they leave the same state.
pub proof fn law_hash_tells_states_apart<A: HashKey + ?Sized, B: HashKey + ?Sized>(
    a: &A,
    b: &B,
)
    ensures
        ({
            let y = hash::hash_of_spec(a);
            let s = (y ^ (y >> 31) ^ (y >> 62)).wrapping_mul(0x3196_42b2_d24d_8ec3);
            let t = (s ^ (s >> 27) ^ (s >> 54)).wrapping_mul(0x96de_1b17_3f11_9089);
            t ^ (t >> 30) ^ (t >> 60) == a.fed(0)
        }),
        hash::hash_of_spec(a) == hash::hash_of_spec(b) <==> a.fed(0) == b.fed(0),
{
    law_finalizing_is_reversible(a.fed(0));
    law_finalizing_tells_states_apart(a.fed(0), b.fed(0));
}

/// The 8-bit fingerprint of a hash is its fifth byte, or 1 where that is 0:
/// neither the low word nor the bits above that byte make a difference.
pub proof fn law_fingerprint_is_the_fifth_byte(high: u64, byte: u64, low: u64, hash: u64)
    requires
        byte < 0x100,
        low < 0x1_0000_0000,
        hash == high * 0x100_0000_0000 + byte * 0x1_0000_0000 + low,
    ensures
        hash::fingerprint_spec(hash) == (if byte == 0 {
            1
        } else {
            byte
        }),
{
    assert(hash / 0x1_0000_0000 == high * 0x100 + byte);
}

/// The 16-bit fingerprint of a hash is its fifth and sixth byte, or 1 where
/// both are 0: neither the low word nor the bits above make a difference.
pub proof fn law_wide_fingerprint_is_the_third_half_word(
    high: u64,
    pair: u64,
    low: u64,
    hash: u64,
)
    requires
        pair < 0x1_0000,
        low < 0x1_0000_0000,
        hash == high * 0x1_0000_0000_0000 + pair * 0x1_0000_0000 + low,
    ensures
        hash::fingerprint_u16_spec(hash) == (if pair == 0 {
            1
        } else {
            pair
        }),
{
    assert(hash / 0x1_0000_0000 == high * 0x1_0000 + pair);
}

/// The two candidate buckets of a fingerprint, among a power of two of
/// buckets, differ by the exclusive or with a multiple of the fingerprint that
/// is reduced by the number of buckets.
pub proof fn law_alternate_lies_a_multiple_away(index: usize, fp: usize, n: usize)
    requires
        pow2::is_pow2(n as int),
    ensures
        index ^ hash::alt_index_spec(index, fp, (n - 1) as usize) == (fp * 0x5bd1_e995) % (
        n as int),
{
    let product = fp.wrapping_mul(0x5bd1_e995);
    let mask = (n - 1) as usize;
    assert(index ^ (index ^ (product & mask)) == product & mask) by (bit_vector);
    pow2::lemma_mask_is_remainder(product as u64, n);
    pow2::lemma_wrapped_remainder(fp * 0x5bd1_e995, n as int, usize::MAX + 1);
}

} // verus!
