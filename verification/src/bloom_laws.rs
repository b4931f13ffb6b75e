//! Where the probes of a Bloom filter fall, in plain arithmetic, and what a
//! hit therefore tells.

use crate::bloom;
use crate::bloom::BitTable;
use crate::laws;
use crate::pow2;
use vstd::arithmetic::div_mod;
use vstd::prelude::*;

verus! {

/// Making the high word of a hash odd is the same as halving, doubling and
/// adding one.
proof fn lemma_step(h: u64)
    ensures
        bloom::step(h) == (h >> 32) | 1,
{
    assert(((h >> 32) | 1) == 2 * (h / 0x2_0000_0000) + 1) by (bit_vector);
}

/// The first probe of a hash among `m` bits is its remainder by `m`: the one
/// position below `m` that the hash lies a multiple of `m` above.
pub proof fn law_first_probe_is_the_remainder(h: u64, m: int, p: int, q: int)
    requires
        pow2::is_pow2(m),
    ensures
        0 <= bloom::probe(h, 0, m) < m,
        h == (h as int / m) * m + bloom::probe(h, 0, m),
        0 <= p < m && h == q * m + p ==> p == bloom::probe(h, 0, m),
{
    pow2::lemma_double_is_pow2(m);
    div_mod::lemma_fundamental_div_mod(h as int, m);
    let d = h as int / m;
    assert(d * m == m * d) by (nonlinear_arith);
    if 0 <= p < m && h == q * m + p {
        div_mod::lemma_fundamental_div_mod_converse(h as int, m, q, p);
    }
}

/// Two hashes have the same first probe exactly if they are congruent, and
/// every bit is the first probe of some hash.
pub proof fn law_first_probes_tell_residues_apart(a: u64, b: u64, p: int, m: int)
    requires
        pow2::is_pow2(m),
        m <= 0x1_0000_0000_0000_0000,
        0 <= p < m,
    ensures
        bloom::probe(a, 0, m) == bloom::probe(b, 0, m) <==> (a - b) % m == 0,
        bloom::probe(p as u64, 0, m) == p,
{
    div_mod::lemma_mod_equivalence(a as int, b as int, m);
    div_mod::lemma_small_mod(p as nat, m as nat);
}

/// Each next probe lies further on by the high word of the hash, made odd, and
/// wraps round at the end of the bits.
pub proof fn law_next_probe_adds_the_odd_step(h: u64, i: int, m: int)
    requires
        pow2::is_pow2(m),
    ensures
        bloom::probe(h, i + 1, m) == (bloom::probe(h, i, m) + ((h >> 32) | 1)) % m,
        ((h >> 32) | 1) % 2 == 1,
{
    pow2::lemma_double_is_pow2(m);
    lemma_step(h);
    let s = bloom::step(h);
    assert(h + (i + 1) * s == (h + i * s) + s) by (nonlinear_arith);
    div_mod::lemma_add_mod_noop(h + i * s, s, m);
    div_mod::lemma_add_mod_noop(bloom::probe(h, i, m), s, m);
    div_mod::lemma_mod_twice(h + i * s, m);
}

/// A fresh table has the bits and the probes that it was asked for, no bit set
/// and nothing inserted.
pub proof fn law_fresh_bits_are_clear(m: nat, k: int, j: int)
    ensures
        BitTable::empty(m, k).bits.len() == m,
        BitTable::empty(m, k).k == k,
        BitTable::empty(m, k).len == 0,
        0 <= j < m ==> !BitTable::empty(m, k).bits[j],
{
}

/// An insertion sets the bits at the hash plus the first `k` multiples of its
/// high word made odd, and no others; it is counted, and nothing else changes.
pub proof fn law_insertion_sets_the_probed_bits(t: BitTable, h: u64, j: int)
    requires
        0 <= j < t.bits.len(),
    ensures
        t.insert(h).bits.len() == t.bits.len(),
        t.insert(h).k == t.k,
        t.insert(h).len == t.len + 1,
        t.insert(h).bits[j] <==> t.bits[j] || exists|i: int|
            0 <= i < t.k && (h + #[trigger] (i * ((h >> 32) | 1) as int)) % (t.bits.len() as int)
                == j,
{
    lemma_step(h);
    let m = t.bits.len() as int;
    let s = ((h >> 32) | 1) as int;
    if bloom::probed(h, t.k, m, j) {
        let i = choose|i: int| 0 <= i < t.k && #[trigger] bloom::probe(h, i, m) == j;
        assert((h + i * s) % m == j);
    }
    if exists|i: int| 0 <= i < t.k && (h + #[trigger] (i * s)) % m == j {
        let i = choose|i: int| 0 <= i < t.k && (h + #[trigger] (i * s)) % m == j;
        assert(bloom::probe(h, i, m) == j);
    }
}

/// An item is found exactly if the bits at its hash plus the first `k`
/// multiples of its high word made odd are all set.
pub proof fn law_lookup_reads_the_probed_bits(t: BitTable, h: u64)
    ensures
        t.holds(h) <==> forall|i: int|
            0 <= i < t.k ==> t.bits[(h + #[trigger] (i * ((h >> 32) | 1) as int)) % (
            t.bits.len() as int)],
{
    lemma_step(h);
    let m = t.bits.len() as int;
    let s = ((h >> 32) | 1) as int;
    if t.holds(h) {
        assert forall|i: int| 0 <= i < t.k implies t.bits[(h + #[trigger] (i * s)) % m] by {
            assert(t.bits[bloom::probe(h, i, m)]);
        }
    } else {
        let i = choose|i: int| 0 <= i < t.k && !t.bits[#[trigger] bloom::probe(h, i, m)];
        assert(!t.bits[(h + i * s) % m]);
    }
}

/// A hit has a reason: after the single insertion of `h`, an item whose hash,
/// reduced by the number of bits, is none of the probe positions of `h` is not
/// found.
pub proof fn law_single_insertion_misses_others(m: nat, k: int, h: u64, other: u64)
    requires
        pow2::is_pow2(m as int),
        k > 0,
        forall|i: int|
            0 <= i < k ==> (h + #[trigger] (i * ((h >> 32) | 1) as int)) % (m as int)
                != other as int % m as int,
    ensures
        !BitTable::empty(m, k).insert(h).holds(other),
{
    pow2::lemma_double_is_pow2(m as int);
    let t = BitTable::empty(m, k);
    let j = other as int % m as int;
    law_insertion_sets_the_probed_bits(t, h, j);
    law_lookup_reads_the_probed_bits(t.insert(h), other);
    let s = ((other >> 32) | 1) as int;
    assert(0 * s == 0);
    assert(!t.insert(h).bits[(other + 0 * s) % (m as int)]);
}

proof fn lemma_set_bits(m: nat, k: int, hashes: Seq<u64>, j: int)
    requires
        0 <= j < m,
    ensures
        laws::bloom_after(BitTable::empty(m, k), hashes).bits.len() == m,
        laws::bloom_after(BitTable::empty(m, k), hashes).k == k,
        laws::bloom_after(BitTable::empty(m, k), hashes).bits[j] <==> exists|n: int, i: int|
            0 <= n < hashes.len() && 0 <= i < k && #[trigger] bloom::probe(hashes[n], i, m as int)
                == j,
    decreases hashes.len(),
{
    if hashes.len() > 0 {
        let rest = hashes.drop_last();
        lemma_set_bits(m, k, rest, j);
        let before = laws::bloom_after(BitTable::empty(m, k), rest);
        let after = laws::bloom_after(BitTable::empty(m, k), hashes);
        assert(after == before.insert(hashes.last()));
        if after.bits[j] {
            if before.bits[j] {
                let (n, i) = choose|n: int, i: int|
                    0 <= n < rest.len() && 0 <= i < k && #[trigger] bloom::probe(
                        rest[n],
                        i,
                        m as int,
                    ) == j;
                assert(bloom::probe(hashes[n], i, m as int) == j);
            } else {
                let i = choose|i: int|
                    0 <= i < k && #[trigger] bloom::probe(hashes.last(), i, m as int) == j;
                assert(bloom::probe(hashes[hashes.len() - 1], i, m as int) == j);
            }
        }
        if exists|n: int, i: int|
            0 <= n < hashes.len() && 0 <= i < k && #[trigger] bloom::probe(hashes[n], i, m as int)
                == j {
            let (n, i) = choose|n: int, i: int|
                0 <= n < hashes.len() && 0 <= i < k && #[trigger] bloom::probe(
                    hashes[n],
                    i,
                    m as int,
                ) == j;
            if n < rest.len() {
                assert(bloom::probe(rest[n], i, m as int) == j);
            } else {
                assert(bloom::probed(hashes.last(), k, m as int, j));
            }
        }
    }
}

/// A hit has its reasons, whatever was inserted: an item is found exactly if
/// every one of its probes is also a probe of an item that was inserted.
pub proof fn law_bloom_hit_shares_every_probe(m: nat, k: int, hashes: Seq<u64>, other: u64)
    requires
        pow2::is_pow2(m as int),
    ensures
        laws::bloom_after(BitTable::empty(m, k), hashes).holds(other) <==> forall|p: int|
            0 <= p < k ==> exists|n: int, i: int|
                0 <= n < hashes.len() && 0 <= i < k && #[trigger] bloom::probe(
                    hashes[n],
                    i,
                    m as int,
                ) == #[trigger] bloom::probe(other, p, m as int),
{
    pow2::lemma_double_is_pow2(m as int);
    let t = laws::bloom_after(BitTable::empty(m, k), hashes);
    lemma_set_bits(m, k, hashes, 0);
    assert forall|p: int| 0 <= p < k implies (t.bits[#[trigger] bloom::probe(other, p, m as int)]
        <==> exists|n: int, i: int|
        0 <= n < hashes.len() && 0 <= i < k && #[trigger] bloom::probe(hashes[n], i, m as int)
            == bloom::probe(other, p, m as int)) by {
        lemma_set_bits(m, k, hashes, bloom::probe(other, p, m as int));
    }
}

} // verus!
