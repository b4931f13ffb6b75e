//! Classic Bloom filter.
//!
//! Kirsch-Mitzenmacher double hashing: k probe positions are derived from one
//! 64-bit hash as `h1 + i*h2`, which costs one real hash per operation like
//! the cuckoo filters. Power-of-two bit count keeps indexing to a mask.
//!
//! Contrast with the cuckoo variants: no deletion support, and a lookup
//! touches up to k scattered cache lines (a hit always touches all k, a miss
//! exits on the first zero bit), while a cuckoo lookup touches at most 2.

use crate::hash;
use crate::hash::hash_of;
use crate::hash::HashKey;
use crate::pow2;
use vstd::arithmetic::power2;
use vstd::prelude::*;

verus! {

/// The distance between two successive probes of an item with hash `hash`:
/// its high word, made odd.
pub open spec fn step(hash: u64) -> int {
    2 * (hash as int / 0x2_0000_0000) + 1
}

/// The position of probe `i` of an item with hash `hash` among `m` bits.
pub open spec fn probe(hash: u64, i: int, m: int) -> int {
    (hash + i * step(hash)) % m
}

/// Whether `j` is one of the first `k` probe positions of an item with hash
/// `hash` among `m` bits.
pub open spec fn probed(hash: u64, k: int, m: int, j: int) -> bool {
    exists|i: int| 0 <= i < k && #[trigger] probe(hash, i, m) == j
}

/// The state of a Bloom filter: its bits, the number of probes for each item,
/// and the number of insertions.
#[verifier::ext_equal]
pub struct BitTable {
    pub bits: Seq<bool>,
    pub k: int,
    pub len: int,
}

impl BitTable {
    /// A table of `m` cleared bits.
    pub open spec fn empty(m: nat, k: int) -> BitTable {
        BitTable { bits: Seq::new(m, |j: int| false), k, len: 0 }
    }

    /// The number of bits is a power of two that fills whole words.
    pub open spec fn wf(self) -> bool {
        &&& pow2::is_pow2(self.bits.len() as int)
        &&& 64 <= self.bits.len()
        &&& 0 <= self.k
    }

    /// The table with the bits set that the first `n` probes hit.
    pub open spec fn mark(self, hash: u64, n: int) -> Seq<bool> {
        Seq::new(
            self.bits.len(),
            |j: int| self.bits[j] || probed(hash, n, self.bits.len() as int, j),
        )
    }

    /// The insertion of an item with hash `hash`: every bit that one of its
    /// probes hits is set, and no other changes.
    pub open spec fn insert(self, hash: u64) -> BitTable {
        BitTable { bits: self.mark(hash, self.k), k: self.k, len: self.len + 1 }
    }

    /// Whether all bits that the probes of an item with hash `hash` hit are
    /// set.
    pub open spec fn holds(self, hash: u64) -> bool {
        forall|i: int|
            0 <= i < self.k ==> self.bits[#[trigger] probe(hash, i, self.bits.len() as int)]
    }
}

/// Bit `j` of a sequence of words.
spec fn word_bit(words: Seq<u64>, j: int) -> bool {
    (words[j / 64] >> (j % 64) as u64) & 1 == 1
}

/// A Bloom filter.
pub struct BloomFilter {
    words: Vec<u64>,
    bit_mask: usize,
    k: u32,
    len: usize,
}

impl View for BloomFilter {
    type V = BitTable;

    closed spec fn view(&self) -> BitTable {
        BitTable {
            bits: Seq::new(
                (64 * self.words@.len()) as nat,
                |j: int| word_bit(self.words@, j),
            ),
            k: self.k as int,
            len: self.len as int,
        }
    }
}

/// A power of two of at least 64 is a multiple of 64.
proof fn lemma_whole_words(m: int)
    requires
        pow2::is_pow2(m),
        m >= 64,
    ensures
        m % 64 == 0,
{
    let k = choose|k: nat| m == #[trigger] power2::pow2(k);
    power2::lemma2_to64();
    if k < 6 {
        power2::lemma_pow2_strictly_increases(k, 6);
    } else {
        power2::lemma_pow2_adds(6, (k - 6) as nat);
        assert(m == 64 * power2::pow2((k - 6) as nat));
    }
}

/// With a power of two up to `2^64` for modulus, reducing by `2^64` first
/// makes no difference.
proof fn lemma_wrapped_remainder(x: int, m: int)
    requires
        pow2::is_pow2(m),
        m <= 0x1_0000_0000_0000_0000,
    ensures
        (x % 0x1_0000_0000_0000_0000) % m == x % m,
{
    pow2::lemma_wrapped_remainder(x, m, 0x1_0000_0000_0000_0000);
}

impl BloomFilter {
    /// The filter's invariant.
    pub open spec fn wf(&self) -> bool {
        &&& self@.wf()
        &&& self.packed()
    }

    /// The bits fill whole words, and the mask covers them.
    pub closed spec fn packed(&self) -> bool {
        &&& self.bit_mask == 64 * self.words@.len() - 1
        &&& 64 * self.words@.len() <= isize::MAX + 1
    }

    /// Creates a filter with `bits` capacity (rounded up to a power of two)
    /// and `k` hash probes per item.
    pub fn new(bits: usize, k: u32) -> (filter: Self)
        requires
            bits <= isize::MAX + 1,
        ensures
            filter.wf(),
            filter@ == BitTable::empty(filter@.bits.len(), k as int),
            bits <= filter@.bits.len(),
            filter@.bits.len() == 64 || filter@.bits.len() < 2 * bits,
    {
        let power: usize = pow2::next_power_of_two(bits);
        let m: usize = if power < 64 {
            64
        } else {
            power
        };
        proof {
            power2::lemma2_to64();
            assert(64 == power2::pow2(6));
            lemma_whole_words(m as int);
        }
        let filter = Self { words: vec![0u64; m / 64], bit_mask: m - 1, k, len: 0 };
        proof {
            assert forall|j: int| 0 <= j < m implies !word_bit(filter.words@, j) by {
                let s = (j % 64) as u64;
                assert((0u64 >> s) & 1 == 0) by (bit_vector);
            }
            assert(filter@ =~= BitTable::empty(m as nat, k as int));
        }
        filter
    }

    /// The first probe of an item with hash `hash`, and the step to the next.
    fn hashes(hash: u64) -> (at: (u64, u64))
        ensures
            at.0 == hash,
            at.1 == step(hash),
    {
        // The step is odd, so successive probes cycle through the bits.
        assert(((hash >> 32) | 1) == 2 * (hash / 0x2_0000_0000) + 1) by (bit_vector);
        (hash, (hash >> 32) | 1)
    }
}

/// The next wrapped probe follows from the one before.
proof fn lemma_next_probe(hash: u64, i: int, bit: u64)
    requires
        0 <= i,
        bit == (hash + i * step(hash)) % 0x1_0000_0000_0000_0000,
    ensures
        (bit + step(hash)) % 0x1_0000_0000_0000_0000 == (hash + (i + 1) * step(hash))
            % 0x1_0000_0000_0000_0000,
{
    let x = hash + i * step(hash);
    assert(hash + (i + 1) * step(hash) == x + step(hash)) by (nonlinear_arith)
        requires
            x == hash + i * step(hash),
    ;
    vstd::arithmetic::div_mod::lemma_add_mod_noop(
        x,
        step(hash),
        0x1_0000_0000_0000_0000,
    );
    vstd::arithmetic::div_mod::lemma_add_mod_noop(
        bit as int,
        step(hash),
        0x1_0000_0000_0000_0000,
    );
}

impl BloomFilter {
    /// The position that the wrapped probe `bit` hits.
    fn position(&self, bit: u64) -> (idx: usize)
        requires
            self.wf(),
        ensures
            idx == bit as int % self@.bits.len() as int,
            idx < self@.bits.len(),
    {
        proof {
            pow2::lemma_mask_is_remainder(bit, (self.bit_mask + 1) as usize);
        }
        (bit as usize) & self.bit_mask
    }

    /// Sets one bit.
    fn set_bit(&mut self, idx: usize)
        requires
            old(self).wf(),
            idx < old(self)@.bits.len(),
        ensures
            final(self).wf(),
            final(self)@.bits == old(self)@.bits.update(idx as int, true),
            final(self)@.k == old(self)@.k,
            final(self)@.len == old(self)@.len,
    {
        assert(idx >> 6 == idx / 64) by (bit_vector);
        assert(idx & 63 == idx % 64) by (bit_vector);
        let word: u64 = self.words[idx >> 6];
        self.words[idx >> 6] = word | (1u64 << (idx & 63));
        proof {
            let now = self.words@;
            let was = old(self).words@;
            assert forall|j: int| 0 <= j < 64 * was.len() implies word_bit(now, j) == (word_bit(
                was,
                j,
            ) || j == idx) by {
                if j / 64 == idx / 64 {
                    let b = (idx % 64) as u64;
                    let s = (j % 64) as u64;
                    assert(((word | (1u64 << b)) >> s) & 1 == 1 <==> ((word >> s) & 1 == 1 || s
                        == b)) by (bit_vector)
                        requires
                            b < 64,
                            s < 64,
                    ;
                    assert(1u64 << (idx & 63) == 1u64 << b);
                }
            }
            assert(self@.bits =~= old(self)@.bits.update(idx as int, true));
        }
    }

    /// Reads one bit.
    fn bit(&self, idx: usize) -> (set: bool)
        requires
            self.wf(),
            idx < self@.bits.len(),
        ensures
            set == self@.bits[idx as int],
    {
        assert(idx >> 6 == idx / 64) by (bit_vector);
        assert(idx & 63 == idx % 64) by (bit_vector);
        let word: u64 = self.words[idx >> 6];
        proof {
            let b = (idx % 64) as u64;
            assert((word >> b) & 1 == 1 <==> word & (1u64 << b) != 0) by (bit_vector)
                requires
                    b < 64,
            ;
            assert(1u64 << (idx & 63) == 1u64 << b);
        }
        word & (1u64 << (idx & 63)) != 0
    }

    /// Inserts an item by its hash.
    pub fn insert_hash(&mut self, hash: u64)
        requires
            old(self).wf(),
            old(self)@.len < usize::MAX,
        ensures
            final(self).wf(),
            final(self)@ == old(self)@.insert(hash),
    {
        let (first, step) = Self::hashes(hash);
        let mut bit: u64 = first;
        let mut i: u32 = 0;
        let ghost m = self@.bits.len() as int;
        assert(self@.bits =~= self@.mark(hash, 0));
        while i < self.k
            invariant
                i <= self.k,
                self.wf(),
                m == self@.bits.len(),
                m == old(self)@.bits.len(),
                self@.k == old(self)@.k,
                self@.len == old(self)@.len,
                step == self::step(hash),
                bit == (hash + i * step) % 0x1_0000_0000_0000_0000,
                self@.bits == old(self)@.mark(hash, i as int),
            decreases self.k - i,
        {
            let idx: usize = self.position(bit);
            let ghost before = self@.bits;
            self.set_bit(idx);
            proof {
                assert(m <= usize::MAX + 1);
                lemma_wrapped_remainder(hash + i * step, m);
                assert(idx == probe(hash, i as int, m));
                assert forall|j: int| 0 <= j < m implies (probed(hash, i + 1, m, j) <==> probed(
                    hash,
                    i as int,
                    m,
                    j,
                ) || j == idx) by {
                    if j == idx {
                        assert(probe(hash, i as int, m) == j);
                    }
                }
                assert(self@.bits =~= old(self)@.mark(hash, i + 1));
                lemma_next_probe(hash, i as int, bit);
            }
            bit = bit.wrapping_add(step);
            i = i + 1;
        }
        self.len = self.len + 1;
        assert(self@ =~= old(self)@.insert(hash));
    }

    /// Inserts an item.
    pub fn insert<K: HashKey + ?Sized>(&mut self, item: &K)
        requires
            old(self).wf(),
            old(self)@.len < usize::MAX,
        ensures
            final(self).wf(),
            final(self)@ == old(self)@.insert(hash::hash_of_spec(item)),
    {
        self.insert_hash(hash_of(item));
    }

    /// Whether an item with hash `hash` may have been inserted.
    pub fn contains_hash(&self, hash: u64) -> (found: bool)
        requires
            self.wf(),
        ensures
            found == self@.holds(hash),
    {
        let (first, step) = Self::hashes(hash);
        let mut bit: u64 = first;
        let mut i: u32 = 0;
        let ghost m = self@.bits.len() as int;
        while i < self.k
            invariant
                i <= self.k,
                self.wf(),
                m == self@.bits.len(),
                step == self::step(hash),
                bit == (hash + i * step) % 0x1_0000_0000_0000_0000,
                forall|n: int| 0 <= n < i ==> self@.bits[#[trigger] probe(hash, n, m)],
            decreases self.k - i,
        {
            let idx: usize = self.position(bit);
            proof {
                lemma_wrapped_remainder(hash + i * step, m);
                assert(idx == probe(hash, i as int, m));
                lemma_next_probe(hash, i as int, bit);
            }
            if !self.bit(idx) {
                return false;
            }
            bit = bit.wrapping_add(step);
            i = i + 1;
        }
        true
    }

    /// Whether `item` may have been inserted.
    pub fn contains<K: HashKey + ?Sized>(&self, item: &K) -> (found: bool)
        requires
            self.wf(),
        ensures
            found == self@.holds(hash::hash_of_spec(item)),
    {
        self.contains_hash(hash_of(item))
    }

    /// The number of insertions.
    pub fn len(&self) -> (n: usize)
        ensures
            n == self@.len,
    {
        self.len
    }

    /// Whether nothing was inserted.
    pub fn is_empty(&self) -> (empty: bool)
        ensures
            empty <==> self@.len == 0,
    {
        self.len == 0
    }

    /// The number of probes per item.
    pub fn k(&self) -> (k: u32)
        ensures
            k == self@.k,
    {
        self.k
    }

    /// The number of bits.
    pub fn bits(&self) -> (n: usize)
        requires
            self.wf(),
        ensures
            n == self@.bits.len(),
    {
        self.bit_mask + 1
    }

    /// Table memory in bytes (bit array only).
    pub fn memory_bytes(&self) -> (n: usize)
        requires
            self.wf(),
        ensures
            8 * n == self@.bits.len(),
    {
        self.words.len() * 8
    }
}

} // verus!
