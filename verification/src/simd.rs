//! Swiss-table-style cuckoo filter: 16 slots per bucket, group probing.
//!
//! Each bucket is a 16-byte group of 8-bit fingerprints, exactly the shape of
//! a Swiss table control group. A probe compares all lanes with the
//! fingerprint and gathers the outcome in a bitmask.
//!
//! Fingerprint 0 is the empty sentinel, so "find a free slot" is the same
//! comparison with 0.
//!
//! Trade-off against the 4-slot baseline at equal memory: 4x fewer, wider
//! buckets mean higher achievable load (~98%) but a higher false-positive rate
//! (~2*16/256 = 12.5% against ~3.1%), since a query now matches against 32
//! candidate fingerprints instead of 8.

pub mod group;
pub mod scalar_group;

use crate::hash;
use crate::hash::alt_index;
use crate::hash::fingerprint;
use crate::hash::hash_of;
use crate::hash::xorshift;
use crate::hash::HashKey;
use crate::pow2;
use crate::table;
use crate::table::Entry;
use crate::table::Table;
use crate::table::Walk;
use crate::table::MAX_KICKS;
use vstd::prelude::*;

verus! {

/// Slots per bucket.
pub const SLOTS: usize = 16;

/// The slots of one bucket.
#[derive(Clone, Copy)]
pub struct Bucket(pub [u8; SLOTS]);

/// A cuckoo filter of 16-slot buckets of 8-bit fingerprints.
pub struct SimdCuckooFilter {
    buckets: Vec<Bucket>,
    bucket_mask: usize,
    len: usize,
    rng: u64,
}

impl View for SimdCuckooFilter {
    type V = Table;

    closed spec fn view(&self) -> Table {
        Table {
            rows: Seq::new(
                self.buckets@.len(),
                |i: int| table::widen(self.buckets@[i].0@),
            ),
            rng: self.rng,
        }
    }
}

impl SimdCuckooFilter {
    /// The table is well formed, the mask selects its buckets, and its memory
    /// fits into one allocation.
    closed spec fn shape(&self) -> bool {
        &&& self@.wf(SLOTS as nat)
        &&& self.bucket_mask == self.buckets@.len() - 1
        &&& self.buckets@.len() * SLOTS <= isize::MAX
    }

    /// The fields fit together, and the counter counts what is stored.
    pub closed spec fn counted(&self) -> bool {
        &&& self.shape()
        &&& self.len == self@.entries().len()
    }

    /// The filter's invariant.
    pub open spec fn wf(&self) -> bool {
        &&& self@.wf(SLOTS as nat)
        &&& self.counted()
    }

    /// The entry that an item with hash `hash` is stored as.
    pub open spec fn entry(&self, hash: u64) -> Entry {
        self@.entry(self@.primary(hash), hash::fingerprint_spec(hash) as u16)
    }

    /// The insertion of an item with hash `hash`.
    pub open spec fn insertion(&self, hash: u64) -> Walk {
        self@.insert(self@.primary(hash), hash::fingerprint_spec(hash) as u16)
    }

    /// Whether one of the candidate buckets of an item with hash `hash` has an
    /// empty slot.
    pub open spec fn has_room(&self, hash: u64) -> bool {
        self@.has_room(self@.primary(hash), hash::fingerprint_spec(hash) as u16)
    }

    /// Whether a candidate bucket of an item with hash `hash` holds its
    /// fingerprint.
    pub open spec fn holds(&self, hash: u64) -> bool {
        self@.holds(self@.primary(hash), hash::fingerprint_spec(hash) as u16)
    }

    /// Which candidate bucket of an item with hash `hash` holds its
    /// fingerprint.
    pub open spec fn depth(&self, hash: u64) -> Option<u8> {
        self@.depth(self@.primary(hash), hash::fingerprint_spec(hash) as u16)
    }

    /// The table without one copy of the fingerprint of an item with hash
    /// `hash`.
    pub open spec fn removal(&self, hash: u64) -> Table {
        self@.remove(self@.primary(hash), hash::fingerprint_spec(hash) as u16)
    }

    /// The first candidate bucket and the fingerprint of an item with hash
    /// `hash`.
    fn index_and_fp(&self, hash: u64) -> (at: (usize, u8))
        requires
            self.shape(),
        ensures
            at.0 == self@.primary(hash),
            at.0 < self@.rows.len(),
            at.1 == hash::fingerprint_spec(hash),
            at.1 != 0,
    {
        proof {
            pow2::lemma_mask_is_remainder(hash, self.buckets.len());
        }
        ((hash as usize) & self.bucket_mask, fingerprint(hash))
    }

    /// The first slot of bucket `index` that holds `fp`.
    fn first_eq(&self, index: usize, fp: u8) -> (slot: Option<usize>)
        requires
            self.shape(),
            index < self@.rows.len(),
        ensures
            slot is Some <==> self@.rows[index as int].contains(fp as u16),
            slot matches Some(s) ==> s < SLOTS && self@.find(index as int, fp as u16) == Some(
                s as int,
            ),
            slot is None ==> self@.find(index as int, fp as u16) is None,
    {
        proof {
            self@.rows[index as int].index_of_first_ensures(fp as u16);
            table::lemma_widen_contains(self.buckets@[index as int].0@, fp);
        }
        let slot: Option<usize> = group::first_eq(&self.buckets[index], fp);
        assert(slot matches Some(s) ==> self@.rows[index as int][s as int] == fp as u16);
        slot
    }

    /// Whether bucket `index` holds `fp`.
    fn any_eq(&self, index: usize, fp: u8) -> (found: bool)
        requires
            self.shape(),
            index < self@.rows.len(),
        ensures
            found <==> self@.rows[index as int].contains(fp as u16),
    {
        proof {
            table::lemma_widen_contains(self.buckets@[index as int].0@, fp);
        }
        group::any_eq(&self.buckets[index], fp)
    }

    /// [`Self::any_eq`] slot by slot.
    fn any_eq_scalar(&self, index: usize, fp: u8) -> (found: bool)
        requires
            self.shape(),
            index < self@.rows.len(),
        ensures
            found <==> self@.rows[index as int].contains(fp as u16),
    {
        proof {
            table::lemma_widen_contains(self.buckets@[index as int].0@, fp);
        }
        scalar_group::any_eq(&self.buckets[index], fp)
    }

    /// Writes one slot.
    fn set_slot(&mut self, index: usize, slot: usize, fp: u8)
        requires
            old(self).shape(),
            index < old(self)@.rows.len(),
            slot < SLOTS,
        ensures
            final(self).shape(),
            final(self)@ == old(self)@.put(index as int, slot as int, fp as u16),
            final(self).len == old(self).len,
            final(self).bucket_mask == old(self).bucket_mask,
    {
        self.buckets[index].0[slot] = fp;
        proof {
            table::lemma_widen_update(old(self).buckets@[index as int].0@, slot as int, fp);
            assert(self@ =~= old(self)@.put(index as int, slot as int, fp as u16));
            old(self)@.lemma_put(SLOTS as nat, index as int, slot as int, fp as u16);
        }
    }
}

impl SimdCuckooFilter {
    /// Creates a filter with room for at least `capacity` fingerprint slots
    /// (rounded up to a power-of-two bucket count). Fills reliably to ~98%.
    pub fn with_capacity(capacity: usize) -> (filter: Self)
        requires
            2 * capacity <= isize::MAX + 1,
        ensures
            filter.wf(),
            filter@ == Table::empty(filter@.rows.len(), SLOTS as nat),
            pow2::is_bucket_count(filter@.rows.len() as int, capacity as int, SLOTS as int),
            filter@.entries() == vstd::multiset::Multiset::<Entry>::empty(),
    {
        let buckets: usize = pow2::bucket_count(capacity, SLOTS);
        let filter = Self {
            buckets: vec![Bucket([0u8; SLOTS]); buckets],
            bucket_mask: buckets - 1,
            len: 0,
            rng: 0x9e37_79b9_7f4a_7c15,
        };
        proof {
            Table::lemma_empty(buckets as nat, SLOTS as nat);
            assert(filter@ =~~= Table::empty(buckets as nat, SLOTS as nat));
        }
        filter
    }

    /// Puts `fp` into the first empty slot of bucket `index`, if there is one.
    fn try_insert_at(&mut self, index: usize, fp: u8) -> (ok: bool)
        requires
            old(self).shape(),
            index < old(self)@.rows.len(),
            fp != 0,
        ensures
            final(self).shape(),
            final(self).len == old(self).len,
            final(self).bucket_mask == old(self).bucket_mask,
            ok <==> old(self)@.place(index as int, fp as u16) is Some,
            ok ==> Some(final(self)@) == old(self)@.place(index as int, fp as u16),
            !ok ==> final(self)@ == old(self)@,
    {
        match self.first_eq(index, 0) {
            Some(slot) => {
                self.set_slot(index, slot, fp);
                true
            },
            None => false,
        }
    }

    /// Puts `fp` into the full bucket `index` by evictions.
    fn evict(&mut self, index: usize, fp: u8) -> (ok: bool)
        requires
            old(self).shape(),
            index < old(self)@.rows.len(),
            fp != 0,
            !old(self)@.rows[index as int].contains(0),
        ensures
            final(self).shape(),
            final(self).len == old(self).len,
            final(self)@ == old(self)@.walk(index as int, fp as u16, MAX_KICKS as nat).table,
            ok <==> old(self)@.walk(index as int, fp as u16, MAX_KICKS as nat).homeless is None,
    {
        let ghost target = self@.walk(index as int, fp as u16, MAX_KICKS as nat);
        let mut at: usize = index;
        let mut homeless: u8 = fp;
        let mut kicks: usize = 0;
        while kicks < MAX_KICKS
            invariant
                self.shape(),
                self.len == old(self).len,
                at < self@.rows.len(),
                homeless != 0,
                !self@.rows[at as int].contains(0),
                kicks <= MAX_KICKS,
                self@.walk(at as int, homeless as u16, (MAX_KICKS - kicks) as nat) == target,
                target == old(self)@.walk(index as int, fp as u16, MAX_KICKS as nat),
            decreases MAX_KICKS - kicks,
        {
            let ghost before = self@;
            let draw: u64 = xorshift(&mut self.rng);
            let slot: usize = (draw as usize) % SLOTS;
            assert((draw as usize) % 16 == draw % 16) by (bit_vector);
            let evicted: u8 = self.buckets[at].0[slot];
            self.set_slot(at, slot, homeless);
            proof {
                assert(before.rows[at as int][slot as int] == evicted as u16);
                assert(before.rows[at as int].contains(evicted as u16));
                assert(self@ =~= Table {
                    rng: draw,
                    ..before.put(at as int, slot as int, homeless as u16)
                });
                before.lemma_alt(SLOTS as nat, at as int, evicted as u16);
                self@.lemma_place(
                    SLOTS as nat,
                    before.alt(at as int, evicted as u16),
                    evicted as u16,
                );
            }
            homeless = evicted;
            at = alt_index(at, homeless as usize, self.bucket_mask);
            if self.try_insert_at(at, homeless) {
                return true;
            }
            kicks = kicks + 1;
        }
        false
    }

    /// Inserts an item by its hash. Returns `false` if the filter is too full
    /// to accept the item; another item may then have lost its fingerprint.
    pub fn insert_hash(&mut self, hash: u64) -> (ok: bool)
        requires
            old(self).wf(),
        ensures
            final(self).wf(),
            final(self)@ == old(self).insertion(hash).table,
            ok <==> old(self).insertion(hash).homeless is None,
            ok ==> final(self)@.entries() == old(self)@.entries().insert(old(self).entry(hash)),
            !ok ==> final(self)@.entries().len() == old(self)@.entries().len(),
            old(self).has_room(hash) ==> ok,
            final(self)@.rows.len() == old(self)@.rows.len(),
    {
        let (i1, fp) = self.index_and_fp(hash);
        let i2: usize = alt_index(i1, fp as usize, self.bucket_mask);
        proof {
            self@.lemma_alt(SLOTS as nat, i1 as int, fp as u16);
            self@.lemma_place(SLOTS as nat, i1 as int, fp as u16);
            self@.lemma_place(SLOTS as nat, i2 as int, fp as u16);
            self@.lemma_insert(SLOTS as nat, i1 as int, fp as u16);
            self.insertion(hash).table.lemma_entries_len(SLOTS as nat);
        }

        if self.try_insert_at(i1, fp) || self.try_insert_at(i2, fp) {
            self.len = self.len + 1;
            return true;
        }
        let coin: u64 = xorshift(&mut self.rng);
        assert(coin & 1 == coin % 2) by (bit_vector);
        assert(self@ =~= Table { rng: coin, ..old(self)@ });
        let index: usize = if coin & 1 == 0 {
            i1
        } else {
            i2
        };
        if self.evict(index, fp) {
            self.len = self.len + 1;
            return true;
        }
        false
    }

    /// Inserts an item. Returns `false` if the filter is too full to accept
    /// it; another item may then have lost its fingerprint.
    pub fn insert<K: HashKey + ?Sized>(&mut self, item: &K) -> (ok: bool)
        requires
            old(self).wf(),
        ensures
            final(self).wf(),
            final(self)@ == old(self).insertion(hash::hash_of_spec(item)).table,
            ok <==> old(self).insertion(hash::hash_of_spec(item)).homeless is None,
            ok ==> final(self)@.entries() == old(self)@.entries().insert(
                old(self).entry(hash::hash_of_spec(item)),
            ),
            !ok ==> final(self)@.entries().len() == old(self)@.entries().len(),
            old(self).has_room(hash::hash_of_spec(item)) ==> ok,
            final(self)@.rows.len() == old(self)@.rows.len(),
    {
        self.insert_hash(hash_of(item))
    }

    /// Whether an item with hash `hash` may have been inserted.
    pub fn contains_hash(&self, hash: u64) -> (found: bool)
        requires
            self.wf(),
        ensures
            found == self.holds(hash),
            found <==> self@.entries().count(self.entry(hash)) > 0,
    {
        let (i1, fp) = self.index_and_fp(hash);
        proof {
            self@.lemma_alt(SLOTS as nat, i1 as int, fp as u16);
            self@.lemma_holds_is_stored(SLOTS as nat, i1 as int, fp as u16);
        }
        if self.any_eq(i1, fp) {
            return true;
        }
        let i2: usize = alt_index(i1, fp as usize, self.bucket_mask);
        self.any_eq(i2, fp)
    }

    /// Whether `item` may have been inserted.
    pub fn contains<K: HashKey + ?Sized>(&self, item: &K) -> (found: bool)
        requires
            self.wf(),
        ensures
            found == self.holds(hash::hash_of_spec(item)),
            found <==> self@.entries().count(self.entry(hash::hash_of_spec(item))) > 0,
    {
        self.contains_hash(hash_of(item))
    }

    /// [`Self::contains_hash`] with a scalar slot-by-slot probe (benchmark
    /// control).
    pub fn contains_scalar_hash(&self, hash: u64) -> (found: bool)
        requires
            self.wf(),
        ensures
            found == self.holds(hash),
            found <==> self@.entries().count(self.entry(hash)) > 0,
    {
        let (i1, fp) = self.index_and_fp(hash);
        proof {
            self@.lemma_alt(SLOTS as nat, i1 as int, fp as u16);
            self@.lemma_holds_is_stored(SLOTS as nat, i1 as int, fp as u16);
        }
        if self.any_eq_scalar(i1, fp) {
            return true;
        }
        let i2: usize = alt_index(i1, fp as usize, self.bucket_mask);
        self.any_eq_scalar(i2, fp)
    }

    /// [`Self::contains`] with a scalar slot-by-slot probe (benchmark control).
    pub fn contains_scalar<K: HashKey + ?Sized>(&self, item: &K) -> (found: bool)
        requires
            self.wf(),
        ensures
            found == self.holds(hash::hash_of_spec(item)),
            found <==> self@.entries().count(self.entry(hash::hash_of_spec(item))) > 0,
    {
        self.contains_scalar_hash(hash_of(item))
    }

    /// [`Self::probe_depth`] of an item with hash `hash`.
    pub fn probe_depth_hash(&self, hash: u64) -> (depth: Option<u8>)
        requires
            self.wf(),
        ensures
            depth == self.depth(hash),
    {
        let (i1, fp) = self.index_and_fp(hash);
        proof {
            self@.lemma_alt(SLOTS as nat, i1 as int, fp as u16);
        }
        if self.any_eq(i1, fp) {
            return Some(1);
        }
        let i2: usize = alt_index(i1, fp as usize, self.bucket_mask);
        if self.any_eq(i2, fp) {
            Some(2)
        } else {
            None
        }
    }

    /// Benchmark helper: `Some(1)` if the fingerprint is in the primary
    /// bucket, `Some(2)` if only in the alternate one, `None` if absent.
    pub fn probe_depth<K: HashKey + ?Sized>(&self, item: &K) -> (depth: Option<u8>)
        requires
            self.wf(),
        ensures
            depth == self.depth(hash::hash_of_spec(item)),
    {
        self.probe_depth_hash(hash_of(item))
    }

    /// [`Self::remove`] of an item with hash `hash`.
    pub fn remove_hash(&mut self, hash: u64) -> (removed: bool)
        requires
            old(self).wf(),
        ensures
            final(self).wf(),
            final(self)@ == old(self).removal(hash),
            removed == old(self).holds(hash),
            final(self)@.entries() == old(self)@.entries().remove(old(self).entry(hash)),
            final(self)@.rows.len() == old(self)@.rows.len(),
    {
        let (i1, fp) = self.index_and_fp(hash);
        let i2: usize = alt_index(i1, fp as usize, self.bucket_mask);
        proof {
            self@.lemma_alt(SLOTS as nat, i1 as int, fp as u16);
            self@.lemma_remove(SLOTS as nat, i1 as int, fp as u16);
        }
        if let Some(slot) = self.first_eq(i1, fp) {
            self.set_slot(i1, slot, 0);
            self.len = self.len - 1;
            return true;
        }
        if let Some(slot) = self.first_eq(i2, fp) {
            self.set_slot(i2, slot, 0);
            self.len = self.len - 1;
            return true;
        }
        false
    }

    /// Removes one copy of the item's fingerprint. Only call for items that
    /// were actually inserted, otherwise unrelated entries may be evicted.
    pub fn remove<K: HashKey + ?Sized>(&mut self, item: &K) -> (removed: bool)
        requires
            old(self).wf(),
        ensures
            final(self).wf(),
            final(self)@ == old(self).removal(hash::hash_of_spec(item)),
            removed == old(self).holds(hash::hash_of_spec(item)),
            final(self)@.entries() == old(self)@.entries().remove(
                old(self).entry(hash::hash_of_spec(item)),
            ),
            final(self)@.rows.len() == old(self)@.rows.len(),
    {
        self.remove_hash(hash_of(item))
    }

    /// The number of stored fingerprints.
    pub fn len(&self) -> (n: usize)
        requires
            self.wf(),
        ensures
            n == self@.entries().len(),
            n <= self@.rows.len() * SLOTS,
    {
        proof {
            self@.lemma_entries_len(SLOTS as nat);
        }
        self.len
    }

    /// Whether no fingerprint is stored.
    pub fn is_empty(&self) -> (empty: bool)
        requires
            self.wf(),
        ensures
            empty <==> self@.entries().len() == 0,
    {
        self.len == 0
    }

    /// The number of slots.
    pub fn capacity(&self) -> (n: usize)
        requires
            self.wf(),
        ensures
            n == self@.rows.len() * SLOTS,
    {
        self.buckets.len() * SLOTS
    }

    /// Table memory in bytes (fingerprint storage only).
    pub fn memory_bytes(&self) -> (n: usize)
        requires
            self.wf(),
        ensures
            n == self@.rows.len() * SLOTS,
    {
        self.buckets.len() * SLOTS
    }
}

} // verus!
