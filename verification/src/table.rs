//! The common model of the cuckoo filters: a table of buckets of
//! fingerprints, what it stores, and how each operation changes it.

use crate::hash;
use crate::pow2;
use vstd::multiset::Multiset;
use vstd::prelude::*;

verus! {

/// The number of evictions after which an insertion gives up.
pub const MAX_KICKS: usize = 500;

/// What a table stores of one item: its fingerprint, and its two candidate
/// buckets, of which the lower one stands for both.
pub struct Entry {
    pub bucket: int,
    pub fp: u16,
}

/// The state of a cuckoo filter: for each bucket its slots, with 0 in the
/// empty ones, and the state of the generator of eviction choices.
#[verifier::ext_equal]
pub struct Table {
    pub rows: Seq<Seq<u16>>,
    pub rng: u64,
}

/// The state of an insertion that evicts: the table, and a fingerprint that
/// was taken out of it together with the bucket it goes to next, or `None`
/// once every fingerprint has a slot.
#[verifier::ext_equal]
pub struct Walk {
    pub table: Table,
    pub homeless: Option<(int, u16)>,
}

/// A bucket of 8-bit fingerprints as a row of a table.
pub open spec fn widen(bucket: Seq<u8>) -> Seq<u16> {
    Seq::new(bucket.len(), |s: int| bucket[s] as u16)
}

/// A row of 8-bit fingerprints holds a fingerprint where the bucket does.
pub proof fn lemma_widen_contains(bucket: Seq<u8>, fp: u8)
    ensures
        widen(bucket).contains(fp as u16) <==> bucket.contains(fp),
{
    if bucket.contains(fp) {
        let s = bucket.index_of(fp);
        assert(widen(bucket)[s] == fp as u16);
    }
    if widen(bucket).contains(fp as u16) {
        let s = widen(bucket).index_of(fp as u16);
        assert(bucket[s] == fp);
    }
}

/// Writing a slot of a bucket writes the slot of its row.
pub proof fn lemma_widen_update(bucket: Seq<u8>, s: int, fp: u8)
    requires
        0 <= s < bucket.len(),
    ensures
        widen(bucket.update(s, fp)) == widen(bucket).update(s, fp as u16),
{
    assert(widen(bucket.update(s, fp)) =~= widen(bucket).update(s, fp as u16));
}

impl Table {
    /// A table of `n` empty buckets of `slots` slots.
    pub open spec fn empty(n: nat, slots: nat) -> Table {
        Table {
            rows: Seq::new(n, |i: int| Seq::new(slots, |s: int| 0u16)),
            rng: 0x9e37_79b9_7f4a_7c15,
        }
    }

    /// The table has a power of two of buckets, all of `slots` slots.
    pub open spec fn wf(self, slots: nat) -> bool {
        &&& pow2::is_pow2(self.rows.len() as int)
        &&& self.rows.len() <= usize::MAX
        &&& slots > 0
        &&& forall|i: int| 0 <= i < self.rows.len() ==> (#[trigger] self.rows[i]).len() == slots
    }

    /// The first candidate bucket of an item with hash `hash`.
    pub open spec fn primary(self, hash: u64) -> int {
        hash as int % self.rows.len() as int
    }

    /// The other candidate bucket of fingerprint `fp` in bucket `i`.
    pub open spec fn alt(self, i: int, fp: u16) -> int {
        hash::alt_index_spec(i as usize, fp as usize, (self.rows.len() - 1) as usize) as int
    }

    /// The entry that a fingerprint in bucket `i` stands for.
    pub open spec fn entry(self, i: int, fp: u16) -> Entry {
        let j = self.alt(i, fp);
        Entry {
            bucket: if i <= j {
                i
            } else {
                j
            },
            fp,
        }
    }

    /// The entries that the first `n` slots of bucket `i` store.
    pub open spec fn row_entries(self, i: int, n: nat) -> Multiset<Entry>
        decreases n,
    {
        if n == 0 {
            Multiset::empty()
        } else {
            let fp = self.rows[i][n - 1];
            let rest = self.row_entries(i, (n - 1) as nat);
            if fp == 0 {
                rest
            } else {
                rest.insert(self.entry(i, fp))
            }
        }
    }

    /// The entries that the first `n` buckets store.
    pub open spec fn first_entries(self, n: nat) -> Multiset<Entry>
        decreases n,
    {
        if n == 0 {
            Multiset::empty()
        } else {
            self.first_entries((n - 1) as nat).add(
                self.row_entries(n - 1, self.rows[n - 1].len()),
            )
        }
    }

    /// All entries that the table stores, each as often as it is stored.
    pub open spec fn entries(self) -> Multiset<Entry> {
        self.first_entries(self.rows.len())
    }

    /// The table with `fp` in slot `s` of bucket `i`.
    pub open spec fn put(self, i: int, s: int, fp: u16) -> Table {
        Table { rows: self.rows.update(i, self.rows[i].update(s, fp)), rng: self.rng }
    }

    /// The first slot of bucket `i` that holds `fp`.
    pub open spec fn find(self, i: int, fp: u16) -> Option<int> {
        self.rows[i].index_of_first(fp)
    }

    /// The table with `fp` in the first empty slot of bucket `i`; `None` where
    /// the bucket is full.
    pub open spec fn place(self, i: int, fp: u16) -> Option<Table> {
        match self.find(i, 0) {
            Some(s) => Some(self.put(i, s, fp)),
            None => None,
        }
    }

    /// One eviction: the generator picks a slot of bucket `i`, `fp` takes it,
    /// and the fingerprint that was there goes to its other bucket, where it
    /// takes the first empty slot if there is one.
    pub open spec fn kick(self, i: int, fp: u16) -> Walk {
        let rng = hash::xorshift_spec(self.rng);
        let s = rng as int % self.rows[i].len() as int;
        let evicted = self.rows[i][s];
        let j = self.alt(i, evicted);
        let table = Table { rng, ..self.put(i, s, fp) };
        match table.place(j, evicted) {
            Some(placed) => Walk { table: placed, homeless: None },
            None => Walk { table, homeless: Some((j, evicted)) },
        }
    }

    /// Up to `n` evictions that start with `fp` in bucket `i`, until every
    /// fingerprint has a slot.
    pub open spec fn walk(self, i: int, fp: u16, n: nat) -> Walk
        decreases n,
    {
        if n == 0 {
            Walk { table: self, homeless: Some((i, fp)) }
        } else {
            let next = self.kick(i, fp);
            match next.homeless {
                Some((j, evicted)) => next.table.walk(j, evicted, (n - 1) as nat),
                None => next,
            }
        }
    }

    /// The insertion of `fp` with first candidate bucket `i`: into the first
    /// empty slot of that bucket, else of the other one, else by evictions
    /// that start in one of the two, as the generator picks.
    pub open spec fn insert(self, i: int, fp: u16) -> Walk {
        let j = self.alt(i, fp);
        match self.place(i, fp) {
            Some(placed) => Walk { table: placed, homeless: None },
            None => match self.place(j, fp) {
                Some(placed) => Walk { table: placed, homeless: None },
                None => {
                    let rng = hash::xorshift_spec(self.rng);
                    let start = if rng % 2 == 0 {
                        i
                    } else {
                        j
                    };
                    (Table { rng, ..self }).walk(start, fp, MAX_KICKS as nat)
                },
            },
        }
    }

    /// Whether one of the candidate buckets of `fp` has an empty slot, where
    /// `i` is one of them.
    pub open spec fn has_room(self, i: int, fp: u16) -> bool {
        self.rows[i].contains(0) || self.rows[self.alt(i, fp)].contains(0)
    }

    /// Whether one of the candidate buckets of `fp` holds it, where `i` is one
    /// of them.
    pub open spec fn holds(self, i: int, fp: u16) -> bool {
        self.rows[i].contains(fp) || self.rows[self.alt(i, fp)].contains(fp)
    }

    /// 1 where bucket `i` holds `fp`, 2 where only its other candidate bucket
    /// does, `None` where neither does.
    pub open spec fn depth(self, i: int, fp: u16) -> Option<u8> {
        if self.rows[i].contains(fp) {
            Some(1u8)
        } else if self.rows[self.alt(i, fp)].contains(fp) {
            Some(2u8)
        } else {
            None
        }
    }

    /// The table with the first slot cleared that holds `fp`, bucket `i`
    /// before the other candidate bucket.
    pub open spec fn remove(self, i: int, fp: u16) -> Table {
        let j = self.alt(i, fp);
        match self.find(i, fp) {
            Some(s) => self.put(i, s, 0),
            None => match self.find(j, fp) {
                Some(s) => self.put(j, s, 0),
                None => self,
            },
        }
    }
}

proof fn lemma_insert_len(m: Multiset<Entry>, e: Entry)
    ensures
        m.insert(e).len() == m.len() + 1,
{
    broadcast use vstd::multiset::group_multiset_axioms;

}

impl Table {
    /// What a slot of bucket `i` with content `fp` adds to the entries.
    pub open spec fn slot_entry(self, i: int, fp: u16) -> Multiset<Entry> {
        if fp == 0 {
            Multiset::empty()
        } else {
            Multiset::singleton(self.entry(i, fp))
        }
    }

    /// The two candidate buckets of a fingerprint lie in the table, and each
    /// is computed from the other, so both stand for the same entry.
    pub proof fn lemma_alt(self, slots: nat, i: int, fp: u16)
        requires
            self.wf(slots),
            0 <= i < self.rows.len(),
        ensures
            0 <= self.alt(i, fp) < self.rows.len(),
            self.alt(self.alt(i, fp), fp) == i,
            self.entry(self.alt(i, fp), fp) == self.entry(i, fp),
    {
        let n = self.rows.len() as usize;
        pow2::lemma_xor_stays_below(
            i as usize,
            (fp as usize).wrapping_mul(0x5bd1_e995),
            n,
        );
        hash::law_alt_index_is_involution(i as usize, fp as usize, (n - 1) as usize);
    }

    /// Two buckets stand for the same entry only if one is the other's
    /// alternate.
    proof fn lemma_same_entry(self, slots: nat, i: int, k: int, fp: u16)
        requires
            self.wf(slots),
            0 <= i < self.rows.len(),
            0 <= k < self.rows.len(),
            self.entry(i, fp) == self.entry(k, fp),
        ensures
            k == i || k == self.alt(i, fp),
    {
        self.lemma_alt(slots, i, fp);
        self.lemma_alt(slots, k, fp);
    }

    proof fn lemma_row_unchanged(self, other: Table, i: int, n: nat)
        requires
            self.rows.len() == other.rows.len(),
            0 <= i < self.rows.len(),
            self.rows[i] == other.rows[i],
        ensures
            self.row_entries(i, n) == other.row_entries(i, n),
        decreases n,
    {
        if n > 0 {
            self.lemma_row_unchanged(other, i, (n - 1) as nat);
        }
    }

    proof fn lemma_put_row(self, i: int, s: int, fp: u16, n: nat)
        requires
            0 <= i < self.rows.len(),
            0 <= s < self.rows[i].len(),
            n <= self.rows[i].len(),
        ensures
            s >= n ==> self.put(i, s, fp).row_entries(i, n) == self.row_entries(i, n),
            s < n ==> self.put(i, s, fp).row_entries(i, n).add(
                self.slot_entry(i, self.rows[i][s]),
            ) == self.row_entries(i, n).add(self.slot_entry(i, fp)),
        decreases n,
    {
        broadcast use vstd::multiset::group_multiset_axioms;

        if n > 0 {
            self.lemma_put_row(i, s, fp, (n - 1) as nat);
            let t = self.put(i, s, fp);
            let m = (n - 1) as nat;
            assert(t.row_entries(i, n) =~= t.row_entries(i, m).add(
                t.slot_entry(i, t.rows[i][m as int]),
            ));
            assert(self.row_entries(i, n) =~= self.row_entries(i, m).add(
                self.slot_entry(i, self.rows[i][m as int]),
            ));
            if s < n {
                assert(t.row_entries(i, n).add(self.slot_entry(i, self.rows[i][s]))
                    =~= self.row_entries(i, n).add(self.slot_entry(i, fp))) by {
                    if s < m {
                        let a = t.row_entries(i, m);
                        let b = self.slot_entry(i, self.rows[i][s]);
                        let c = self.slot_entry(i, self.rows[i][m as int]);
                        let d = self.row_entries(i, m);
                        let e = self.slot_entry(i, fp);
                        assert(a.add(b) == d.add(e));
                        assert(a.add(c).add(b) =~= a.add(b).add(c));
                        assert(d.add(c).add(e) =~= d.add(e).add(c));
                    }
                }
            }
        }
    }

    proof fn lemma_put_rows(self, slots: nat, i: int, s: int, fp: u16, n: nat)
        requires
            self.wf(slots),
            0 <= i < self.rows.len(),
            0 <= s < slots,
            n <= self.rows.len(),
        ensures
            i >= n ==> self.put(i, s, fp).first_entries(n) == self.first_entries(n),
            i < n ==> self.put(i, s, fp).first_entries(n).add(
                self.slot_entry(i, self.rows[i][s]),
            ) == self.first_entries(n).add(self.slot_entry(i, fp)),
        decreases n,
    {
        broadcast use vstd::multiset::group_multiset_axioms;

        if n > 0 {
            let m = (n - 1) as nat;
            let t = self.put(i, s, fp);
            self.lemma_put_rows(slots, i, s, fp, m);
            let a = t.first_entries(m);
            let b = self.first_entries(m);
            let ra = t.row_entries(m as int, slots);
            let rb = self.row_entries(m as int, slots);
            let x = self.slot_entry(i, self.rows[i][s]);
            let y = self.slot_entry(i, fp);
            assert(t.rows[m as int].len() == slots);
            if i == m {
                self.lemma_put_row(i, s, fp, slots);
                assert(a.add(ra).add(x) =~= a.add(ra.add(x)));
                assert(b.add(rb).add(y) =~= b.add(rb.add(y)));
            } else {
                self.lemma_row_unchanged(t, m as int, slots);
                if i < m {
                    assert(a.add(ra).add(x) =~= a.add(x).add(ra));
                    assert(b.add(rb).add(y) =~= b.add(y).add(rb));
                }
            }
        }
    }

    /// Writing one slot changes the entries by what the slot held and what it
    /// holds now.
    pub proof fn lemma_put(self, slots: nat, i: int, s: int, fp: u16)
        requires
            self.wf(slots),
            0 <= i < self.rows.len(),
            0 <= s < slots,
        ensures
            self.put(i, s, fp).wf(slots),
            self.put(i, s, fp).entries().add(self.slot_entry(i, self.rows[i][s]))
                == self.entries().add(self.slot_entry(i, fp)),
    {
        self.lemma_put_rows(slots, i, s, fp, self.rows.len());
    }
}

impl Table {
    proof fn lemma_row_members(self, i: int, n: nat, e: Entry)
        requires
            0 <= i < self.rows.len(),
            n <= self.rows[i].len(),
        ensures
            self.row_entries(i, n).count(e) > 0 <==> e.fp != 0 && self.entry(i, e.fp) == e && (
            exists|s: int| 0 <= s < n && self.rows[i][s] == e.fp),
        decreases n,
    {
        broadcast use vstd::multiset::group_multiset_axioms;

        if n > 0 {
            let m = (n - 1) as nat;
            self.lemma_row_members(i, m, e);
            if e.fp != 0 && self.entry(i, e.fp) == e && self.rows[i][m as int] != e.fp {
                assert((exists|s: int| 0 <= s < n && self.rows[i][s] == e.fp) ==> (exists|s: int|
                    0 <= s < m && self.rows[i][s] == e.fp));
            }
        }
    }

    pub proof fn lemma_members(self, n: nat, e: Entry)
        requires
            n <= self.rows.len(),
        ensures
            self.first_entries(n).count(e) > 0 <==> exists|i: int|
                0 <= i < n && #[trigger] self.rows[i].contains(e.fp) && e.fp != 0 && self.entry(
                    i,
                    e.fp,
                ) == e,
        decreases n,
    {
        broadcast use vstd::multiset::group_multiset_axioms;

        if n > 0 {
            let m = (n - 1) as nat;
            self.lemma_members(m, e);
            self.lemma_row_members(m as int, self.rows[m as int].len(), e);
            if self.rows[m as int].contains(e.fp) && e.fp != 0 && self.entry(m as int, e.fp) == e {
                assert(self.first_entries(n).count(e) > 0);
            }
        }
    }

    /// A table holds a fingerprint in one of its candidate buckets exactly if
    /// the entry is stored.
    pub proof fn lemma_holds_is_stored(self, slots: nat, i: int, fp: u16)
        requires
            self.wf(slots),
            0 <= i < self.rows.len(),
            fp != 0,
        ensures
            self.holds(i, fp) <==> self.entries().count(self.entry(i, fp)) > 0,
    {
        let e = self.entry(i, fp);
        self.lemma_members(self.rows.len(), e);
        self.lemma_alt(slots, i, fp);
        if self.rows[i].contains(fp) {
            assert(self.rows[i].contains(e.fp));
        }
        if self.rows[self.alt(i, fp)].contains(fp) {
            assert(self.rows[self.alt(i, fp)].contains(e.fp));
        }
        if self.entries().count(e) > 0 {
            let k = choose|k: int|
                0 <= k < self.rows.len() && #[trigger] self.rows[k].contains(e.fp) && self.entry(
                    k,
                    e.fp,
                ) == e;
            self.lemma_same_entry(slots, i, k, fp);
        }
    }

    proof fn lemma_row_len(self, i: int, n: nat)
        requires
            0 <= i < self.rows.len(),
            n <= self.rows[i].len(),
        ensures
            self.row_entries(i, n).len() <= n,
            self.row_entries(i, n).len() == n <==> (forall|s: int|
                0 <= s < n ==> self.rows[i][s] != 0),
        decreases n,
    {
        broadcast use vstd::multiset::group_multiset_axioms;

        if n > 0 {
            self.lemma_row_len(i, (n - 1) as nat);
        }
    }

    proof fn lemma_first_len(self, slots: nat, n: nat)
        requires
            self.wf(slots),
            n <= self.rows.len(),
        ensures
            self.first_entries(n).len() <= n * slots,
            self.first_entries(n).len() == n * slots <==> (forall|i: int|
                0 <= i < n ==> !(#[trigger] self.rows[i]).contains(0)),
        decreases n,
    {
        broadcast use vstd::multiset::group_multiset_axioms;

        if n > 0 {
            let m = (n - 1) as nat;
            self.lemma_first_len(slots, m);
            self.lemma_row_len(m as int, slots);
            assert(n * slots == m * slots + slots) by (nonlinear_arith)
                requires
                    n == m + 1,
            ;
            let row = self.rows[m as int];
            assert(row.len() == slots);
            assert(!row.contains(0) <==> (forall|s: int| 0 <= s < slots ==> row[s] != 0));
        }
    }

    /// A table stores at most one entry for each slot, and that many only when
    /// every bucket is full.
    pub proof fn lemma_entries_len(self, slots: nat)
        requires
            self.wf(slots),
        ensures
            self.entries().len() <= self.rows.len() * slots,
            self.entries().len() == self.rows.len() * slots <==> (forall|i: int|
                0 <= i < self.rows.len() ==> !(#[trigger] self.rows[i]).contains(0)),
    {
        self.lemma_first_len(slots, self.rows.len());
    }

    /// An empty table stores nothing.
    pub proof fn lemma_empty(n: nat, slots: nat)
        requires
            pow2::is_pow2(n as int),
            n <= usize::MAX,
            slots > 0,
        ensures
            Table::empty(n, slots).wf(slots),
            Table::empty(n, slots).entries() == Multiset::<Entry>::empty(),
    {
        let t = Table::empty(n, slots);
        assert forall|e: Entry| t.entries().count(e) == 0 by {
            t.lemma_members(n, e);
        }
        assert(t.entries() =~= Multiset::empty());
    }

    /// Placing a fingerprint into a bucket with room stores its entry.
    pub proof fn lemma_place(self, slots: nat, i: int, fp: u16)
        requires
            self.wf(slots),
            0 <= i < self.rows.len(),
            fp != 0,
        ensures
            self.place(i, fp) is Some <==> self.rows[i].contains(0),
            self.place(i, fp) matches Some(t) ==> {
                &&& t.wf(slots)
                &&& t.rows.len() == self.rows.len()
                &&& t.rng == self.rng
                &&& t.entries() == self.entries().insert(self.entry(i, fp))
            },
    {
        broadcast use vstd::multiset::group_multiset_axioms;

        self.rows[i].index_of_first_ensures(0);
        if let Some(s) = self.find(i, 0) {
            self.lemma_put(slots, i, s, fp);
            assert(self.put(i, s, fp).entries() =~= self.entries().insert(self.entry(i, fp)));
        }
    }

    /// What a walk has stored, with the fingerprint that has no slot yet.
    pub open spec fn walk_entries(w: Walk) -> Multiset<Entry> {
        match w.homeless {
            Some((i, fp)) => w.table.entries().insert(w.table.entry(i, fp)),
            None => w.table.entries(),
        }
    }

    /// The state of a walk between two evictions: a fingerprint without a slot
    /// stands before one of its candidate buckets, which is full.
    pub open spec fn walk_wf(w: Walk, slots: nat) -> bool {
        &&& w.table.wf(slots)
        &&& w.homeless matches Some((i, fp)) ==> {
            &&& 0 <= i < w.table.rows.len()
            &&& fp != 0
            &&& !w.table.rows[i].contains(0)
        }
    }

    pub proof fn lemma_kick(self, slots: nat, i: int, fp: u16)
        requires
            self.wf(slots),
            0 <= i < self.rows.len(),
            fp != 0,
            !self.rows[i].contains(0),
        ensures
            Table::walk_wf(self.kick(i, fp), slots),
            self.kick(i, fp).table.rows.len() == self.rows.len(),
            Table::walk_entries(self.kick(i, fp)) == self.entries().insert(self.entry(i, fp)),
    {
        broadcast use vstd::multiset::group_multiset_axioms;

        let rng = hash::xorshift_spec(self.rng);
        let s = rng as int % self.rows[i].len() as int;
        let evicted = self.rows[i][s];
        assert(self.rows[i].contains(evicted));
        let j = self.alt(i, evicted);
        self.lemma_alt(slots, i, evicted);
        let put = self.put(i, s, fp);
        self.lemma_put(slots, i, s, fp);
        let table = Table { rng, ..put };
        assert(table.rows == put.rows);
        table.lemma_same_rows(put);
        table.lemma_place(slots, j, evicted);
        let target = self.entries().insert(self.entry(i, fp));
        assert(table.entries().insert(self.entry(i, evicted)) =~= target);
        assert(table.entry(j, evicted) == self.entry(i, evicted));
    }

    /// What a table stores does not depend on the generator.
    pub proof fn lemma_same_rows(self, other: Table)
        requires
            self.rows == other.rows,
        ensures
            self.entries() == other.entries(),
    {
        self.lemma_same_first(other, self.rows.len());
    }

    proof fn lemma_same_first(self, other: Table, n: nat)
        requires
            self.rows == other.rows,
            n <= self.rows.len(),
        ensures
            self.first_entries(n) == other.first_entries(n),
        decreases n,
    {
        if n > 0 {
            self.lemma_same_first(other, (n - 1) as nat);
            self.lemma_row_unchanged(other, n - 1, self.rows[n - 1].len());
        }
    }

    /// However many evictions it takes, the entries are those from before and
    /// the new one, but for the fingerprint that ends without a slot.
    pub proof fn lemma_walk(self, slots: nat, i: int, fp: u16, n: nat)
        requires
            self.wf(slots),
            0 <= i < self.rows.len(),
            fp != 0,
            !self.rows[i].contains(0),
        ensures
            Table::walk_wf(self.walk(i, fp, n), slots),
            self.walk(i, fp, n).table.rows.len() == self.rows.len(),
            Table::walk_entries(self.walk(i, fp, n)) == self.entries().insert(self.entry(i, fp)),
        decreases n,
    {
        if n > 0 {
            self.lemma_kick(slots, i, fp);
            let next = self.kick(i, fp);
            if let Some((j, evicted)) = next.homeless {
                next.table.lemma_walk(slots, j, evicted, (n - 1) as nat);
            }
        }
    }

    /// An insertion keeps every entry and adds the new one; where it gives up,
    /// one fingerprint has lost its slot. It does not give up while a
    /// candidate bucket has room.
    pub proof fn lemma_insert(self, slots: nat, i: int, fp: u16)
        requires
            self.wf(slots),
            0 <= i < self.rows.len(),
            fp != 0,
        ensures
            Table::walk_wf(self.insert(i, fp), slots),
            self.insert(i, fp).table.rows.len() == self.rows.len(),
            Table::walk_entries(self.insert(i, fp)) == self.entries().insert(self.entry(i, fp)),
            self.insert(i, fp).table.entries().len() == self.entries().len() + (if self.insert(
                i,
                fp,
            ).homeless is None {
                1int
            } else {
                0
            }),
            self.has_room(i, fp) ==> self.insert(i, fp).homeless is None,
    {
        let j = self.alt(i, fp);
        self.lemma_alt(slots, i, fp);
        self.lemma_place(slots, i, fp);
        self.lemma_place(slots, j, fp);
        if self.place(i, fp) is None && self.place(j, fp) is None {
            let rng = hash::xorshift_spec(self.rng);
            let start = if rng % 2 == 0 {
                i
            } else {
                j
            };
            let table = Table { rng, ..self };
            table.lemma_same_rows(self);
            table.lemma_walk(slots, start, fp, MAX_KICKS as nat);
        }
        let done = self.insert(i, fp);
        lemma_insert_len(self.entries(), self.entry(i, fp));
        if let Some((k, lost)) = done.homeless {
            lemma_insert_len(done.table.entries(), done.table.entry(k, lost));
        }
    }

    /// A removal takes one copy of the entry out, if there is one.
    pub proof fn lemma_remove(self, slots: nat, i: int, fp: u16)
        requires
            self.wf(slots),
            0 <= i < self.rows.len(),
            fp != 0,
        ensures
            self.remove(i, fp).wf(slots),
            self.remove(i, fp).rows.len() == self.rows.len(),
            self.remove(i, fp).entries() == self.entries().remove(self.entry(i, fp)),
            self.holds(i, fp) ==> self.remove(i, fp).entries().len() == self.entries().len() - 1,
            !self.holds(i, fp) ==> self.remove(i, fp) == self,
    {
        broadcast use vstd::multiset::group_multiset_axioms;

        let j = self.alt(i, fp);
        let e = self.entry(i, fp);
        self.lemma_alt(slots, i, fp);
        self.lemma_holds_is_stored(slots, i, fp);
        self.rows[i].index_of_first_ensures(fp);
        self.rows[j].index_of_first_ensures(fp);
        if let Some(s) = self.find(i, fp) {
            self.lemma_put(slots, i, s, 0);
            assert(self.put(i, s, 0).entries().insert(e) =~= self.entries());
        } else if let Some(s) = self.find(j, fp) {
            self.lemma_put(slots, j, s, 0);
            assert(self.put(j, s, 0).entries().insert(e) =~= self.entries());
        }
        assert(self.remove(i, fp).entries() =~= self.entries().remove(e));
    }
}

} // verus!
