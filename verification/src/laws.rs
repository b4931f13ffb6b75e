//! What holds of the filters as a whole, over any sequence of operations.
//!
//! The cuckoo filters differ in the number of slots per bucket and in the
//! fingerprint that they take of a hash; the laws hold for every choice of
//! both, so long as no fingerprint is 0.

use crate::bloom;
use crate::bloom::BitTable;
use crate::hash;
use crate::pow2;
use crate::table::Table;
use vstd::multiset::Multiset;
use vstd::prelude::*;

verus! {

/// One operation on a cuckoo filter, with the hash of the item.
pub enum Step {
    Insert(u64),
    Remove(u64),
}

/// No hash has the fingerprint of an empty slot.
pub open spec fn nonzero(fp: spec_fn(u64) -> u16) -> bool {
    forall|h: u64| #[trigger] fp(h) != 0
}

/// Both kinds of fingerprint leave 0 to the empty slots.
pub proof fn law_fingerprints_are_nonzero()
    ensures
        nonzero(|h: u64| hash::fingerprint_spec(h) as u16),
        nonzero(|h: u64| hash::fingerprint_u16_spec(h)),
{
}

/// Whether `t` stores the items with the hashes `live`, each as often as it
/// occurs there, and nothing else.
pub open spec fn represents(
    t: Table,
    slots: nat,
    fp: spec_fn(u64) -> u16,
    live: Seq<u64>,
) -> bool {
    &&& t.wf(slots)
    &&& live.map_values(|h: u64| t.entry(t.primary(h), fp(h))).to_multiset() == t.entries()
}

/// The table after `step`.
pub open spec fn step_table(t: Table, fp: spec_fn(u64) -> u16, step: Step) -> Table {
    match step {
        Step::Insert(h) => t.insert(t.primary(h), fp(h)).table,
        Step::Remove(h) => t.remove(t.primary(h), fp(h)),
    }
}

/// The hashes of the items that are in after `step`.
pub open spec fn step_live(live: Seq<u64>, step: Step) -> Seq<u64> {
    match step {
        Step::Insert(h) => live.push(h),
        Step::Remove(h) => live.remove_value(h),
    }
}

/// Whether `step` is one that the filter accepts and that its user may take:
/// an insertion that succeeds, or the removal of an item that is in.
pub open spec fn proper(
    t: Table,
    fp: spec_fn(u64) -> u16,
    live: Seq<u64>,
    step: Step,
) -> bool {
    match step {
        Step::Insert(h) => t.insert(t.primary(h), fp(h)).homeless is None,
        Step::Remove(h) => live.contains(h),
    }
}

/// The table after all of `steps`.
pub open spec fn table_after(t: Table, fp: spec_fn(u64) -> u16, steps: Seq<Step>) -> Table
    decreases steps.len(),
{
    if steps.len() == 0 {
        t
    } else {
        table_after(step_table(t, fp, steps[0]), fp, steps.drop_first())
    }
}

/// The hashes of the items that are in after all of `steps`.
pub open spec fn live_after(live: Seq<u64>, steps: Seq<Step>) -> Seq<u64>
    decreases steps.len(),
{
    if steps.len() == 0 {
        live
    } else {
        live_after(step_live(live, steps[0]), steps.drop_first())
    }
}

/// Whether every one of `steps` is proper where it is taken.
pub open spec fn all_proper(
    t: Table,
    fp: spec_fn(u64) -> u16,
    live: Seq<u64>,
    steps: Seq<Step>,
) -> bool
    decreases steps.len(),
{
    steps.len() == 0 || (proper(t, fp, live, steps[0]) && all_proper(
        step_table(t, fp, steps[0]),
        fp,
        step_live(live, steps[0]),
        steps.drop_first(),
    ))
}

proof fn lemma_primary(t: Table, slots: nat, h: u64)
    requires
        t.wf(slots),
    ensures
        0 <= t.primary(h) < t.rows.len(),
{
    pow2::lemma_double_is_pow2(t.rows.len() as int);
}

/// A fresh filter stores no item.
pub proof fn law_fresh_filter_is_empty(n: nat, slots: nat, fp: spec_fn(u64) -> u16)
    requires
        pow2::is_pow2(n as int),
        n <= usize::MAX,
        slots > 0,
    ensures
        represents(Table::empty(n, slots), slots, fp, Seq::empty()),
        forall|h: u64| nonzero(fp) ==> !#[trigger] Table::empty(n, slots).holds(
            Table::empty(n, slots).primary(h),
            fp(h),
        ),
{
    let t = Table::empty(n, slots);
    Table::lemma_empty(n, slots);
    let none = Seq::<u64>::empty().map_values(|h: u64| t.entry(t.primary(h), fp(h)));
    none.to_multiset_ensures();
    assert(none.to_multiset() =~= Multiset::empty()) by {
        broadcast use vstd::multiset::group_multiset_axioms;

        assert forall|e| none.to_multiset().count(e) == 0 by {
            assert(!none.contains(e));
        }
    }
    assert forall|h: u64| nonzero(fp) implies !#[trigger] t.holds(t.primary(h), fp(h)) by {
        lemma_primary(t, slots, h);
        t.lemma_holds_is_stored(slots, t.primary(h), fp(h));
        assert(t.entries().count(t.entry(t.primary(h), fp(h))) == 0) by {
            broadcast use vstd::multiset::group_multiset_axioms;

        }
    }
}

/// After a proper step the filter stores exactly the items that are in, and a
/// removal that is proper finds its item.
pub proof fn law_step_keeps_items(
    t: Table,
    slots: nat,
    fp: spec_fn(u64) -> u16,
    live: Seq<u64>,
    step: Step,
)
    requires
        represents(t, slots, fp, live),
        nonzero(fp),
        proper(t, fp, live, step),
    ensures
        represents(step_table(t, fp, step), slots, fp, step_live(live, step)),
        step matches Step::Remove(h) ==> t.holds(t.primary(h), fp(h)),
{
    let stored = |h: u64| t.entry(t.primary(h), fp(h));
    let next = step_table(t, fp, step);
    match step {
        Step::Insert(h) => {
            lemma_primary(t, slots, h);
            t.lemma_insert(slots, t.primary(h), fp(h));
            assert(live.push(h).map_values(stored) =~= live.map_values(stored).push(stored(h)));
            live.map_values(stored).to_multiset_ensures();
        },
        Step::Remove(h) => {
            lemma_primary(t, slots, h);
            t.lemma_remove(slots, t.primary(h), fp(h));
            live.index_of_first_ensures(h);
            let k = live.index_of_first(h)->Some_0;
            assert(live.remove(k).map_values(stored) =~= live.map_values(stored).remove(k));
            live.map_values(stored).to_multiset_ensures();
            assert(live.map_values(stored)[k] == stored(h));
            assert(live.map_values(stored).contains(stored(h)));
            t.lemma_holds_is_stored(slots, t.primary(h), fp(h));
        },
    }
    assert(step_live(live, step).map_values(|h: u64| next.entry(next.primary(h), fp(h)))
        =~= step_live(live, step).map_values(stored));
}

/// No false negatives: a filter finds every item that it stores, and its
/// length is their number.
pub proof fn law_stored_items_are_found(
    t: Table,
    slots: nat,
    fp: spec_fn(u64) -> u16,
    live: Seq<u64>,
)
    requires
        represents(t, slots, fp, live),
        nonzero(fp),
    ensures
        forall|h: u64| live.contains(h) ==> #[trigger] t.holds(t.primary(h), fp(h)),
        t.entries().len() == live.len(),
{
    let stored = |h: u64| t.entry(t.primary(h), fp(h));
    let entries = live.map_values(stored);
    entries.to_multiset_ensures();
    assert forall|h: u64| live.contains(h) implies #[trigger] t.holds(t.primary(h), fp(h)) by {
        let k = live.index_of(h);
        assert(entries[k] == stored(h));
        assert(entries.contains(stored(h)));
        lemma_primary(t, slots, h);
        t.lemma_holds_is_stored(slots, t.primary(h), fp(h));
    }
}

/// A hit has a reason: a filter finds an item exactly if one of the items that
/// it stores has the same fingerprint and the same candidate buckets.
pub proof fn law_hit_shares_an_entry(
    t: Table,
    slots: nat,
    fp: spec_fn(u64) -> u16,
    live: Seq<u64>,
    h: u64,
)
    requires
        represents(t, slots, fp, live),
        nonzero(fp),
    ensures
        t.holds(t.primary(h), fp(h)) <==> exists|k: int|
            0 <= k < live.len() && t.entry(t.primary(#[trigger] live[k]), fp(live[k])) == t.entry(
                t.primary(h),
                fp(h),
            ),
{
    let stored = |h: u64| t.entry(t.primary(h), fp(h));
    let entries = live.map_values(stored);
    entries.to_multiset_ensures();
    lemma_primary(t, slots, h);
    t.lemma_holds_is_stored(slots, t.primary(h), fp(h));
    if t.holds(t.primary(h), fp(h)) {
        assert(entries.contains(stored(h)));
        let k = entries.index_of(stored(h));
        assert(entries[k] == stored(live[k]));
    }
    if exists|k: int|
        0 <= k < live.len() && t.entry(t.primary(#[trigger] live[k]), fp(live[k])) == stored(h) {
        let k = choose|k: int|
            0 <= k < live.len() && t.entry(t.primary(#[trigger] live[k]), fp(live[k])) == stored(h);
        assert(entries[k] == stored(h));
        assert(entries.contains(stored(h)));
    }
}

proof fn lemma_steps_keep_items(
    t: Table,
    slots: nat,
    fp: spec_fn(u64) -> u16,
    live: Seq<u64>,
    steps: Seq<Step>,
)
    requires
        represents(t, slots, fp, live),
        nonzero(fp),
        all_proper(t, fp, live, steps),
    ensures
        represents(table_after(t, fp, steps), slots, fp, live_after(live, steps)),
    decreases steps.len(),
{
    if steps.len() > 0 {
        law_step_keeps_items(t, slots, fp, live, steps[0]);
        lemma_steps_keep_items(
            step_table(t, fp, steps[0]),
            slots,
            fp,
            step_live(live, steps[0]),
            steps.drop_first(),
        );
    }
}

/// No false negatives, over a filter's whole life: whatever was inserted and
/// removed since it was created, so long as every insertion succeeded and only
/// items were removed that were in, every item that is in is found, and the
/// length is the number of items that are in.
pub proof fn law_no_false_negatives(
    n: nat,
    slots: nat,
    fp: spec_fn(u64) -> u16,
    steps: Seq<Step>,
)
    requires
        pow2::is_pow2(n as int),
        n <= usize::MAX,
        slots > 0,
        nonzero(fp),
        all_proper(Table::empty(n, slots), fp, Seq::empty(), steps),
    ensures
        ({
            let t = table_after(Table::empty(n, slots), fp, steps);
            let live = live_after(Seq::empty(), steps);
            &&& forall|h: u64| live.contains(h) ==> #[trigger] t.holds(t.primary(h), fp(h))
            &&& t.entries().len() == live.len()
        }),
{
    let t = Table::empty(n, slots);
    law_fresh_filter_is_empty(n, slots, fp);
    lemma_steps_keep_items(t, slots, fp, Seq::empty(), steps);
    law_stored_items_are_found(
        table_after(t, fp, steps),
        slots,
        fp,
        live_after(Seq::empty(), steps),
    );
}

/// After an insertion that succeeded, the item is found, and so is whatever
/// was found before.
pub proof fn law_insertion_hides_nothing(t: Table, slots: nat, i: int, fp: u16, j: int, other: u16)
    requires
        t.wf(slots),
        0 <= i < t.rows.len(),
        0 <= j < t.rows.len(),
        fp != 0,
        other != 0,
        t.insert(i, fp).homeless is None,
    ensures
        t.insert(i, fp).table.holds(i, fp),
        t.holds(j, other) ==> t.insert(i, fp).table.holds(j, other),
{
    broadcast use vstd::multiset::group_multiset_axioms;

    let after = t.insert(i, fp).table;
    t.lemma_insert(slots, i, fp);
    t.lemma_holds_is_stored(slots, j, other);
    after.lemma_holds_is_stored(slots, j, other);
    after.lemma_holds_is_stored(slots, i, fp);
}

/// A removal undoes an insertion that succeeded: it finds the item, and leaves
/// the entries that were stored before.
pub proof fn law_removal_undoes_insertion(t: Table, slots: nat, i: int, fp: u16)
    requires
        t.wf(slots),
        0 <= i < t.rows.len(),
        fp != 0,
        t.insert(i, fp).homeless is None,
    ensures
        t.insert(i, fp).table.holds(i, fp),
        t.insert(i, fp).table.remove(i, fp).entries() == t.entries(),
{
    broadcast use vstd::multiset::group_multiset_axioms;

    let after = t.insert(i, fp).table;
    t.lemma_insert(slots, i, fp);
    after.lemma_holds_is_stored(slots, i, fp);
    after.lemma_remove(slots, i, fp);
    assert(after.remove(i, fp).entries() =~= t.entries());
}

/// An insertion that gives up leaves the number of entries as it was, and at
/// most one stored entry has one copy less than before.
pub proof fn law_failed_insertion_loses_one(t: Table, slots: nat, i: int, fp: u16)
    requires
        t.wf(slots),
        0 <= i < t.rows.len(),
        fp != 0,
        t.insert(i, fp).homeless is Some,
    ensures
        t.insert(i, fp).table.entries().len() == t.entries().len(),
        ({
            let (j, lost) = t.insert(i, fp).homeless->Some_0;
            t.insert(i, fp).table.entries().insert(t.entry(j, lost)) == t.entries().insert(
                t.entry(i, fp),
            )
        }),
        !t.has_room(i, fp),
{
    t.lemma_insert(slots, i, fp);
    let done = t.insert(i, fp);
    let (j, lost) = done.homeless->Some_0;
    assert(done.table.entry(j, lost) == t.entry(j, lost));
}

/// A filter stores at most as many fingerprints as it has slots, and rejects
/// every item once it stores that many.
pub proof fn law_full_filter_rejects(t: Table, slots: nat, i: int, fp: u16)
    requires
        t.wf(slots),
        0 <= i < t.rows.len(),
        fp != 0,
    ensures
        t.entries().len() <= t.rows.len() * slots,
        t.entries().len() == t.rows.len() * slots ==> t.insert(i, fp).homeless is Some,
{
    t.lemma_entries_len(slots);
    t.lemma_insert(slots, i, fp);
    t.insert(i, fp).table.lemma_entries_len(slots);
}

/// The probe depth tells membership: it is there exactly for what is found.
pub proof fn law_depth_tells_membership(t: Table, i: int, fp: u16)
    ensures
        t.depth(i, fp) is Some <==> t.holds(i, fp),
        t.depth(i, fp) == Some(1u8) <==> t.rows[i].contains(fp),
{
}

/// Where the requested capacity is itself a power of two of whole buckets, a
/// filter has exactly that many slots, so filters with slots of one size take
/// the same memory whatever their buckets are.
pub proof fn law_power_of_two_capacity_is_exact(n: int, capacity: int, slots: int)
    requires
        pow2::is_pow2(capacity),
        pow2::is_pow2(slots),
        slots <= capacity,
        pow2::is_bucket_count(n, capacity, slots),
    ensures
        n * slots == capacity,
{
    pow2::lemma_product_is_pow2(n, slots);
    if n * slots > capacity {
        pow2::lemma_pow2_gap(capacity, n * slots);
    }
}

/// The powers of two are one and the doubles of powers of two, and nothing
/// else: no number below one, and no odd number above one.
pub proof fn law_powers_of_two(n: int)
    ensures
        pow2::is_pow2(1),
        n < 1 ==> !pow2::is_pow2(n),
        pow2::is_pow2(2 * n) <==> pow2::is_pow2(n),
        n > 1 && n % 2 == 1 ==> !pow2::is_pow2(n),
{
    pow2::lemma_one_is_pow2();
    if pow2::is_pow2(n) {
        pow2::lemma_double_is_pow2(n);
        if n > 1 {
            pow2::lemma_half_is_pow2(n);
        }
    }
    if pow2::is_pow2(2 * n) {
        pow2::lemma_double_is_pow2(2 * n);
        pow2::lemma_half_is_pow2(2 * n);
    }
}

/// The number of buckets is the least power of two whose slots suffice, so it
/// is one number for each capacity: no other that suffices is smaller, and one
/// that suffices but is not the number of buckets can be halved.
pub proof fn law_bucket_count_is_least(n: int, m: int, capacity: int, slots: int)
    requires
        slots > 0,
    ensures
        pow2::is_bucket_count(n, capacity, slots) ==> pow2::is_pow2(n) && capacity <= n * slots,
        pow2::is_bucket_count(n, capacity, slots) && pow2::is_pow2(m) && capacity <= m * slots ==> n
            <= m,
        pow2::is_pow2(m) && capacity <= m * slots && !pow2::is_bucket_count(m, capacity, slots)
            ==> pow2::is_pow2(m / 2) && capacity <= (m / 2) * slots,
{
    if pow2::is_pow2(m) && capacity <= m * slots {
        pow2::lemma_double_is_pow2(m);
        if pow2::is_bucket_count(n, capacity, slots) && m < n {
            pow2::lemma_pow2_gap(m, n);
            assert(2 * (m * slots) <= n * slots) by (nonlinear_arith)
                requires
                    2 * m <= n,
                    slots > 0,
            ;
        }
        if !pow2::is_bucket_count(m, capacity, slots) {
            pow2::lemma_half_is_pow2(m);
            assert(m * slots == 2 * ((m / 2) * slots)) by (nonlinear_arith)
                requires
                    m == 2 * (m / 2),
            ;
        }
    }
}

proof fn lemma_probe_in_range(t: BitTable, h: u64, i: int)
    requires
        t.wf(),
    ensures
        0 <= bloom::probe(h, i, t.bits.len() as int) < t.bits.len(),
{
}

/// After an insertion into a Bloom filter the item is found, and so is
/// whatever was found before.
pub proof fn law_bloom_insertion_hides_nothing(t: BitTable, h: u64, other: u64)
    requires
        t.wf(),
    ensures
        t.insert(h).wf(),
        t.insert(h).holds(h),
        t.holds(other) ==> t.insert(h).holds(other),
{
    let m = t.bits.len() as int;
    let after = t.insert(h);
    assert forall|i: int| 0 <= i < t.k implies after.bits[#[trigger] bloom::probe(h, i, m)] by {
        lemma_probe_in_range(t, h, i);
        assert(bloom::probed(h, t.k, m, bloom::probe(h, i, m)));
    }
    if t.holds(other) {
        assert forall|i: int| 0 <= i < t.k implies after.bits[#[trigger] bloom::probe(
            other,
            i,
            m,
        )] by {
            lemma_probe_in_range(t, other, i);
        }
    }
}

/// The Bloom filter after the insertion of all items with the hashes `hashes`.
pub open spec fn bloom_after(t: BitTable, hashes: Seq<u64>) -> BitTable
    decreases hashes.len(),
{
    if hashes.len() == 0 {
        t
    } else {
        bloom_after(t, hashes.drop_last()).insert(hashes.last())
    }
}

/// No false negatives of a Bloom filter: after any sequence of insertions,
/// every item that was inserted is found, and the length is the number of
/// insertions.
pub proof fn law_bloom_no_false_negatives(t: BitTable, hashes: Seq<u64>)
    requires
        t.wf(),
    ensures
        bloom_after(t, hashes).wf(),
        forall|h: u64| hashes.contains(h) ==> #[trigger] bloom_after(t, hashes).holds(h),
        bloom_after(t, hashes).len == t.len + hashes.len(),
    decreases hashes.len(),
{
    if hashes.len() > 0 {
        let before = bloom_after(t, hashes.drop_last());
        law_bloom_no_false_negatives(t, hashes.drop_last());
        assert forall|h: u64| hashes.contains(h) implies #[trigger] bloom_after(
            t,
            hashes,
        ).holds(h) by {
            law_bloom_insertion_hides_nothing(before, hashes.last(), h);
            let k = hashes.index_of(h);
            if k < hashes.len() - 1 {
                assert(hashes.drop_last()[k] == h);
            }
        }
        law_bloom_insertion_hides_nothing(before, hashes.last(), hashes.last());
    }
}

/// A fresh Bloom filter that probes at all finds nothing.
pub proof fn law_fresh_bloom_is_empty(m: nat, k: int, h: u64)
    requires
        pow2::is_pow2(m as int),
        m >= 64,
        k > 0,
    ensures
        !BitTable::empty(m, k).holds(h),
{
    let t = BitTable::empty(m, k);
    lemma_probe_in_range(t, h, 0);
    assert(!t.bits[bloom::probe(h, 0, m as int)]);
}

/// The order of two insertions into a Bloom filter makes no difference.
pub proof fn law_bloom_insertions_commute(t: BitTable, a: u64, b: u64)
    ensures
        t.insert(a).insert(b) == t.insert(b).insert(a),
{
    assert(t.insert(a).insert(b) =~= t.insert(b).insert(a));
}

/// Successive probes of one item cycle through all bits: among as many probes
/// as there are bits, no two hit the same.
pub proof fn law_bloom_probes_cycle(h: u64, i: int, j: int, m: int)
    requires
        pow2::is_pow2(m),
        0 <= i < j < m,
    ensures
        bloom::probe(h, i, m) != bloom::probe(h, j, m),
{
    let s = bloom::step(h);
    if bloom::probe(h, i, m) == bloom::probe(h, j, m) {
        let x = h + i * s;
        let y = h + j * s;
        let d = j - i;
        assert(y - x == d * s) by (nonlinear_arith)
            requires
                x == h + i * s,
                y == h + j * s,
                d == j - i,
        ;
        let q = y / m - x / m;
        assert(d * s == q * m) by (nonlinear_arith)
            requires
                d * s == y - x,
                x % m == y % m,
                q == y / m - x / m,
                m > 0,
        ;
        vstd::arithmetic::div_mod::lemma_mod_multiples_basic(q, m);
        pow2::lemma_odd_factor(d, s, m);
        vstd::arithmetic::div_mod::lemma_small_mod(d as nat, m as nat);
    }
}

} // verus!
