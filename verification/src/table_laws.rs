//! What each operation on a table of fingerprints does, slot by slot, for
//! every number of buckets.

use crate::hash;
use crate::hash_laws;
use crate::pow2;
use crate::table;
use crate::table::Entry;
use crate::table::Table;
use crate::table::Walk;
use crate::table::MAX_KICKS;
use vstd::arithmetic::div_mod;
use vstd::multiset::Multiset;
use vstd::prelude::*;

verus! {

/// The first candidate bucket of a hash is its remainder by the number of
/// buckets: the one bucket number that the hash lies a multiple of them above.
pub proof fn law_first_bucket_is_the_remainder(t: Table, hash: u64, n: int, b: int, q: int)
    requires
        n == t.rows.len(),
        pow2::is_pow2(n),
    ensures
        0 <= t.primary(hash) < n,
        hash == (hash as int / n) * n + t.primary(hash),
        0 <= b < n && hash == q * n + b ==> b == t.primary(hash),
{
    pow2::lemma_double_is_pow2(n);
    div_mod::lemma_fundamental_div_mod(hash as int, n);
    let d = hash as int / n;
    assert(d * n == n * d) by (nonlinear_arith);
    if 0 <= b < n && hash == q * n + b {
        div_mod::lemma_fundamental_div_mod_converse(hash as int, n, q, b);
    }
}

/// Two hashes have the same first candidate bucket exactly if they are
/// congruent modulo the number of buckets, and each bucket is the first
/// candidate of some hash.
pub proof fn law_first_buckets_tell_residues_apart(t: Table, g: u64, h: u64, n: int, b: int)
    requires
        n == t.rows.len(),
        pow2::is_pow2(n),
        n <= 0x1_0000_0000_0000_0000,
        0 <= b < n,
    ensures
        t.primary(g) == t.primary(h) <==> (g - h) % n == 0,
        t.primary(b as u64) == b,
{
    div_mod::lemma_mod_equivalence(g as int, h as int, n);
    div_mod::lemma_small_mod(b as nat, n as nat);
}

/// The other candidate bucket of a fingerprint lies in the table, leads back,
/// and differs from the first by the exclusive or with a multiple of the
/// fingerprint that is reduced by the number of buckets; no other bucket does.
pub proof fn law_other_bucket(t: Table, slots: nat, i: int, fp: u16, j: int)
    requires
        t.wf(slots),
        0 <= i < t.rows.len(),
        0 <= j < t.rows.len(),
    ensures
        0 <= t.alt(i, fp) < t.rows.len(),
        t.alt(t.alt(i, fp), fp) == i,
        j == t.alt(i, fp) <==> (i as usize) ^ (j as usize) == (fp * 0x5bd1_e995) % (
        t.rows.len() as int),
{
    let n = t.rows.len() as usize;
    t.lemma_alt(slots, i, fp);
    hash_laws::law_alternate_lies_a_multiple_away(i as usize, fp as usize, n);
    let a = i as usize;
    let b = j as usize;
    let c = t.alt(i, fp) as usize;
    assert(a ^ b == a ^ c ==> b == c) by (bit_vector);
}

/// Two fingerprints stand for the same entry exactly if they are equal and in
/// the same pair of candidate buckets.
pub proof fn law_entries_are_told_apart(t: Table, slots: nat, i: int, a: u16, k: int, b: u16)
    requires
        t.wf(slots),
        0 <= i < t.rows.len(),
        0 <= k < t.rows.len(),
    ensures
        t.entry(i, a) == t.entry(k, b) <==> a == b && (k == i || k == t.alt(i, a)),
{
    t.lemma_alt(slots, i, a);
    t.lemma_alt(slots, k, b);
}

/// A row of 8-bit fingerprints has the fingerprints of its bucket, slot by
/// slot.
pub proof fn law_row_has_the_fingerprints(bucket: Seq<u8>, s: int)
    ensures
        table::widen(bucket).len() == bucket.len(),
        0 <= s < bucket.len() ==> table::widen(bucket)[s] == bucket[s],
{
}

/// A fresh table has the buckets and slots that it was asked for, all slots
/// empty, and always the same generator.
pub proof fn law_fresh_table_is_empty(n: nat, slots: nat, i: int, s: int)
    ensures
        Table::empty(n, slots).rows.len() == n,
        Table::empty(n, slots).rng == 0x9e37_79b9_7f4a_7c15,
        0 <= i < n ==> Table::empty(n, slots).rows[i].len() == slots,
        0 <= i < n && 0 <= s < slots ==> Table::empty(n, slots).rows[i][s] == 0,
{
}

/// What a table stores is what its slots hold: nothing where they are all
/// empty, and one entry more where a fingerprint is put into an empty slot,
/// whatever the generator.
pub proof fn law_entries_follow_the_slots(t: Table, slots: nat, i: int, s: int, fp: u16, rng: u64)
    requires
        t.wf(slots),
        0 <= i < t.rows.len(),
        0 <= s < slots,
        fp != 0,
    ensures
        (forall|b: int, c: int|
            0 <= b < t.rows.len() && 0 <= c < slots ==> #[trigger] t.rows[b][c] == 0)
            ==> t.entries() == Multiset::<Entry>::empty(),
        t.rows[i][s] == 0 ==> (Table {
            rows: t.rows.update(i, t.rows[i].update(s, fp)),
            rng,
        }).entries() == t.entries().insert(t.entry(i, fp)),
{
    broadcast use vstd::multiset::group_multiset_axioms;

    if forall|b: int, c: int|
        0 <= b < t.rows.len() && 0 <= c < slots ==> #[trigger] t.rows[b][c] == 0 {
        assert forall|e: Entry| t.entries().count(e) == 0 by {
            t.lemma_members(t.rows.len(), e);
        }
        assert(t.entries() =~= Multiset::empty());
    }
    if t.rows[i][s] == 0 {
        let after = Table { rows: t.rows.update(i, t.rows[i].update(s, fp)), rng };
        t.lemma_put(slots, i, s, fp);
        after.lemma_same_rows(t.put(i, s, fp));
        assert(after.entries() =~= t.entries().insert(t.entry(i, fp)));
    }
}

/// A lookup reads the two candidate buckets and nothing else: an item is found
/// exactly if one of them holds its fingerprint, the depth is 1 for the first
/// of them and 2 for the other, and there is room exactly if one of them has
/// an empty slot.
pub proof fn law_lookup_reads_two_buckets(t: Table, slots: nat, i: int, j: int, fp: u16)
    requires
        t.wf(slots),
        0 <= i < t.rows.len(),
        0 <= j < t.rows.len(),
        (i as usize) ^ (j as usize) == (fp * 0x5bd1_e995) % (t.rows.len() as int),
    ensures
        t.holds(i, fp) <==> (exists|s: int| 0 <= s < slots && #[trigger] t.rows[i][s] == fp) || (
        exists|s: int| 0 <= s < slots && #[trigger] t.rows[j][s] == fp),
        t.has_room(i, fp) <==> (exists|s: int| 0 <= s < slots && #[trigger] t.rows[i][s] == 0) || (
        exists|s: int| 0 <= s < slots && #[trigger] t.rows[j][s] == 0),
        t.depth(i, fp) == (if exists|s: int| 0 <= s < slots && #[trigger] t.rows[i][s] == fp {
            Some(1u8)
        } else if exists|s: int| 0 <= s < slots && #[trigger] t.rows[j][s] == fp {
            Some(2u8)
        } else {
            None
        }),
{
    law_other_bucket(t, slots, i, fp, j);
}

/// A removal clears one slot, the first of the first candidate bucket that
/// holds the fingerprint, or of the other where the first has none; every
/// other slot and the generator stay as they were.
pub proof fn law_removal_clears_one_slot(
    t: Table,
    slots: nat,
    i: int,
    j: int,
    fp: u16,
    b: int,
    s: int,
)
    requires
        t.wf(slots),
        0 <= i < t.rows.len(),
        0 <= j < t.rows.len(),
        (i as usize) ^ (j as usize) == (fp * 0x5bd1_e995) % (t.rows.len() as int),
        0 <= b < t.rows.len(),
        0 <= s < slots,
    ensures
        t.remove(i, fp).rng == t.rng,
        t.remove(i, fp).rows.len() == t.rows.len(),
        t.remove(i, fp).rows[b].len() == slots,
        t.remove(i, fp).rows[b][s] == (if (b == i || b == j && !t.rows[i].contains(fp))
            && t.rows[b][s] == fp && (forall|r: int| 0 <= r < s ==> t.rows[b][r] != fp) {
            0
        } else {
            t.rows[b][s]
        }),
{
    law_other_bucket(t, slots, i, fp, j);
    t.rows[i].index_of_first_ensures(fp);
    t.rows[j].index_of_first_ensures(fp);
}

/// An insertion that finds room takes one slot, the first empty one of the
/// first candidate bucket, or of the other where the first is full; every
/// other slot and the generator stay as they were.
pub proof fn law_insertion_takes_one_empty_slot(
    t: Table,
    slots: nat,
    i: int,
    j: int,
    fp: u16,
    b: int,
    s: int,
)
    requires
        t.wf(slots),
        0 <= i < t.rows.len(),
        0 <= j < t.rows.len(),
        (i as usize) ^ (j as usize) == (fp * 0x5bd1_e995) % (t.rows.len() as int),
        t.rows[i].contains(0) || t.rows[j].contains(0),
        0 <= b < t.rows.len(),
        0 <= s < slots,
    ensures
        t.insert(i, fp).homeless is None,
        t.insert(i, fp).table.rng == t.rng,
        t.insert(i, fp).table.rows.len() == t.rows.len(),
        t.insert(i, fp).table.rows[b].len() == slots,
        t.insert(i, fp).table.rows[b][s] == (if (b == i || b == j && !t.rows[i].contains(0))
            && t.rows[b][s] == 0 && (forall|r: int| 0 <= r < s ==> t.rows[b][r] != 0) {
            fp
        } else {
            t.rows[b][s]
        }),
{
    law_other_bucket(t, slots, i, fp, j);
    t.rows[i].index_of_first_ensures(0);
    t.rows[j].index_of_first_ensures(0);
}

/// Whether one eviction leads from one state to the next, where a state is the
/// table, the full bucket that a fingerprint without a slot stands before, and
/// that fingerprint.
spec fn kicked(from: (Table, int, u16), to: (Table, int, u16)) -> bool {
    let w = from.0.kick(from.1, from.2);
    w.table == to.0 && w.homeless == Some((to.1, to.2))
}

/// The states that a walk goes through, from its start to the last one that
/// has a fingerprint without a slot.
proof fn lemma_walk_chain(t: Table, slots: nat, i: int, fp: u16, n: nat) -> (c: Seq<
    (Table, int, u16),
>)
    requires
        t.wf(slots),
        0 <= i < t.rows.len(),
        fp != 0,
        !t.rows[i].contains(0),
    ensures
        1 <= c.len() <= n + 1,
        c[0] == (t, i, fp),
        forall|k: int, l: int|
            0 <= k && l == k + 1 && l < c.len() ==> kicked(#[trigger] c[k], #[trigger] c[l]),
        forall|k: int|
            0 <= k < c.len() ==> {
                &&& (#[trigger] c[k]).0.wf(slots)
                &&& c[k].0.rows.len() == t.rows.len()
                &&& 0 <= c[k].1 < t.rows.len()
                &&& c[k].2 != 0
                &&& !c[k].0.rows[c[k].1].contains(0)
            },
        t.walk(i, fp, n).homeless is Some ==> c.len() == n + 1 && t.walk(i, fp, n) == (Walk {
            table: c.last().0,
            homeless: Some((c.last().1, c.last().2)),
        }),
        t.walk(i, fp, n).homeless is None ==> c.len() <= n && t.walk(i, fp, n) == c.last().0.kick(
            c.last().1,
            c.last().2,
        ),
    decreases n,
{
    if n == 0 {
        seq![(t, i, fp)]
    } else {
        let next = t.kick(i, fp);
        t.lemma_kick(slots, i, fp);
        match next.homeless {
            Some((j, evicted)) => {
                let rest = lemma_walk_chain(next.table, slots, j, evicted, (n - 1) as nat);
                let c = seq![(t, i, fp)] + rest;
                assert(c.last() == rest.last());
                assert forall|k: int, l: int| 0 <= k && l == k + 1 && l < c.len() implies kicked(
                    #[trigger] c[k],
                    #[trigger] c[l],
                ) by {
                    if k > 0 {
                        assert(c[k] == rest[k - 1]);
                        assert(c[l] == rest[l - 1]);
                    } else {
                        assert(c[l] == rest[0]);
                    }
                }
                assert forall|k: int| 0 <= k < c.len() implies {
                    &&& (#[trigger] c[k]).0.wf(slots)
                    &&& c[k].0.rows.len() == t.rows.len()
                    &&& 0 <= c[k].1 < t.rows.len()
                    &&& c[k].2 != 0
                    &&& !c[k].0.rows[c[k].1].contains(0)
                } by {
                    if k > 0 {
                        assert(c[k] == rest[k - 1]);
                    }
                }
                c
            },
            None => seq![(t, i, fp)],
        }
    }
}

/// One eviction, slot by slot.
proof fn lemma_kicked(slots: nat, from: (Table, int, u16), to: (Table, int, u16))
    requires
        from.0.wf(slots),
        0 <= from.1 < from.0.rows.len(),
        kicked(from, to),
    ensures
        ({
            let s = to.0.rng as int % slots as int;
            &&& to.0.rng == hash::xorshift_spec(from.0.rng)
            &&& to.2 == from.0.rows[from.1][s]
            &&& to.0.rows == from.0.rows.update(from.1, from.0.rows[from.1].update(s, from.2))
            &&& to.1 == from.0.alt(from.1, to.2)
        }),
{
}

/// An insertion into two full buckets is a chain of evictions. It starts, as
/// the generator decides, in one of the two. Each eviction draws one number,
/// puts the fingerprint that has no slot into the slot that the number picks,
/// and goes on with the one that was there to its other bucket. The chain ends
/// before a bucket with an empty slot, of which the last fingerprint takes the
/// first, or after 500 evictions that all led to a full bucket: only then does
/// the insertion fail.
pub proof fn law_insertion_is_a_chain_of_evictions(
    t: Table,
    slots: nat,
    i: int,
    j: int,
    fp: u16,
) -> (c: Seq<(Table, int, u16)>)
    requires
        t.wf(slots),
        0 <= i < t.rows.len(),
        0 <= j < t.rows.len(),
        (i as usize) ^ (j as usize) == (fp * 0x5bd1_e995) % (t.rows.len() as int),
        fp != 0,
        !t.rows[i].contains(0),
        !t.rows[j].contains(0),
    ensures
        1 <= c.len() <= 501,
        c[0].0.rows == t.rows,
        c[0].0.rng == hash::xorshift_spec(t.rng),
        c[0].1 == (if c[0].0.rng % 2 == 0 {
            i
        } else {
            j
        }),
        c[0].2 == fp,
        forall|k: int, l: int|
            0 <= k && l == k + 1 && l < c.len() ==> {
                let from = #[trigger] c[k];
                let to = #[trigger] c[l];
                let s = to.0.rng as int % slots as int;
                &&& to.0.rng == hash::xorshift_spec(from.0.rng)
                &&& to.2 == from.0.rows[from.1][s]
                &&& to.0.rows == from.0.rows.update(from.1, from.0.rows[from.1].update(s, from.2))
                &&& 0 <= to.1 < t.rows.len()
                &&& (from.1 as usize) ^ (to.1 as usize) == (to.2 * 0x5bd1_e995) % (
                t.rows.len() as int)
                &&& !to.0.rows[to.1].contains(0)
            },
        t.insert(i, fp).homeless is Some ==> {
            &&& c.len() == 501
            &&& t.insert(i, fp).table == c[500].0
            &&& t.insert(i, fp).homeless == Some((c[500].1, c[500].2))
        },
        t.insert(i, fp).homeless is None ==> {
            let last = c.last();
            let rng = hash::xorshift_spec(last.0.rng);
            let s = rng as int % slots as int;
            let evicted = last.0.rows[last.1][s];
            let rows = last.0.rows.update(last.1, last.0.rows[last.1].update(s, last.2));
            &&& c.len() <= 500
            &&& t.insert(i, fp).table.rng == rng
            &&& exists|b: int, f: int|
                0 <= b < t.rows.len() && (last.1 as usize) ^ (b as usize) == (evicted * 0x5bd1_e995)
                    % (t.rows.len() as int) && 0 <= f < slots && #[trigger] rows[b][f] == 0 && (
                forall|r: int| 0 <= r < f ==> rows[b][r] != 0) && t.insert(i, fp).table.rows
                    == rows.update(b, rows[b].update(f, evicted))
        },
{
    law_other_bucket(t, slots, i, fp, j);
    t.rows[i].index_of_first_ensures(0);
    t.rows[j].index_of_first_ensures(0);
    let drawn = Table { rng: hash::xorshift_spec(t.rng), ..t };
    let start = if drawn.rng % 2 == 0 {
        i
    } else {
        j
    };
    let c = lemma_walk_chain(drawn, slots, start, fp, MAX_KICKS as nat);
    assert(t.insert(i, fp) == drawn.walk(start, fp, MAX_KICKS as nat));
    assert forall|k: int, l: int| 0 <= k && l == k + 1 && l < c.len() implies {
        let from = #[trigger] c[k];
        let to = #[trigger] c[l];
        let s = to.0.rng as int % slots as int;
        &&& to.0.rng == hash::xorshift_spec(from.0.rng)
        &&& to.2 == from.0.rows[from.1][s]
        &&& to.0.rows == from.0.rows.update(from.1, from.0.rows[from.1].update(s, from.2))
        &&& 0 <= to.1 < t.rows.len()
        &&& (from.1 as usize) ^ (to.1 as usize) == (to.2 * 0x5bd1_e995) % (t.rows.len() as int)
        &&& !to.0.rows[to.1].contains(0)
    } by {
        lemma_kicked(slots, c[k], c[l]);
        law_other_bucket(c[k].0, slots, c[k].1, c[l].2, c[l].1);
    }
    if t.insert(i, fp).homeless is None {
        lemma_settled(slots, c.last());
    }
    c
}

/// The last eviction of a chain that succeeds, slot by slot.
proof fn lemma_settled(slots: nat, last: (Table, int, u16))
    requires
        last.0.wf(slots),
        0 <= last.1 < last.0.rows.len(),
        last.2 != 0,
        !last.0.rows[last.1].contains(0),
        last.0.kick(last.1, last.2).homeless is None,
    ensures
        ({
            let w = last.0.kick(last.1, last.2);
            let rng = hash::xorshift_spec(last.0.rng);
            let s = rng as int % slots as int;
            let evicted = last.0.rows[last.1][s];
            let rows = last.0.rows.update(last.1, last.0.rows[last.1].update(s, last.2));
            &&& w.table.rng == rng
            &&& exists|b: int, f: int|
                0 <= b < last.0.rows.len() && (last.1 as usize) ^ (b as usize) == (evicted
                    * 0x5bd1_e995) % (last.0.rows.len() as int) && 0 <= f < slots
                    && #[trigger] rows[b][f] == 0 && (forall|r: int| 0 <= r < f ==> rows[b][r] != 0)
                    && w.table.rows == rows.update(b, rows[b].update(f, evicted))
        }),
{
    let rng = hash::xorshift_spec(last.0.rng);
    let s = rng as int % slots as int;
    let evicted = last.0.rows[last.1][s];
    let rows = last.0.rows.update(last.1, last.0.rows[last.1].update(s, last.2));
    let b = last.0.alt(last.1, evicted);
    last.0.lemma_alt(slots, last.1, evicted);
    law_other_bucket(last.0, slots, last.1, evicted, b);
    rows[b].index_of_first_ensures(0);
    let table = Table { rows, rng };
    assert(table.find(b, 0) is Some);
    let f = table.find(b, 0)->Some_0;
    assert(rows[b][f] == 0);
}

/// An insertion fails only after every eviction was made: it leaves the
/// generator 501 numbers further than before, one to choose the bucket and 500
/// to choose the slots.
pub proof fn law_failed_insertion_draws_every_number(
    t: Table,
    slots: nat,
    i: int,
    fp: u16,
) -> (drawn: Seq<u64>)
    requires
        t.wf(slots),
        0 <= i < t.rows.len(),
        fp != 0,
        t.insert(i, fp).homeless is Some,
    ensures
        drawn.len() == 502,
        drawn[0] == t.rng,
        forall|k: int, l: int|
            0 <= k && l == k + 1 && l < 502 ==> #[trigger] drawn[l] == hash::xorshift_spec(
                #[trigger] drawn[k],
            ),
        drawn[501] == t.insert(i, fp).table.rng,
{
    let j = t.alt(i, fp);
    t.lemma_alt(slots, i, fp);
    law_other_bucket(t, slots, i, fp, j);
    t.lemma_insert(slots, i, fp);
    let c = law_insertion_is_a_chain_of_evictions(t, slots, i, j, fp);
    let drawn = Seq::new(502, |k: int| if k == 0 { t.rng } else { c[k - 1].0.rng });
    assert forall|k: int, l: int| 0 <= k && l == k + 1 && l < 502 implies #[trigger] drawn[l]
        == hash::xorshift_spec(#[trigger] drawn[k]) by {
        if k > 0 {
            assert(c[k].0.rng == hash::xorshift_spec(c[k - 1].0.rng));
        }
    }
    drawn
}

/// Evictions that fail were all made, however many were allowed: the generator
/// is that many numbers further than before.
pub proof fn law_failed_walk_draws_every_number(
    t: Table,
    slots: nat,
    i: int,
    fp: u16,
    n: nat,
) -> (drawn: Seq<u64>)
    requires
        t.wf(slots),
        0 <= i < t.rows.len(),
        fp != 0,
        !t.rows[i].contains(0),
        t.walk(i, fp, n).homeless is Some,
    ensures
        drawn.len() == n + 1,
        drawn[0] == t.rng,
        forall|k: int, l: int|
            0 <= k && l == k + 1 && l <= n ==> #[trigger] drawn[l] == hash::xorshift_spec(
                #[trigger] drawn[k],
            ),
        drawn[n as int] == t.walk(i, fp, n).table.rng,
{
    let c = lemma_walk_chain(t, slots, i, fp, n);
    let drawn = Seq::new(n + 1, |k: int| c[k].0.rng);
    assert forall|k: int, l: int| 0 <= k && l == k + 1 && l <= n implies #[trigger] drawn[l]
        == hash::xorshift_spec(#[trigger] drawn[k]) by {
        lemma_kicked(slots, c[k], c[l]);
    }
    drawn
}

/// With at least one eviction allowed, a fingerprint before a full bucket ends
/// in a slot, and so does every other, where the fingerprint that it evicts
/// has room in its other bucket.
pub proof fn law_eviction_into_room_succeeds(
    t: Table,
    slots: nat,
    i: int,
    fp: u16,
    n: nat,
    s: int,
    b: int,
)
    requires
        t.wf(slots),
        0 <= i < t.rows.len(),
        fp != 0,
        !t.rows[i].contains(0),
        n > 0,
        s == hash::xorshift_spec(t.rng) as int % slots as int,
        0 <= b < t.rows.len(),
        (i as usize) ^ (b as usize) == (t.rows[i][s] * 0x5bd1_e995) % (t.rows.len() as int),
        t.rows[b].contains(0),
    ensures
        t.walk(i, fp, n).homeless is None,
        t.walk(i, fp, n).table.rng == hash::xorshift_spec(t.rng),
        t.walk(i, fp, n).table.rows[i] == t.rows[i].update(s, fp),
        t.walk(i, fp, n).table.rows[b].contains(t.rows[i][s]),
{
    let evicted = t.rows[i][s];
    law_other_bucket(t, slots, i, evicted, b);
    let table = Table { rng: hash::xorshift_spec(t.rng), ..t.put(i, s, fp) };
    table.rows[b].index_of_first_ensures(0);
    let f = table.find(b, 0)->Some_0;
    assert(table.rows[b].update(f, evicted)[f] == evicted);
}

/// After the single insertion of one fingerprint into a fresh table, a lookup
/// finds a fingerprint exactly if it is the same one, looked up from the same
/// bucket or from its other bucket.
pub proof fn law_single_insertion_finds_only_itself(
    n: nat,
    slots: nat,
    i: int,
    fp: u16,
    k: int,
    other: u16,
)
    requires
        pow2::is_pow2(n as int),
        n <= usize::MAX,
        slots > 0,
        0 <= i < n,
        0 <= k < n,
        fp != 0,
        other != 0,
    ensures
        Table::empty(n, slots).insert(i, fp).table.holds(k, other) <==> fp == other && (k == i || (
        i as usize) ^ (k as usize) == (fp * 0x5bd1_e995) % (n as int)),
{
    broadcast use vstd::multiset::group_multiset_axioms;

    let t = Table::empty(n, slots);
    Table::lemma_empty(n, slots);
    assert(t.rows[i][0] == 0);
    assert(t.rows[i].contains(0));
    t.lemma_insert(slots, i, fp);
    let after = t.insert(i, fp).table;
    after.lemma_holds_is_stored(slots, k, other);
    assert(after.entry(k, other) == t.entry(k, other));
    law_entries_are_told_apart(t, slots, i, fp, k, other);
    law_other_bucket(t, slots, i, fp, k);
}

} // verus!
