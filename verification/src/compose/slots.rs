//! A hash table in which a tuple is found by walking on from its home slot.

use crate::compose::accounting::power_of_two;
use crate::compose::scratch::Slot;
use vstd::prelude::*;

verus! {

/// The first slot to look at.
pub open spec fn home_slot(hash: u64, count: u64) -> u64 {
    hash & ((count - 1) as u64)
}

/// The slot after `slot`; the first one follows the last.
pub open spec fn next_slot(slot: int, count: int) -> int {
    if slot + 1 == count {
        0
    } else {
        slot + 1
    }
}

/// The slot to look at after `k` others.
pub open spec fn probe_slot(hash: u64, count: u64, k: int) -> int {
    let at = home_slot(hash, count) + k;
    if at < count {
        at
    } else {
        at - count
    }
}

/// The home slot exists.
pub proof fn lemma_home_slot(hash: u64, count: u64)
    requires
        count > 0,
    ensures
        home_slot(hash, count) < count,
{
    let mask: u64 = (count - 1) as u64;
    assert(hash & mask <= mask) by (bit_vector);
}

/// The first slot to look at.
pub fn first_slot(hash: u64, count: u64) -> (r: u64)
    requires
        count > 0,
    ensures
        r == home_slot(hash, count),
        r < count,
{
    proof {
        lemma_home_slot(hash, count);
    }
    hash & (count - 1)
}

/// The slot after `slot`.
pub fn following_slot(slot: u64, count: u64) -> (r: u64)
    requires
        power_of_two(count),
        slot < count,
    ensures
        r == next_slot(slot as int, count as int),
        r < count,
{
    let mask: u64 = count - 1;
    let up: u64 = slot + 1;
    proof {
        assert(up == count ==> up & mask == 0) by (bit_vector)
            requires
                count & mask == 0,
        ;
        assert(up < count ==> up & mask == up) by (bit_vector)
            requires
                count & mask == 0,
                count > 0,
                mask == count - 1,
        ;
    }
    up & mask
}

/// Walking on goes through the slots in order.
pub proof fn lemma_probe_next(hash: u64, count: u64, k: int)
    requires
        count > 0,
        0 <= k,
        k + 1 < count,
    ensures
        0 <= probe_slot(hash, count, k) < count,
        probe_slot(hash, count, k + 1) == next_slot(probe_slot(hash, count, k), count as int),
{
    lemma_home_slot(hash, count);
}

/// Every slot is looked at sooner or later, at one step only.
pub proof fn lemma_probe_reaches(hash: u64, count: u64, slot: int) -> (k: int)
    requires
        count > 0,
        0 <= slot < count,
    ensures
        0 <= k < count,
        probe_slot(hash, count, k) == slot,
{
    lemma_home_slot(hash, count);
    let home = home_slot(hash, count) as int;
    if home <= slot {
        slot - home
    } else {
        slot - home + count
    }
}

/// Different steps look at different slots.
pub proof fn lemma_probe_injective(hash: u64, count: u64, j: int, k: int)
    requires
        count > 0,
        0 <= j < count,
        0 <= k < count,
        probe_slot(hash, count, j) == probe_slot(hash, count, k),
    ensures
        j == k,
{
    lemma_home_slot(hash, count);
}

/// Slots up to step `k` are all taken.
pub open spec fn taken_before(slots: Seq<Slot>, hash: u64, k: int) -> bool {
    forall|j: int|
        0 <= j < k ==> slots[#[trigger] probe_slot(hash, slots.len() as u64, j)].id_plus_one != 0
}

/// A table that holds ids below `hashes.len()`, each at most once, under its
/// hash, and so that walking on from the home slot of an id meets no free slot
/// before it.
pub open spec fn table_sound(slots: Seq<Slot>, hashes: Seq<u64>) -> bool {
    &&& 0 < slots.len() <= u64::MAX
    &&& forall|p: int|
        0 <= p < slots.len() && (#[trigger] slots[p]).id_plus_one != 0 ==> slots[p].id_plus_one
            <= hashes.len() && slots[p].hash == hashes[slots[p].id_plus_one - 1]
    &&& forall|p: int, q: int|
        0 <= p < slots.len() && 0 <= q < slots.len() && p != q && (
        #[trigger] slots[p]).id_plus_one != 0 ==> slots[p].id_plus_one != (
        #[trigger] slots[q]).id_plus_one
    &&& forall|k: int, p: int|
        0 <= p < slots.len() && 0 <= k < slots.len() && (#[trigger] slots[p]).id_plus_one != 0
            && #[trigger] probe_slot(slots[p].hash, slots.len() as u64, k) == p ==> taken_before(
            slots,
            slots[p].hash,
            k,
        )
}

/// The table holds the id.
pub open spec fn table_has(slots: Seq<Slot>, id: int) -> bool {
    exists|p: int| 0 <= p < slots.len() && (#[trigger] slots[p]).id_plus_one == id + 1
}

/// A table with more slots than ids has a free slot.
pub proof fn lemma_free_slot(slots: Seq<Slot>, hashes: Seq<u64>) -> (p: int)
    requires
        table_sound(slots, hashes),
        hashes.len() < slots.len(),
    ensures
        0 <= p < slots.len(),
        slots[p].id_plus_one == 0,
{
    if forall|p: int| 0 <= p < slots.len() ==> (#[trigger] slots[p]).id_plus_one != 0 {
        let ids = Seq::new(slots.len(), |i: int| slots[i].id_plus_one as int);
        assert(ids.no_duplicates()) by {
            assert forall|i: int, j: int|
                0 <= i < ids.len() && 0 <= j < ids.len() && i != j implies ids[i] != ids[j] by {
                assert(slots[i].id_plus_one != 0);
                assert(slots[i].id_plus_one != slots[j].id_plus_one);
            }
        }
        ids.unique_seq_to_set();
        let range = vstd::set_lib::set_int_range(1, hashes.len() as int + 1);
        vstd::set_lib::lemma_int_range(1, hashes.len() as int + 1);
        assert(ids.to_set().subset_of(range)) by {
            assert forall|x: int| ids.to_set().contains(x) implies range.contains(x) by {
                let i = choose|i: int| 0 <= i < ids.len() && ids[i] == x;
                assert(slots[i].id_plus_one != 0);
            }
        }
        vstd::set_lib::lemma_len_subset(ids.to_set(), range);
        assert(false);
        0
    } else {
        choose|p: int| 0 <= p < slots.len() && (#[trigger] slots[p]).id_plus_one == 0
    }
}

/// When the walk from the home slot of a hash comes to a free slot, no id with
/// that hash can stand anywhere but before it.
pub proof fn lemma_absent_after_free(
    slots: Seq<Slot>,
    hashes: Seq<u64>,
    hash: u64,
    k: int,
    p: int,
)
    requires
        table_sound(slots, hashes),
        0 <= k < slots.len(),
        slots[probe_slot(hash, slots.len() as u64, k)].id_plus_one == 0,
        0 <= p < slots.len(),
        slots[p].id_plus_one != 0,
        slots[p].hash == hash,
    ensures
        exists|j: int|
            0 <= j < k && #[trigger] probe_slot(hash, slots.len() as u64, j) == p,
{
    let n = slots.len() as u64;
    let j = lemma_probe_reaches(hash, n, p);
    assert(probe_slot(slots[p].hash, n, j) == p);
    assert(taken_before(slots, hash, j));
    if j >= k {
        if j == k {
            assert(false);
        }
        assert(slots[probe_slot(hash, n, k)].id_plus_one != 0);
        assert(false);
    }
    assert(probe_slot(hash, n, j) == p);
}

/// An id that is put into the first free slot of its walk leaves the table sound.
pub proof fn lemma_insert_slot(
    slots: Seq<Slot>,
    hashes: Seq<u64>,
    id: int,
    k: int,
)
    requires
        table_sound(slots, hashes),
        0 <= id < hashes.len(),
        !table_has(slots, id),
        0 <= k < slots.len(),
        hashes.len() < u64::MAX,
        slots[probe_slot(hashes[id], slots.len() as u64, k)].id_plus_one == 0,
        taken_before(slots, hashes[id], k),
    ensures
        ({
            let p = probe_slot(hashes[id], slots.len() as u64, k);
            let after = slots.update(p, Slot { hash: hashes[id], id_plus_one: (id + 1) as u64 });
            &&& 0 <= p < slots.len()
            &&& table_sound(after, hashes)
            &&& forall|other: int|
                other >= 0 ==> (#[trigger] table_has(after, other) <==> table_has(slots, other)
                    || other == id)
        }),
{
    let n = slots.len() as u64;
    lemma_home_slot(hashes[id], n);
    let p = probe_slot(hashes[id], n, k);
    let entry = Slot { hash: hashes[id], id_plus_one: (id + 1) as u64 };
    let after = slots.update(p, entry);
    assert forall|q: int, r: int|
        0 <= q < after.len() && 0 <= r < after.len() && q != r && (
        #[trigger] after[q]).id_plus_one != 0 implies after[q].id_plus_one != (
    #[trigger] after[r]).id_plus_one by {
        if q == p {
            assert(after[r] == slots[r]);
            if slots[r].id_plus_one == id + 1 {
                assert(table_has(slots, id));
            }
        } else if r == p {
            assert(after[q] == slots[q]);
            if slots[q].id_plus_one == id + 1 {
                assert(table_has(slots, id));
            }
        } else {
            assert(slots[q].id_plus_one != slots[r].id_plus_one);
        }
    }
    assert forall|j: int, q: int|
        0 <= q < after.len() && 0 <= j < after.len() && (#[trigger] after[q]).id_plus_one != 0
            && #[trigger] probe_slot(after[q].hash, after.len() as u64, j)
            == q implies taken_before(after, after[q].hash, j) by {
        let h = after[q].hash;
        if q == p {
            lemma_probe_injective(h, n, j, k);
            assert forall|i: int| 0 <= i < j implies after[
                #[trigger] probe_slot(h, after.len() as u64, i)
            ].id_plus_one != 0 by {
                assert(slots[probe_slot(h, n, i)].id_plus_one != 0);
            }
        } else {
            assert(slots[q].id_plus_one != 0);
            assert(probe_slot(slots[q].hash, n, j) == q);
            assert(taken_before(slots, h, j));
            assert forall|i: int| 0 <= i < j implies after[
                #[trigger] probe_slot(h, after.len() as u64, i)
            ].id_plus_one != 0 by {
                assert(slots[probe_slot(h, n, i)].id_plus_one != 0);
            }
        }
    }
    assert forall|other: int| other >= 0 implies (#[trigger] table_has(after, other)
        <==> table_has(slots, other) || other == id) by {
        if table_has(after, other) {
            let q = choose|q: int|
                0 <= q < after.len() && (#[trigger] after[q]).id_plus_one == other + 1;
            if q != p {
                assert(slots[q].id_plus_one == other + 1);
            }
        }
        if table_has(slots, other) {
            let q = choose|q: int|
                0 <= q < slots.len() && (#[trigger] slots[q]).id_plus_one == other + 1;
            assert(after[q].id_plus_one == other + 1);
        }
        if other == id {
            assert(after[p].id_plus_one == other + 1);
        }
    }
}

} // verus!
