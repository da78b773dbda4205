//! Sizes and counts: what fits in memory, and how large the slot table has to be.

use crate::compose::failure::StoreFailure;
use crate::fst::tr::{StateId, NO_STATE_ID};
use vstd::prelude::*;

verus! {

/// The smallest number of slots.
pub const INITIAL_SLOT_COUNT: u64 = 16;

/// How many bytes a slot takes.
pub const SLOT_BYTES: u64 = 16;

/// At most this many slots out of `MAX_LOAD_DENOMINATOR` are taken.
pub const MAX_LOAD_NUMERATOR: u64 = 7;

pub const MAX_LOAD_DENOMINATOR: u64 = 10;

/// A number, or the largest of its type where it does not fit.
pub open spec fn clamp_usize(x: int) -> int {
    if x > usize::MAX {
        usize::MAX as int
    } else {
        x
    }
}

/// The capacity that a hash table of `len` entries with the given capacity will
/// have once there is room for one more, or an upper estimate of it.
pub fn prospective_hash_capacity(len: usize, current: usize) -> (r: usize)
    ensures
        r == (if len < current {
            current as int
        } else if current == 0 {
            3
        } else {
            clamp_usize(current * 2 + 1)
        }),
{
    if len < current {
        current
    } else if current == 0 {
        3
    } else if current > usize::MAX / 2 {
        usize::MAX
    } else {
        (2 * current).saturating_add(1)
    }
}

/// The capacity that a list of `len` entries with the given capacity will have
/// once there is room for exactly one more.
pub fn prospective_reverse_capacity(len: usize, current: usize) -> (r: usize)
    ensures
        r == (if len < current {
            current as int
        } else {
            clamp_usize(len + 1)
        }),
{
    if len < current {
        current
    } else {
        len.saturating_add(1)
    }
}

/// The bytes of `capacity` entries.
pub open spec fn bytes_for_model(capacity: int, element_bytes: int) -> Result<u64, StoreFailure> {
    if capacity * element_bytes <= u64::MAX {
        Ok((capacity * element_bytes) as u64)
    } else {
        Err(StoreFailure::AccountingOverflow)
    }
}

/// The bytes of `capacity` entries.
pub fn bytes_for(capacity: usize, element_bytes: usize) -> (r: Result<u64, StoreFailure>)
    ensures
        r == bytes_for_model(capacity as int, element_bytes as int),
{
    match (capacity as u64).checked_mul(element_bytes as u64) {
        Some(bytes) => Ok(bytes),
        None => Err(StoreFailure::AccountingOverflow),
    }
}

/// What is charged for the two tables: per entry of the hash table the tuple, its
/// id and sixteen bytes more, and per entry of the list the tuple.
pub open spec fn memory_bytes_model(
    tuple_bytes: int,
    map_capacity: int,
    reverse_capacity: int,
) -> Result<u64, StoreFailure> {
    let map = bytes_for_model(map_capacity, tuple_bytes + 4 + 16);
    let reverse = bytes_for_model(reverse_capacity, tuple_bytes);
    if tuple_bytes + 4 + 16 > usize::MAX || map is Err || reverse is Err || map->Ok_0
        + reverse->Ok_0 > u64::MAX {
        Err(StoreFailure::AccountingOverflow)
    } else {
        Ok((map->Ok_0 + reverse->Ok_0) as u64)
    }
}

/// What is charged for the two tables when a tuple takes `tuple_bytes` bytes.
pub fn estimated_memory_bytes(
    tuple_bytes: usize,
    map_capacity: usize,
    reverse_capacity: usize,
) -> (r: Result<u64, StoreFailure>)
    ensures
        r == memory_bytes_model(
            tuple_bytes as int,
            map_capacity as int,
            reverse_capacity as int,
        ),
{
    let with_id: usize = match tuple_bytes.checked_add(4) {
        Some(b) => b,
        None => {
            return Err(StoreFailure::AccountingOverflow);
        },
    };
    let bucket_bytes: usize = match with_id.checked_add(16) {
        Some(b) => b,
        None => {
            return Err(StoreFailure::AccountingOverflow);
        },
    };
    let map: u64 = match bytes_for(map_capacity, bucket_bytes) {
        Ok(b) => b,
        Err(e) => {
            return Err(e);
        },
    };
    let reverse: u64 = match bytes_for(reverse_capacity, tuple_bytes) {
        Ok(b) => b,
        Err(e) => {
            return Err(e);
        },
    };
    match map.checked_add(reverse) {
        Some(total) => Ok(total),
        None => Err(StoreFailure::AccountingOverflow),
    }
}

/// The id of the state after `len` others.
pub open spec fn next_id_model(len: int) -> Result<StateId, StoreFailure> {
    if len > u32::MAX {
        Err(StoreFailure::StateCountExceedsIds)
    } else if len == NO_STATE_ID {
        Err(StoreFailure::StateCountReachedReserved)
    } else {
        Ok(len as StateId)
    }
}

/// The id of the state after `len` others.
pub fn state_id_for_len(len: u64) -> (r: Result<StateId, StoreFailure>)
    ensures
        r == next_id_model(len as int),
{
    if len > u32::MAX as u64 {
        return Err(StoreFailure::StateCountExceedsIds);
    }
    let state: StateId = len as StateId;
    if state == NO_STATE_ID {
        return Err(StoreFailure::StateCountReachedReserved);
    }
    Ok(state)
}

/// Whether the number is a power of two.
pub open spec fn power_of_two(n: u64) -> bool {
    n > 0 && n & ((n - 1) as u64) == 0
}

/// The first of `p`, twice `p`, four times `p` and so on that is at least `n`.
pub open spec fn doubled_until(n: int, p: int) -> int
    decreases (if p < n {
        n - p
    } else {
        0
    }),
{
    if p >= n || p <= 0 {
        p
    } else {
        doubled_until(n, 2 * p)
    }
}

/// How many slots `len` entries need at most.
pub open spec fn required_slots(len: int) -> int {
    (len * MAX_LOAD_DENOMINATOR + (MAX_LOAD_NUMERATOR - 1)) / MAX_LOAD_NUMERATOR as int
}

/// The larger of the least number of slots and what `len` entries need, rounded
/// up to a power of two.
pub open spec fn initial_slots_model(len: int) -> Result<u64, StoreFailure> {
    let slots = doubled_until(required_slots(len), INITIAL_SLOT_COUNT as int);
    if slots <= u64::MAX {
        Ok(slots as u64)
    } else {
        Err(StoreFailure::SlotCountOverflow)
    }
}

/// Doubling stops before twice what is needed.
pub proof fn lemma_doubled_below(n: int, p: int)
    requires
        p > 0,
    ensures
        doubled_until(n, p) <= p || doubled_until(n, p) < 2 * n,
        doubled_until(n, p) >= p,
        doubled_until(n, p) >= n,
    decreases (if p < n {
        n - p
    } else {
        0
    }),
{
    if p < n {
        lemma_doubled_below(n, 2 * p);
    }
}

/// A power of two, doubled, is a power of two.
pub proof fn lemma_doubled_power(n: int, p: u64)
    requires
        power_of_two(p),
        doubled_until(n, p as int) <= u64::MAX,
    ensures
        power_of_two(doubled_until(n, p as int) as u64),
    decreases (if p < n {
        n - p
    } else {
        0
    }),
{
    if p < n {
        lemma_doubled_below(n, 2 * p);
        lemma_double_power(p);
        lemma_doubled_power(n, (2 * p) as u64);
    }
}

/// Twice a power of two is a power of two.
pub proof fn lemma_double_power(n: u64)
    requires
        power_of_two(n),
        n <= 0x7fff_ffff_ffff_ffff,
    ensures
        power_of_two((2 * n) as u64),
{
    let m: u64 = (n - 1) as u64;
    let d: u64 = (2 * n) as u64;
    let e: u64 = (2 * n - 1) as u64;
    assert(d & e == 0) by (bit_vector)
        requires
            n & m == 0,
            n > 0,
            m == n - 1,
            n <= 0x7fff_ffff_ffff_ffff,
            d == 2 * n,
            e == 2 * n - 1,
    ;
}

/// How many slots to begin with when `len` entries are already there.
pub fn initial_slot_count(len: usize) -> (r: Result<u64, StoreFailure>)
    ensures
        r == initial_slots_model(len as int),
        r matches Ok(n) ==> power_of_two(n) && n >= INITIAL_SLOT_COUNT,
{
    let required: u128 = (len as u128 * MAX_LOAD_DENOMINATOR as u128 + (MAX_LOAD_NUMERATOR
        as u128 - 1)) / MAX_LOAD_NUMERATOR as u128;
    let mut slots: u64 = INITIAL_SLOT_COUNT;
    assert(16u64 & 15u64 == 0) by (bit_vector);
    while (slots as u128) < required
        invariant
            required == required_slots(len as int),
            slots >= INITIAL_SLOT_COUNT,
            power_of_two(slots),
            doubled_until(required as int, INITIAL_SLOT_COUNT as int) == doubled_until(
                required as int,
                slots as int,
            ),
        decreases (if slots < required {
            required - slots
        } else {
            0
        }),
    {
        if slots > 0x7fff_ffff_ffff_ffff {
            proof {
                lemma_doubled_below(required as int, 2 * slots);
            }
            return Err(StoreFailure::SlotCountOverflow);
        }
        proof {
            lemma_double_power(slots);
        }
        slots = 2 * slots;
    }
    Ok(slots)
}

/// Whether one more entry would be too many for the slots.
pub open spec fn needs_growth_model(len: int, slot_count: int) -> Result<bool, StoreFailure> {
    if (len + 1) * MAX_LOAD_DENOMINATOR > u64::MAX || slot_count * MAX_LOAD_NUMERATOR > u64::MAX {
        Err(StoreFailure::LoadOverflow)
    } else {
        Ok((len + 1) * MAX_LOAD_DENOMINATOR > slot_count * MAX_LOAD_NUMERATOR)
    }
}

/// Whether one more entry would be too many for the slots.
pub fn needs_growth(len: u64, slot_count: u64) -> (r: Result<bool, StoreFailure>)
    ensures
        r == needs_growth_model(len as int, slot_count as int),
{
    let next_len: u64 = match len.checked_add(1) {
        Some(n) => n,
        None => {
            return Err(StoreFailure::LoadOverflow);
        },
    };
    let scaled_len: u64 = match next_len.checked_mul(MAX_LOAD_DENOMINATOR) {
        Some(n) => n,
        None => {
            return Err(StoreFailure::LoadOverflow);
        },
    };
    let scaled_slots: u64 = match slot_count.checked_mul(MAX_LOAD_NUMERATOR) {
        Some(n) => n,
        None => {
            return Err(StoreFailure::LoadOverflow);
        },
    };
    Ok(scaled_len > scaled_slots)
}

/// What is charged is the sum of the bytes of both tables, as long as it fits. It does
/// not fall when a capacity grows.
pub proof fn law_memory_is_charged_in_full(
    tuple_bytes: int,
    map_capacity: int,
    reverse_capacity: int,
    more: int,
)
    requires
        0 <= tuple_bytes,
        0 <= map_capacity,
        0 <= reverse_capacity,
        0 <= more,
    ensures
        ({
            let total = map_capacity * (tuple_bytes + 20) + reverse_capacity * tuple_bytes;
            memory_bytes_model(tuple_bytes, map_capacity, reverse_capacity) == if total <= u64::MAX
                && tuple_bytes + 20 <= usize::MAX {
                Ok::<u64, StoreFailure>(total as u64)
            } else {
                Err::<u64, StoreFailure>(StoreFailure::AccountingOverflow)
            }
        }),
        memory_bytes_model(tuple_bytes, map_capacity + more, reverse_capacity) matches Ok(b) ==> (
        memory_bytes_model(tuple_bytes, map_capacity, reverse_capacity) matches Ok(a) && a <= b),
        memory_bytes_model(tuple_bytes, map_capacity, reverse_capacity + more) matches Ok(b) ==> (
        memory_bytes_model(tuple_bytes, map_capacity, reverse_capacity) matches Ok(a) && a <= b),
{
    assert(0 <= map_capacity * (tuple_bytes + 20) <= (map_capacity + more) * (tuple_bytes + 20))
        by (nonlinear_arith)
        requires
            0 <= tuple_bytes,
            0 <= map_capacity,
            0 <= more,
    ;
    assert(0 <= reverse_capacity * tuple_bytes <= (reverse_capacity + more) * tuple_bytes)
        by (nonlinear_arith)
        requires
            0 <= tuple_bytes,
            0 <= reverse_capacity,
            0 <= more,
    ;
}

/// As long as there are ids left, the next state has the number of those before it as its
/// id. The reserved id is never given out.
pub proof fn law_ids_are_counted(len: int)
    requires
        0 <= len,
    ensures
        next_id_model(len) matches Ok(id) ==> id == len && id < NO_STATE_ID,
        len < NO_STATE_ID ==> next_id_model(len) is Ok,
        len == NO_STATE_ID ==> next_id_model(len) == Err::<StateId, StoreFailure>(
            StoreFailure::StateCountReachedReserved,
        ),
        len > NO_STATE_ID ==> next_id_model(len) == Err::<StateId, StoreFailure>(
            StoreFailure::StateCountExceedsIds,
        ),
{
}

/// The number of slots to begin with is a power of two and no less than the least number;
/// ten times the entries are at most seven times the slots; and half as many slots would
/// be too few, unless it is the least number. There is such a number unless it would not
/// fit.
pub proof fn law_initial_slots_are_enough(len: int)
    requires
        0 <= len,
    ensures
        initial_slots_model(len) matches Ok(slots) ==> {
            &&& power_of_two(slots)
            &&& slots >= 16
            &&& 10 * len <= 7 * slots
            &&& slots == 16 || 20 * len > 7 * slots
        },
        20 * len <= 7 * u64::MAX ==> initial_slots_model(len) is Ok,
        initial_slots_model(len) matches Err(e) ==> e == StoreFailure::SlotCountOverflow,
{
    let required = required_slots(len);
    lemma_doubled_below(required, INITIAL_SLOT_COUNT as int);
    assert(16u64 & 15u64 == 0) by (bit_vector);
    if doubled_until(required, 16) <= u64::MAX {
        lemma_doubled_power(required, 16);
        lemma_doubled_minimal(required, 16);
    }
}

/// Doubling stops as soon as there is enough.
proof fn lemma_doubled_minimal(n: int, p: int)
    requires
        p > 0,
    ensures
        doubled_until(n, p) == p || (doubled_until(n, p) % 2 == 0 && doubled_until(n, p) < 2 * n),
    decreases (if p < n {
        n - p
    } else {
        0
    }),
{
    if p < n {
        lemma_doubled_minimal(n, 2 * p);
    }
}

/// One more entry needs more slots exactly when ten times the entries would then exceed
/// seven times the slots. Twice as many slots are then enough, if they were enough for the
/// entries that are there.
pub proof fn law_growth_is_needed_when_loaded(len: int, slots: int)
    requires
        0 <= len,
        0 <= slots,
        10 * (len + 1) <= u64::MAX,
        14 * slots <= u64::MAX,
    ensures
        needs_growth_model(len, slots) == Ok::<bool, StoreFailure>(10 * (len + 1) > 7 * slots),
        slots >= 16 && 10 * len <= 7 * slots ==> needs_growth_model(len, 2 * slots) == Ok::<
            bool,
            StoreFailure,
        >(false),
{
}

/// A table that begins with enough slots for `len` entries does not grow before
/// it has taken all of them.
pub proof fn law_initial_slots_suffice(len: int, taken: int)
    requires
        0 <= taken < len,
        initial_slots_model(len) is Ok,
    ensures
        needs_growth_model(taken, initial_slots_model(len)->Ok_0 as int) != Ok::<
            bool,
            StoreFailure,
        >(true),
{
    lemma_doubled_below(required_slots(len), INITIAL_SLOT_COUNT as int);
}

} // verus!
