//! What it means that there is room in memory for one more tuple.

use crate::compose::accounting::memory_bytes_model;
use crate::compose::failure::StoreFailure;
use crate::compose::memory_store::{reserve_model, room_model, within_model, RoomSeen};
use vstd::prelude::*;

verus! {

/// There is room for one more entry only if the entries that there are then, and all that
/// is charged for them, stay within the cap.
pub proof fn law_room_counts_one_more(
    tuple_bytes: int,
    map_len: int,
    map_capacity: int,
    list_len: int,
    list_capacity: int,
    cap: u64,
)
    requires
        0 <= tuple_bytes,
        0 <= map_len <= map_capacity,
        0 <= list_len <= list_capacity,
        map_len < usize::MAX,
        list_len < usize::MAX,
    ensures
        room_model(tuple_bytes, map_len, map_capacity, list_len, list_capacity, cap) == Ok::<
            bool,
            StoreFailure,
        >(true) ==> (map_len + 1) * (tuple_bytes + 20) + (list_len + 1) * tuple_bytes <= cap,
{
    let map_next = if map_len < map_capacity {
        map_capacity
    } else if map_capacity == 0 {
        3
    } else if map_capacity * 2 + 1 > usize::MAX {
        usize::MAX as int
    } else {
        map_capacity * 2 + 1
    };
    let list_next = if list_len < list_capacity {
        list_capacity
    } else if list_len + 1 > usize::MAX {
        usize::MAX as int
    } else {
        list_len + 1
    };
    assert(map_next >= map_len + 1);
    assert(list_next >= list_len + 1);
    assert(map_next * (tuple_bytes + 20) >= (map_len + 1) * (tuple_bytes + 20)) by (nonlinear_arith)
        requires
            map_next >= map_len + 1,
            tuple_bytes >= 0,
    ;
    assert(list_next * tuple_bytes >= (list_len + 1) * tuple_bytes) by (nonlinear_arith)
        requires
            list_next >= list_len + 1,
            tuple_bytes >= 0,
    ;
    assert(map_next * (tuple_bytes + 20) >= 0 && list_next * tuple_bytes >= 0) by (nonlinear_arith)
        requires
            map_next >= 0,
            list_next >= 0,
            tuple_bytes >= 0,
    ;
    assert(tuple_bytes + 4 + 16 == tuple_bytes + 20);
}

/// When room was made, what is charged for the tables as they then are stays within the
/// cap. When it was not, what would be charged for them, before or after, exceeds it. It is
/// a failure that a table could not be enlarged, or that the charge cannot be counted.
pub proof fn law_room_keeps_cap(
    tuple_bytes: int,
    map_len: int,
    list_len: int,
    cap: u64,
    seen: RoomSeen,
)
    ensures
        ({
            let after = memory_bytes_model(
                tuple_bytes,
                seen.map_room_after as int,
                seen.list_room_after as int,
            );
            let before = room_model(
                tuple_bytes,
                map_len,
                seen.map_room as int,
                list_len,
                seen.list_room as int,
                cap,
            );
            match reserve_model(tuple_bytes, map_len, list_len, cap, seen) {
                Ok(true) => before == Ok::<bool, StoreFailure>(true) && (after matches Ok(bytes)
                    && bytes <= cap) && seen.map_enlarged && seen.list_enlarged,
                Ok(false) => before == Ok::<bool, StoreFailure>(false) || (after matches Ok(bytes)
                    && bytes > cap),
                Err(f) => (f == StoreFailure::Reservation && !(seen.map_enlarged
                    && seen.list_enlarged)) || f == StoreFailure::AccountingOverflow,
            }
        }),
{
}

/// More memory never makes less room: what fits within a cap fits within a larger one, and
/// within the largest there is everything fits that can be counted.
pub proof fn law_larger_cap_makes_room(
    tuple_bytes: int,
    map_len: int,
    list_len: int,
    cap: u64,
    more: u64,
    seen: RoomSeen,
)
    requires
        cap <= more,
    ensures
        reserve_model(tuple_bytes, map_len, list_len, cap, seen) == Ok::<bool, StoreFailure>(true)
            ==> reserve_model(tuple_bytes, map_len, list_len, more, seen) == Ok::<
            bool,
            StoreFailure,
        >(true),
        reserve_model(tuple_bytes, map_len, list_len, u64::MAX, seen) != Ok::<bool, StoreFailure>(
            false,
        ),
        within_model(tuple_bytes, map_len, list_len, cap) == Ok::<bool, StoreFailure>(true)
            ==> within_model(tuple_bytes, map_len, list_len, more) == Ok::<bool, StoreFailure>(
            true,
        ),
{
}

} // verus!
