//! A table of tuples in memory.

use crate::compose::accounting::{
    estimated_memory_bytes, memory_bytes_model, prospective_hash_capacity,
    prospective_reverse_capacity,
};
use crate::compose::failure::StoreFailure;
use crate::compose::tuple::StateTuple;
use crate::fst::tr::{StateId, NO_STATE_ID};
use std::collections::HashMap;
use vstd::prelude::*;

verus! {

broadcast use vstd::std_specs::hash::group_hash_axioms;

/// The result of `HashMap::capacity`: how many entries the table has room for.
/// How much room a table has is up to its implementation, so nothing is claimed.
#[verifier::external_body]
fn map_capacity(map: &HashMap<u64, StateId>) -> (r: usize)
{
    map.capacity()
}

/// The result of `HashMap::try_reserve` for one more entry: whether room was made.
/// The entries stay what they were.
#[verifier::external_body]
fn map_try_reserve_one(map: &mut HashMap<u64, StateId>) -> (r: bool)
    ensures
        final(map)@ == old(map)@,
{
    map.try_reserve(1).is_ok()
}

/// The result of `Vec::capacity`: how many entries the list has room for, which is
/// at least as many as it has.
#[verifier::external_body]
fn list_capacity<T>(list: &Vec<T>) -> (r: usize)
    ensures
        r >= list@.len(),
{
    list.capacity()
}

/// The result of `Vec::try_reserve_exact` for one more entry: whether room was
/// made. The entries stay what they were.
#[verifier::external_body]
fn list_try_reserve_one<T>(list: &mut Vec<T>) -> (r: bool)
    ensures
        final(list)@ == old(list)@,
{
    list.try_reserve_exact(1).is_ok()
}

/// Whether tables with the given room stay within `cap` bytes.
pub open spec fn within_model(
    tuple_bytes: int,
    map_capacity: int,
    list_capacity: int,
    cap: u64,
) -> Result<bool, StoreFailure> {
    match memory_bytes_model(tuple_bytes, map_capacity, list_capacity) {
        Err(f) => Err(f),
        Ok(bytes) => Ok(bytes <= cap),
    }
}

/// Whether tables with the given room stay within `cap` bytes.
pub fn within_cap(tuple_bytes: usize, map_capacity: usize, list_capacity: usize, cap: u64) -> (r:
    Result<bool, StoreFailure>)
    ensures
        r == within_model(
            tuple_bytes as int,
            map_capacity as int,
            list_capacity as int,
            cap,
        ),
{
    match estimated_memory_bytes(tuple_bytes, map_capacity, list_capacity) {
        Err(f) => Err(f),
        Ok(bytes) => Ok(bytes <= cap),
    }
}

/// Whether the two tables stay within `cap` bytes when one more entry is added,
/// judged by how large they are and how much room they have.
pub open spec fn room_model(
    tuple_bytes: int,
    map_len: int,
    map_capacity: int,
    list_len: int,
    list_capacity: int,
    cap: u64,
) -> Result<bool, StoreFailure> {
    let map_next = if map_len < map_capacity {
        map_capacity
    } else if map_capacity == 0 {
        3
    } else if map_capacity * 2 + 1 > usize::MAX {
        usize::MAX as int
    } else {
        map_capacity * 2 + 1
    };
    let list_next = if list_len < list_capacity {
        list_capacity
    } else if list_len + 1 > usize::MAX {
        usize::MAX as int
    } else {
        list_len + 1
    };
    within_model(tuple_bytes, map_next, list_next, cap)
}

/// What is found out about the two tables while room is made for one more entry:
/// how much room they have before, whether either could be enlarged, and how much
/// room they have then.
pub struct RoomSeen {
    pub map_room: usize,
    pub list_room: usize,
    pub map_enlarged: bool,
    pub list_enlarged: bool,
    pub map_room_after: usize,
    pub list_room_after: usize,
}

/// Whether there is room for one more entry within `cap` bytes, given what was
/// found out. Tables that would not stay within the cap are not enlarged.
pub open spec fn reserve_model(
    tuple_bytes: int,
    map_len: int,
    list_len: int,
    cap: u64,
    seen: RoomSeen,
) -> Result<bool, StoreFailure> {
    match room_model(
        tuple_bytes,
        map_len,
        seen.map_room as int,
        list_len,
        seen.list_room as int,
        cap,
    ) {
        Err(f) => Err(f),
        Ok(false) => Ok(false),
        Ok(true) => if seen.map_enlarged && seen.list_enlarged {
            within_model(
                tuple_bytes,
                seen.map_room_after as int,
                seen.list_room_after as int,
                cap,
            )
        } else {
            Err(StoreFailure::Reservation)
        },
    }
}

/// Whether a table with the given tuples may answer so when it is asked for room for
/// one more within `cap` bytes: it does with some room that the two tables have.
pub open spec fn possible_verdict<T: StateTuple>(
    tuples: Seq<T::M>,
    cap: u64,
    verdict: Result<bool, StoreFailure>,
) -> bool {
    exists|seen: RoomSeen|
        {
            &&& seen.list_room >= tuples.len()
            &&& seen.list_room_after >= tuples.len()
            &&& verdict == #[trigger] reserve_model(
                vstd::layout::size_of::<T>() as int,
                tuples.len() as int,
                tuples.len() as int,
                cap,
                seen,
            )
        }
}

/// Whether the two tables stay within `cap` bytes when one more entry is added.
pub fn room_for_one(
    tuple_bytes: usize,
    map_len: usize,
    map_capacity: usize,
    list_len: usize,
    list_capacity: usize,
    cap: u64,
) -> (r: Result<bool, StoreFailure>)
    ensures
        r == room_model(
            tuple_bytes as int,
            map_len as int,
            map_capacity as int,
            list_len as int,
            list_capacity as int,
            cap,
        ),
{
    let map_next: usize = prospective_hash_capacity(map_len, map_capacity);
    let list_next: usize = prospective_reverse_capacity(list_len, list_capacity);
    within_cap(tuple_bytes, map_next, list_next, cap)
}

/// The mathematical value of a list of tuples.
pub open spec fn tuples_model<T: StateTuple>(tuples: Seq<T>) -> Seq<T::M> {
    Seq::new(tuples.len(), |i: int| tuples[i].model())
}

/// The key that a tuple with the given hash has at the given place: the keys from the
/// hash on, around the end of the range.
spec fn key_at(hash: u64, place: int) -> u64 {
    ((hash + place) % 0x1_0000_0000_0000_0000) as u64
}

/// The first `n` keys from a hash on.
spec fn keys_from(hash: u64, n: int) -> Set<u64>
    decreases n,
{
    if n <= 0 {
        Set::empty()
    } else {
        keys_from(hash, n - 1).insert(key_at(hash, n - 1))
    }
}

/// The keys from a hash on are all different.
proof fn lemma_keys_from(hash: u64, n: int)
    requires
        0 <= n <= u32::MAX,
    ensures
        keys_from(hash, n).finite(),
        keys_from(hash, n).len() == n,
        forall|k: u64|
            keys_from(hash, n).contains(k) ==> exists|c: int|
                0 <= c < n && k == #[trigger] key_at(hash, c),
    decreases n,
{
    if n > 0 {
        lemma_keys_from(hash, n - 1);
        let last = key_at(hash, n - 1);
        if keys_from(hash, n - 1).contains(last) {
            let c = choose|c: int| 0 <= c < n - 1 && last == #[trigger] key_at(hash, c);
            assert(false);
        }
        assert forall|k: u64| keys_from(hash, n).contains(k) implies exists|c: int|
            0 <= c < n && k == #[trigger] key_at(hash, c) by {
            if k == last {
                assert(k == key_at(hash, n - 1));
            } else {
                let c = choose|c: int| 0 <= c < n - 1 && k == #[trigger] key_at(hash, c);
                assert(k == key_at(hash, c));
            }
        }
    }
}

/// Of more keys than there are entries, one is free.
proof fn lemma_free_key(map: Map<u64, StateId>, hash: u64, n: int)
    requires
        map.dom().finite(),
        map.len() < n <= u32::MAX,
    ensures
        exists|c: int| 0 <= c < n && !map.contains_key(#[trigger] key_at(hash, c)),
{
    if forall|c: int| 0 <= c < n ==> map.contains_key(#[trigger] key_at(hash, c)) {
        lemma_keys_from(hash, n);
        assert(keys_from(hash, n).subset_of(map.dom()));
        vstd::set_lib::lemma_len_subset(keys_from(hash, n), map.dom());
    }
}

/// Whether the tuple `id` has the key at `place`, and the keys before it are taken.
spec fn placed(map: Map<u64, StateId>, hash: u64, place: int, id: int) -> bool {
    &&& map.contains_key(key_at(hash, place)) && map[key_at(hash, place)] == id
    &&& forall|d: int| 0 <= d < place ==> map.contains_key(#[trigger] key_at(hash, d))
}

/// Names tuples in the order in which they come.
#[derive(Debug)]
pub struct MemoryStateStore<T> {
    id_to_tuple: Vec<T>,
    /// The id of each tuple, under the first key from its hash on that was free. An
    /// entry is as large as a tuple of a composition and its id are together.
    key_to_id: HashMap<u64, StateId>,
}

impl<T: StateTuple> MemoryStateStore<T> {
    /// The tuples, in the order of their ids.
    pub closed spec fn tuples(&self) -> Seq<T::M> {
        tuples_model(self.id_to_tuple@)
    }

    /// No tuple is there twice, and each has one entry, found from its hash on.
    pub closed spec fn inv(&self) -> bool {
        &&& self.tuples().no_duplicates()
        &&& self.tuples().len() <= NO_STATE_ID
        &&& self.key_to_id@.dom().finite()
        &&& self.key_to_id@.len() == self.tuples().len()
        &&& forall|i: int|
            0 <= i < self.tuples().len() ==> self.has_place(#[trigger] self.tuples()[i], i)
        &&& forall|k: u64| #[trigger]
            self.key_to_id@.contains_key(k) ==> self.key_to_id@[k] < self.tuples().len()
    }

    /// Whether the tuple `i` stands at some place from its hash on.
    spec fn has_place(&self, tuple: T::M, i: int) -> bool {
        exists|c: int|
            0 <= c < self.tuples().len() && #[trigger] placed(
                self.key_to_id@,
                T::hash_model(tuple),
                c,
                i,
            )
    }

    /// A table without tuples.
    pub fn new() -> (r: Self)
        ensures
            r.inv(),
            r.tuples() == Seq::<T::M>::empty(),
    {
        let r = MemoryStateStore { id_to_tuple: Vec::new(), key_to_id: HashMap::new() };
        assert(r.tuples() =~= Seq::<T::M>::empty());
        r
    }

    pub fn len(&self) -> (r: usize)
        ensures
            r == self.tuples().len(),
    {
        self.id_to_tuple.len()
    }

    /// What is known of the table from its invariant.
    pub proof fn lemma_inv(&self)
        requires
            self.inv(),
        ensures
            self.tuples().no_duplicates(),
            self.tuples().len() <= NO_STATE_ID,
    {
    }

    /// The tuple of a state, if there is such a state.
    pub fn get(&self, state: StateId) -> (r: Option<&T>)
        ensures
            match r {
                Some(t) => state < self.tuples().len() && t.model() == self.tuples()[state as int],
                None => state >= self.tuples().len(),
            },
    {
        if (state as usize) < self.id_to_tuple.len() {
            Some(&self.id_to_tuple[state as usize])
        } else {
            None
        }
    }

    /// A copy of the tuple at a position.
    pub fn copy_at(&self, index: usize) -> (r: T)
        requires
            index < self.tuples().len(),
        ensures
            r.model() == self.tuples()[index as int],
    {
        self.id_to_tuple[index].duplicate()
    }

    /// The id of a tuple, if it has one.
    pub fn find(&self, tuple: &T) -> (r: Option<StateId>)
        requires
            self.inv(),
        ensures
            match r {
                Some(id) => id < self.tuples().len() && self.tuples()[id as int] == tuple.model(),
                None => !self.tuples().contains(tuple.model()),
            },
    {
        let h: u64 = tuple.hash_tuple();
        let n: StateId = self.id_to_tuple.len() as StateId;
        for place in 0..n
            invariant
                self.inv(),
                n == self.tuples().len(),
                h == T::hash_model(tuple.model()),
                forall|c: int|
                    0 <= c < place ==> {
                        let key = #[trigger] key_at(h, c);
                        self.key_to_id@.contains_key(key)
                            && self.tuples()[self.key_to_id@[key] as int] != tuple.model()
                    },
        {
            let key: u64 = h.wrapping_add(place as u64);
            match self.key_to_id.get(&key) {
                None => {
                    proof {
                        self.lemma_not_found(tuple.model(), place as int);
                    }
                    return None;
                },
                Some(id) => {
                    assert(self.key_to_id@.contains_key(key_at(h, place as int)));
                    if self.id_to_tuple[*id as usize].same(tuple) {
                        return Some(*id);
                    }
                },
            }
        }
        proof {
            self.lemma_not_found(tuple.model(), n as int);
        }
        None
    }

    /// A tuple that is at none of the places taken from its hash on is not there.
    proof fn lemma_not_found(&self, tuple: T::M, taken: int)
        requires
            self.inv(),
            0 <= taken <= self.tuples().len(),
            forall|c: int|
                0 <= c < taken ==> {
                    let key = #[trigger] key_at(T::hash_model(tuple), c);
                    self.key_to_id@.contains_key(key) && self.tuples()[self.key_to_id@[key] as int]
                        != tuple
                },
            taken < self.tuples().len() ==> !self.key_to_id@.contains_key(
                key_at(T::hash_model(tuple), taken),
            ),
        ensures
            !self.tuples().contains(tuple),
    {
        let h = T::hash_model(tuple);
        if self.tuples().contains(tuple) {
            let i = self.tuples().index_of(tuple);
            assert(self.has_place(self.tuples()[i], i));
            let c = choose|c: int|
                0 <= c < self.tuples().len() && #[trigger] placed(self.key_to_id@, h, c, i);
            assert(placed(self.key_to_id@, h, c, i));
            if c < taken {
                assert(self.key_to_id@[key_at(h, c)] == i);
            } else {
                assert(self.key_to_id@.contains_key(key_at(h, taken)));
            }
        }
    }

    /// Gives the next id to a tuple that has none.
    pub fn add(&mut self, tuple: T) -> (r: StateId)
        requires
            old(self).inv(),
            old(self).tuples().len() < NO_STATE_ID,
            !old(self).tuples().contains(tuple.model()),
        ensures
            final(self).inv(),
            final(self).tuples() == old(self).tuples().push(tuple.model()),
            r == old(self).tuples().len(),
    {
        let ghost before = self.tuples();
        let ghost map = self.key_to_id@;
        let ghost added = tuple.model();
        let n: StateId = self.id_to_tuple.len() as StateId;
        let h: u64 = tuple.hash_tuple();
        let mut place: StateId = 0;
        let mut key: u64 = h;
        while place < n && self.key_to_id.contains_key(&key)
            invariant
                self.inv(),
                self.tuples() == before,
                self.key_to_id@ == map,
                n == before.len(),
                place <= n < NO_STATE_ID,
                key == key_at(h, place as int),
                forall|c: int|
                    0 <= c < place ==> map.contains_key(#[trigger] key_at(h, c)),
            decreases n - place,
        {
            place += 1;
            key = h.wrapping_add(place as u64);
        }
        proof {
            lemma_free_key(map, h, n + 1);
            let c = choose|c: int| 0 <= c < n + 1 && !map.contains_key(#[trigger] key_at(h, c));
            assert(!map.contains_key(key));
        }
        self.key_to_id.insert(key, n);
        self.id_to_tuple.push(tuple);
        proof {
            let after = self.tuples();
            let grown = self.key_to_id@;
            assert(after =~= before.push(added));
            assert(grown == map.insert(key, n));
            assert forall|i: int, j: int|
                0 <= i < after.len() && 0 <= j < after.len() && i != j implies after[i]
                != after[j] by {
                if i == n {
                    assert(before[j] != added);
                } else if j == n {
                    assert(before[i] != added);
                }
            }
            assert forall|i: int| 0 <= i < after.len() implies self.has_place(
                #[trigger] after[i],
                i,
            ) by {
                if i == n {
                    assert(placed(grown, h, place as int, i));
                } else {
                    assert(after[i] == before[i]);
                    assert(old(self).has_place(old(self).tuples()[i], i));
                    let g = T::hash_model(after[i]);
                    let c = choose|c: int|
                        0 <= c < before.len() && #[trigger] placed(map, g, c, i);
                    assert(placed(map, g, c, i));
                    assert(placed(grown, g, c, i));
                }
            }
        }
        n
    }

    /// Makes room for one more tuple, if the two tables stay within `cap` bytes.
    ///
    /// They are judged twice: by the room they are expected to need, before they
    /// are enlarged, and by the room they have then. How much that is, and whether
    /// they can be enlarged, is not up to this crate; `room_for_one` and
    /// `within_cap` say how either judgement comes out.
    pub fn reserve_one_within(&mut self, cap: u64) -> (r: Result<bool, StoreFailure>)
        requires
            old(self).inv(),
        ensures
            final(self).inv(),
            final(self).tuples() == old(self).tuples(),
            possible_verdict::<T>(old(self).tuples(), cap, r),
            r == Ok::<bool, StoreFailure>(true) ==> {
                &&& old(self).tuples().len() < NO_STATE_ID ==> (old(self).tuples().len() + 1)
                    * vstd::layout::size_of::<T>() <= cap
                &&& cap > 0
            },
            r == Ok::<bool, StoreFailure>(false) ==> cap < u64::MAX,
            r matches Err(f) ==> f == StoreFailure::AccountingOverflow || f
                == StoreFailure::Reservation && cap > 0,
    {
        let tuple_bytes: usize = core::mem::size_of::<T>();
        let map_len: usize = self.key_to_id.len();
        let list_len: usize = self.id_to_tuple.len();
        let map_room: usize = map_capacity(&self.key_to_id);
        let list_room: usize = list_capacity(&self.id_to_tuple);
        let ghost mut seen = RoomSeen {
            map_room,
            list_room,
            map_enlarged: false,
            list_enlarged: false,
            map_room_after: 0,
            list_room_after: list_len,
        };
        proof {
            if room_model(
                tuple_bytes as int,
                map_len as int,
                map_room as int,
                list_len as int,
                list_room as int,
                cap,
            ) == Ok::<bool, StoreFailure>(true) {
                lemma_room_charges(
                    tuple_bytes as int,
                    map_len as int,
                    map_room as int,
                    list_len as int,
                    list_room as int,
                    cap,
                );
            }
        }
        let expected: Result<bool, StoreFailure> = room_for_one(
            tuple_bytes,
            map_len,
            map_room,
            list_len,
            list_room,
            cap,
        );
        assert(expected != Ok::<bool, StoreFailure>(true) ==> expected == reserve_model(
            tuple_bytes as int,
            map_len as int,
            list_len as int,
            cap,
            seen,
        ));
        match expected {
            Err(f) => {
                return Err(f);
            },
            Ok(fits) => {
                if !fits {
                    return Ok(false);
                }
            },
        }
        assert(Err::<bool, StoreFailure>(StoreFailure::Reservation) == reserve_model(
            tuple_bytes as int,
            map_len as int,
            list_len as int,
            cap,
            seen,
        ));
        if !map_try_reserve_one(&mut self.key_to_id) {
            return Err(StoreFailure::Reservation);
        }
        if !list_try_reserve_one(&mut self.id_to_tuple) {
            return Err(StoreFailure::Reservation);
        }
        let map_room_after: usize = map_capacity(&self.key_to_id);
        let list_room_after: usize = list_capacity(&self.id_to_tuple);
        proof {
            seen = RoomSeen {
                map_room,
                list_room,
                map_enlarged: true,
                list_enlarged: true,
                map_room_after,
                list_room_after,
            };
        }
        let r: Result<bool, StoreFailure> = within_cap(
            tuple_bytes,
            map_room_after,
            list_room_after,
            cap,
        );
        assert(r == reserve_model(
            tuple_bytes as int,
            map_len as int,
            list_len as int,
            cap,
            seen,
        ));
        r
    }
}

/// Tables that stay within the cap have room for the list at least.
proof fn lemma_room_charges(
    tuple_bytes: int,
    map_len: int,
    map_capacity: int,
    list_len: int,
    list_capacity: int,
    cap: u64,
)
    requires
        0 <= tuple_bytes,
        0 <= map_len,
        0 <= map_capacity,
        0 <= list_len <= list_capacity,
        room_model(tuple_bytes, map_len, map_capacity, list_len, list_capacity, cap) == Ok::<
            bool,
            StoreFailure,
        >(true),
    ensures
        list_len < usize::MAX ==> (list_len + 1) * tuple_bytes <= cap,
        cap > 0,
{
    let map_next = if map_len < map_capacity {
        map_capacity
    } else if map_capacity == 0 {
        3
    } else if map_capacity * 2 + 1 > usize::MAX {
        usize::MAX as int
    } else {
        map_capacity * 2 + 1
    };
    let list_next = if list_len < list_capacity {
        list_capacity
    } else if list_len + 1 > usize::MAX {
        usize::MAX as int
    } else {
        list_len + 1
    };
    if list_len < usize::MAX {
        assert(list_next * tuple_bytes >= (list_len + 1) * tuple_bytes && (list_len + 1)
            * tuple_bytes >= 0) by (nonlinear_arith)
            requires
                list_next >= list_len + 1,
                tuple_bytes >= 0,
                list_len >= 0,
        ;
    }
    assert(list_next * tuple_bytes >= 0) by (nonlinear_arith)
        requires
            list_next >= 0,
            tuple_bytes >= 0,
    ;
    assert(map_next * (tuple_bytes + 20) >= 20) by (nonlinear_arith)
        requires
            map_next >= 1,
            tuple_bytes >= 0,
    ;
    assert(tuple_bytes + 4 + 16 == tuple_bytes + 20);
}

} // verus!
