//! Caches of lazily computed states.

use rustfst::fst::tr::{Tr, TrsVec};
use rustfst::lazy::cache::{CacheStatus, FstCache};
use rustfst::lazy::null_cache::NullCache;
use rustfst::lazy::unsync_hash_map_cache::UnsyncHashMapCache;
use rustfst::lazy::unsync_vec_cache::UnsyncVecCache;
use rustfst::semirings::semiring::Semiring;
use rustfst::semirings::tropical::TropicalWeight;

// Every read is a miss and every write is dropped: the cache never surfaces
// a value, which is exactly what the single-touch materialization relies on.
#[test]
fn null_cache_never_stores() {
    let mut cache = NullCache::<TropicalWeight>::default();
    assert!(cache.get_start().is_not_computed());
    cache.insert_start(Some(1));
    assert!(cache.get_start().is_not_computed());

    let mut trs = TrsVec::<TropicalWeight>::new();
    trs.push(Tr::new(0, 0, TropicalWeight::one(), 3));
    cache.insert_trs(0, trs);
    assert!(cache.get_trs(0).is_not_computed());
    assert_eq!(cache.num_trs(0), None);
    assert_eq!(cache.num_input_epsilons(0), None);
    assert_eq!(cache.num_output_epsilons(0), None);

    cache.insert_final_weight(0, Some(TropicalWeight::one()));
    assert!(cache.get_final_weight(0).is_not_computed());

    assert_eq!(cache.num_known_states(), 0);
    assert_eq!(cache.compute_num_known_trs(), 0);
    assert_eq!(cache.len_trs(), 0);
    assert_eq!(cache.len_final_weights(), 0);
}

fn three_trs() -> TrsVec<TropicalWeight> {
    let mut trs = TrsVec::<TropicalWeight>::new();
    trs.push(Tr::new(0, 1, TropicalWeight::one(), 2));
    trs.push(Tr::new(1, 0, TropicalWeight::one(), 0));
    trs.push(Tr::new(0, 0, TropicalWeight::one(), 10));
    trs
}

#[test]
fn unsync_hash_map_cache_roundtrips() {
    let trs = three_trs();

    let mut cache = UnsyncHashMapCache::default();
    assert!(cache.get_start().is_not_computed());
    cache.insert_start(Some(1));
    assert_eq!(cache.get_start(), CacheStatus::Computed(Some(1)));

    assert!(cache.get_trs(2).is_not_computed());
    cache.insert_trs(2, trs.shallow_clone());
    assert_eq!(cache.num_trs(2), Some(3));
    // input epsilons = trs with ilabel 0: tr0 and tr2 -> 2.
    // output epsilons = trs with olabel 0: tr1 and tr2 -> 2.
    assert_eq!(cache.num_input_epsilons(2), Some(2));
    assert_eq!(cache.num_output_epsilons(2), Some(2));

    cache.insert_final_weight(0, Some(TropicalWeight::one()));
    assert_eq!(
        cache.get_final_weight(0),
        CacheStatus::Computed(Some(TropicalWeight::one()))
    );
    assert!(cache.get_final_weight(5).is_not_computed());

    assert_eq!(cache.len_trs(), 1);
    assert_eq!(cache.len_final_weights(), 1);
    assert_eq!(cache.compute_num_known_trs(), 3);
    // num_known_states: max nextstate+1 seen in trs (10 -> 11) and start (1 -> 2).
    assert_eq!(cache.num_known_states(), 11);
}

// The materialization loop reads a state's trs, then (separately) its final
// weight; neither read holds on to the cache.
#[test]
fn unsync_hash_map_cache_no_borrow_conflict() {
    let mut cache = UnsyncHashMapCache::<TropicalWeight>::default();
    let mut trs = TrsVec::<TropicalWeight>::new();
    trs.push(Tr::new(1, 1, TropicalWeight::one(), 1));
    cache.insert_trs(0, trs);
    let read = cache.get_trs(0);
    let _fw = cache.get_final_weight(0);
    cache.insert_final_weight(0, Some(TropicalWeight::one()));
    match read {
        CacheStatus::Computed(trs) => assert_eq!(trs.len(), 1),
        CacheStatus::NotComputed => panic!("the transitions were stored"),
    }
}

#[test]
fn unsync_vec_cache_roundtrips() {
    let trs = three_trs();

    let mut cache = UnsyncVecCache::default();
    assert!(cache.get_start().is_not_computed());
    cache.insert_start(Some(1));
    assert_eq!(cache.get_start(), CacheStatus::Computed(Some(1)));

    assert!(cache.get_trs(2).is_not_computed());
    cache.insert_trs(2, trs.shallow_clone());
    assert_eq!(cache.num_trs(2), Some(3));
    // input epsilons = trs with ilabel 0: tr0 and tr2 -> 2.
    // output epsilons = trs with olabel 0: tr1 and tr2 -> 2.
    assert_eq!(cache.num_input_epsilons(2), Some(2));
    assert_eq!(cache.num_output_epsilons(2), Some(2));

    cache.insert_final_weight(0, Some(TropicalWeight::one()));
    assert_eq!(
        cache.get_final_weight(0),
        CacheStatus::Computed(Some(TropicalWeight::one()))
    );
    assert!(cache.get_final_weight(5).is_not_computed());

    // sparse insert: state 2's trs left index 0/1 NotComputed
    assert!(cache.get_trs(0).is_not_computed());
    assert_eq!(cache.compute_num_known_trs(), 3);
    assert_eq!(cache.num_known_states(), 11);
}

#[test]
fn unsync_vec_cache_no_borrow_conflict() {
    let mut cache = UnsyncVecCache::<TropicalWeight>::default();
    let mut trs = TrsVec::<TropicalWeight>::new();
    trs.push(Tr::new(1, 1, TropicalWeight::one(), 1));
    cache.insert_trs(0, trs);
    let read = cache.get_trs(0);
    let _fw = cache.get_final_weight(0);
    cache.insert_final_weight(0, Some(TropicalWeight::one()));
    match read {
        CacheStatus::Computed(trs) => assert_eq!(trs.len(), 1),
        CacheStatus::NotComputed => panic!("the transitions were stored"),
    }
}

#[test]
fn places_of_the_two_tables() {
    let mut by_hash = UnsyncHashMapCache::<TropicalWeight>::default();
    let mut by_index = UnsyncVecCache::<TropicalWeight>::default();
    by_hash.insert_trs(7, three_trs());
    by_index.insert_trs(7, three_trs());
    by_hash.insert_final_weight(3, None);
    by_index.insert_final_weight(3, None);
    // The hash table counts entries; the vector counts places up to the last one.
    assert_eq!((by_hash.len_trs(), by_hash.len_final_weights()), (1, 1));
    assert_eq!((by_index.len_trs(), by_index.len_final_weights()), (8, 4));
    assert_eq!(by_index.get_final_weight(3), CacheStatus::Computed(None));
    assert!(by_index.get_final_weight(2).is_not_computed());
    // A state without transitions is known, but leads nowhere.
    by_hash.insert_trs(9, TrsVec::new());
    assert_eq!(by_hash.num_known_states(), 11);
    assert_eq!(by_hash.num_trs(9), Some(0));
    // A second insertion replaces the first.
    by_index.insert_trs(7, TrsVec::new());
    assert_eq!(by_index.num_trs(7), Some(0));
    assert_eq!(by_index.compute_num_known_trs(), 0);
}

#[test]
fn status_tells_whether_a_value_is_there() {
    let there: CacheStatus<u8> = CacheStatus::Computed(1);
    let missing: CacheStatus<u8> = CacheStatus::NotComputed;
    assert!(there.is_computed() && !there.is_not_computed());
    assert!(missing.is_not_computed() && !missing.is_computed());
}
