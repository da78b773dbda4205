//! Machines: building, trimming, distances, pruning, lazy materialization.

use rustfst::connect::connect;
use rustfst::determinize::determinize_fsa_op::DeterminizeFsaOp;
use rustfst::determinize::divisors::DefaultCommonDivisor;
use rustfst::error::{ComputeTrLimitExceeded, FstError};
use rustfst::fst::properties::{
    FstProperties, ACCEPTOR, I_EPSILONS, NOT_ACCEPTOR, NO_I_EPSILONS, NULL_PROPERTIES, UNWEIGHTED,
    WEIGHTED,
};
use rustfst::fst::symbol_table::SymbolTable;
use rustfst::fst::tr::{StateId, Tr};
use rustfst::fst::vector_fst::VectorFst;
use rustfst::lazy::cache::FstCache;
use rustfst::lazy::fst_op::FstOp;
use rustfst::lazy::lazy_fst::LazyFst;
use rustfst::lazy::null_cache::NullCache;
use rustfst::lazy::unsync_hash_map_cache::UnsyncHashMapCache;
use rustfst::lazy::unsync_vec_cache::UnsyncVecCache;
use rustfst::prune::{natural_less, prune, prune_with};
use rustfst::semirings::semiring::Semiring;
use rustfst::semirings::tropical::{TickDelta, TropicalWeight};
use rustfst::shortest_distance::shortest_distance;
use std::sync::Arc;

type Fst = VectorFst<TropicalWeight>;

fn w(units: i32) -> TropicalWeight {
    TropicalWeight::from_units(units)
}

fn machine(states: usize, finals: &[(StateId, i32)], trs: &[(StateId, u32, i32, StateId)]) -> Fst {
    let mut fst = Fst::new();
    fst.add_states(states);
    fst.set_start(0).unwrap();
    for (s, units) in finals {
        fst.set_final(*s, w(*units)).unwrap();
    }
    for (s, label, units, next) in trs {
        fst.add_tr(*s, Tr::new(*label, *label, w(*units), *next)).unwrap();
    }
    fst
}

#[test]
fn states_that_do_not_exist_are_reported() {
    let mut fst = Fst::new();
    assert_eq!(fst.add_state(), 0);
    let missing = FstError::StateNotFound { state: 4 };
    assert_eq!(fst.set_start(4), Err(missing));
    assert_eq!(fst.set_final(4, w(0)), Err(missing));
    assert_eq!(fst.add_tr(4, Tr::new(1, 1, w(0), 0)), Err(missing));
    assert_eq!(fst.final_weight(4), Err(missing));
    assert_eq!(fst.num_trs(4), Err(missing));
    assert_eq!(fst.delete_final_weight(4), Err(missing));
    assert!(fst.get_trs(4).is_err());
    assert!(fst.pop_trs(4).is_err());
    assert_eq!(missing.message(), "State 4 doesn't exist");
    assert_eq!(fst.final_weight(0), Ok(None));
}

#[test]
fn properties_follow_what_is_added() {
    let mut fst = Fst::new();
    assert!(fst.properties().contains(NULL_PROPERTIES));
    fst.add_states(2);
    fst.add_tr(0, Tr::new(1, 1, w(0), 1)).unwrap();
    assert!(fst.properties().contains(ACCEPTOR | NO_I_EPSILONS | UNWEIGHTED));
    fst.add_tr(0, Tr::new(0, 2, w(3), 1)).unwrap();
    assert!(fst.properties().contains(NOT_ACCEPTOR | I_EPSILONS | WEIGHTED));
    assert!(!fst.properties().contains(ACCEPTOR));
}

#[test]
fn useless_states_are_removed() {
    // State 2 reaches no final state; state 4 is not reached.
    let mut fst = machine(
        5,
        &[(3, 1)],
        &[(0, 1, 0, 1), (0, 2, 0, 2), (1, 3, 4, 3), (4, 5, 0, 3), (2, 6, 0, 2)],
    );
    connect(&mut fst);
    let expected = machine(3, &[(2, 1)], &[(0, 1, 0, 1), (1, 3, 4, 2)]);
    assert_eq!(fst, expected);
}

#[test]
fn a_machine_that_accepts_nothing_is_emptied() {
    let mut fst = machine(2, &[], &[(0, 1, 0, 1)]);
    connect(&mut fst);
    assert_eq!(fst.num_states(), 0);
    assert!(fst.start().is_none());
}

fn diamond() -> Fst {
    // Costs of the whole paths: 1 + 1 + 0, 2 + 3 + 0 and 9 + 0.
    machine(
        4,
        &[(3, 0)],
        &[(0, 1, 1, 1), (1, 2, 1, 3), (0, 3, 2, 2), (2, 4, 3, 3), (0, 5, 9, 3)],
    )
}

#[test]
fn distances_are_the_best_costs() {
    let fst = diamond();
    assert_eq!(shortest_distance(&fst, false), Ok(vec![w(0), w(1), w(2), w(2)]));
    assert_eq!(shortest_distance(&fst, true), Ok(vec![w(2), w(1), w(3), w(0)]));
}

#[test]
fn distances_settle_on_cycles() {
    let fst = machine(2, &[(1, 5)], &[(0, 1, 2, 0), (0, 2, 3, 1), (1, 3, 0, 0)]);
    assert_eq!(shortest_distance(&fst, false), Ok(vec![w(0), w(3)]));
    assert_eq!(shortest_distance(&fst, true), Ok(vec![w(8), w(5)]));
}

#[test]
fn states_that_are_not_reached_are_infinitely_far() {
    let fst = machine(3, &[(1, 0)], &[(0, 1, 1, 1)]);
    let zero = TropicalWeight::zero();
    assert_eq!(shortest_distance(&fst, false), Ok(vec![w(0), w(1), zero]));
    assert_eq!(shortest_distance(&fst, true), Ok(vec![w(1), w(0), zero]));
}

#[test]
fn distances_that_overflow_are_an_error() {
    let mut fst = Fst::new();
    fst.add_states(3);
    fst.set_start(0).unwrap();
    fst.add_tr(0, Tr::new(1, 1, TropicalWeight::new(i64::MAX), 1)).unwrap();
    fst.add_tr(1, Tr::new(1, 1, TropicalWeight::new(1), 2)).unwrap();
    assert_eq!(shortest_distance(&fst, false), Err(FstError::WeightOverflow));
}

#[test]
fn pruning_keeps_what_is_within_the_threshold() {
    let mut fst = diamond();
    prune(&mut fst, w(3)).unwrap();
    // 5 <= 2 + 3 stays, 9 goes.
    let expected = machine(
        4,
        &[(3, 0)],
        &[(0, 1, 1, 1), (1, 2, 1, 3), (0, 3, 2, 2), (2, 4, 3, 3)],
    );
    assert_eq!(fst, expected);
    let mut fst = diamond();
    prune(&mut fst, w(2)).unwrap();
    let expected = machine(3, &[(2, 0)], &[(0, 1, 1, 1), (1, 2, 1, 2)]);
    assert_eq!(fst, expected);
}

#[test]
fn pruning_takes_final_weights_into_account() {
    let mut fst = machine(2, &[(0, 7), (1, 0)], &[(0, 1, 1, 1)]);
    prune(&mut fst, w(5)).unwrap();
    assert_eq!(fst.final_weight(0), Ok(None));
    assert_eq!(fst.final_weight(1), Ok(Some(w(0))));
}

#[test]
fn pruning_twice_is_pruning_once() {
    for threshold in [0, 2, 3, 100] {
        let mut once = diamond();
        prune(&mut once, w(threshold)).unwrap();
        let mut twice = diamond();
        prune(&mut twice, w(threshold)).unwrap();
        prune(&mut twice, w(threshold)).unwrap();
        assert_eq!(once, twice);
        assert_eq!(shortest_distance(&once, true).unwrap()[0], w(2));
    }
    // A threshold better than nothing leaves nothing.
    let mut fst = diamond();
    prune(&mut fst, w(-1)).unwrap();
    assert_eq!(fst.num_states(), 0);
    prune(&mut fst, w(-1)).unwrap();
    assert_eq!(fst.num_states(), 0);
}

#[test]
fn a_state_that_cannot_be_computed_makes_writing_out_fail() {
    // The subset of states 1 and 2 is reached, and a cost that leaves it does not fit.
    let mut fst = Fst::new();
    fst.add_states(3);
    fst.set_start(0).unwrap();
    fst.set_final(2, w(0)).unwrap();
    fst.add_tr(0, Tr::new(1, 1, w(0), 1)).unwrap();
    fst.add_tr(0, Tr::new(1, 1, TropicalWeight::new(i64::MAX), 2)).unwrap();
    fst.add_tr(2, Tr::new(2, 2, TropicalWeight::new(1), 2)).unwrap();
    let overflow = Err(FstError::WeightOverflow);
    let mut lazy = LazyFst::from_op_and_cache(op(&fst), NullCache::default(), None, None);
    assert_eq!(lazy.compute(), overflow);
    let mut lazy = LazyFst::from_op_and_cache(op(&fst), UnsyncVecCache::default(), None, None);
    assert_eq!(lazy.compute_bounded(Some(10), Some(10)), overflow);
}

#[test]
fn bounds_decide_whatever_is_cached() {
    let fst = ambiguous();
    let expected = machine(3, &[(2, 0)], &[(0, 1, 2, 1), (1, 2, 4, 2)]);
    // Three states are reached, and two transitions leave them.
    for warm in [false, true] {
        for (states, trs) in [(Some(3), Some(2)), (Some(3), None), (None, Some(2))] {
            let mut lazy =
                LazyFst::from_op_and_cache(op(&fst), UnsyncVecCache::default(), None, None);
            if warm {
                assert_eq!(lazy.compute().as_ref(), Ok(&expected));
            }
            assert_eq!(lazy.compute_bounded(states, trs).as_ref(), Ok(&expected));
            assert_eq!(lazy.compute_bounded(None, None), lazy.compute());
        }
        for (states, trs) in [(Some(2), Some(2)), (Some(3), Some(1)), (Some(0), None)] {
            let mut lazy =
                LazyFst::from_op_and_cache(op(&fst), UnsyncVecCache::default(), None, None);
            if warm {
                assert_eq!(lazy.compute().as_ref(), Ok(&expected));
            }
            assert!(lazy.compute_bounded(states, trs).is_err());
        }
    }
}

#[test]
fn a_state_that_cannot_be_computed_fails_each_time() {
    let mut fst = Fst::new();
    fst.add_states(3);
    fst.set_start(0).unwrap();
    fst.set_final(2, w(0)).unwrap();
    fst.add_tr(0, Tr::new(1, 1, w(0), 1)).unwrap();
    fst.add_tr(0, Tr::new(1, 1, TropicalWeight::new(i64::MAX), 2)).unwrap();
    fst.add_tr(2, Tr::new(2, 2, TropicalWeight::new(1), 2)).unwrap();
    let mut lazy = LazyFst::from_op_and_cache(op(&fst), UnsyncVecCache::default(), None, None);
    for _ in 0..3 {
        assert_eq!(lazy.compute(), Err(FstError::WeightOverflow));
        assert_eq!(lazy.compute_bounded(None, None), Err(FstError::WeightOverflow));
    }
}

#[test]
fn pruning_without_a_start_or_a_final_state_empties_the_machine() {
    let mut fst = Fst::new();
    prune(&mut fst, w(0)).unwrap();
    assert_eq!(fst.num_states(), 0);
    fst.add_states(2);
    prune(&mut fst, w(0)).unwrap();
    assert_eq!(fst.num_states(), 0);
    let mut fst = machine(2, &[], &[(0, 1, 0, 1)]);
    prune(&mut fst, w(0)).unwrap();
    assert_eq!(fst.num_states(), 0);
}

#[test]
fn pruning_goes_by_the_distances_it_is_given() {
    let mut fst = diamond();
    let from_start = vec![w(0), w(100), w(2), w(2)];
    let to_final = vec![w(2), w(1), w(3), w(0)];
    prune_with(&mut fst, w(3), &from_start, &to_final).unwrap();
    // The way through state 1 is held to be too long.
    assert_eq!(fst, machine(3, &[(2, 0)], &[(0, 3, 2, 1), (1, 4, 3, 2)]));
}

#[test]
fn the_natural_order_is_strict() {
    assert!(natural_less(&w(1), &w(2)));
    assert!(!natural_less(&w(2), &w(1)));
    assert!(!natural_less(&w(2), &w(2)));
    assert!(natural_less(&w(2), &TropicalWeight::zero()));
}

fn ambiguous() -> Fst {
    machine(
        4,
        &[(3, 0)],
        &[(0, 1, 2, 1), (0, 1, 3, 2), (1, 2, 4, 3), (2, 2, 3, 3)],
    )
}

fn op(fst: &Fst) -> DeterminizeFsaOp<'_, TropicalWeight, DefaultCommonDivisor> {
    DeterminizeFsaOp::new_with_subset_limit(fst, None, TickDelta { ticks: 1 }, None).unwrap()
}

#[test]
fn every_cache_gives_the_same_machine() {
    let fst = ambiguous();
    let expected = machine(3, &[(2, 0)], &[(0, 1, 2, 1), (1, 2, 4, 2)]);
    let mut a = LazyFst::from_op_and_cache(op(&fst), NullCache::default(), None, None);
    let mut b = LazyFst::from_op_and_cache(op(&fst), UnsyncVecCache::default(), None, None);
    let mut c = LazyFst::from_op_and_cache(op(&fst), UnsyncHashMapCache::default(), None, None);
    assert_eq!(a.compute(), Ok(expected));
    assert_eq!(a.compute(), b.compute());
    assert_eq!(b.compute(), c.compute());
}

#[test]
fn bounds_count_states_and_transitions() {
    let fst = ambiguous();
    let unbounded =
        LazyFst::from_op_and_cache(op(&fst), NullCache::default(), None, None).compute();
    for (states, trs) in [(Some(3), None), (None, Some(2)), (Some(3), Some(2))] {
        let mut lazy = LazyFst::from_op_and_cache(op(&fst), NullCache::default(), None, None);
        assert_eq!(lazy.compute_bounded(states, trs), unbounded);
    }
    let mut lazy = LazyFst::from_op_and_cache(op(&fst), NullCache::default(), None, None);
    let error = lazy.compute_bounded(Some(2), None).unwrap_err();
    assert_eq!(error, FstError::StateBudgetExceeded { limit: 2 });
    let mut lazy = LazyFst::from_op_and_cache(op(&fst), NullCache::default(), None, None);
    assert_eq!(
        lazy.compute_bounded(Some(0), None),
        Err(FstError::StateBudgetExceeded { limit: 0 })
    );
    assert_eq!(
        error.message(),
        "compute_bounded: state budget of 2 exceeded (lazy FST did not converge)"
    );
    let mut lazy = LazyFst::from_op_and_cache(op(&fst), NullCache::default(), None, None);
    let error = lazy.compute_bounded(None, Some(1)).unwrap_err();
    assert_eq!(
        error,
        FstError::TrBudgetExceeded(ComputeTrLimitExceeded { limit: 1, attempted: 2 })
    );
    assert_eq!(
        error.message(),
        "compute_bounded: transition budget of 1 exceeded (attempted 2)"
    );
}

#[test]
fn lazy_machines_are_walked_state_by_state() {
    let fst = ambiguous();
    let mut lazy = LazyFst::from_op_and_cache(op(&fst), UnsyncVecCache::default(), None, None);
    assert_eq!(lazy.num_trs(0), Err(FstError::StateNotFound { state: 0 }));
    let mut states = lazy.states_iter();
    let mut seen = Vec::new();
    while let Some(s) = states.next(&mut lazy) {
        seen.push(s);
    }
    assert_eq!(seen, vec![0, 1, 2]);
    assert_eq!(lazy.num_trs(0), Ok(1));
    assert_eq!(lazy.num_input_epsilons(0), Ok(0));
    assert_eq!(lazy.num_output_epsilons(1), Ok(0));
    let mut all = lazy.fst_iter();
    let first = all.next(&mut lazy).unwrap();
    assert_eq!((first.state_id, first.num_trs, first.final_weight), (0, 1, None));
    assert_eq!(first.trs.trs()[0].weight, w(2));
    let _ = all.next(&mut lazy).unwrap();
    let last = all.next(&mut lazy).unwrap();
    assert_eq!((last.state_id, last.final_weight), (2, Some(w(0))));
    assert!(all.next(&mut lazy).is_none());
}

#[test]
fn lazy_machines_are_read_state_by_state() {
    let fst = ambiguous();
    let mut lazy = LazyFst::from_op_and_cache(op(&fst), UnsyncHashMapCache::default(), None, None);
    assert_eq!(lazy.start(), Some(0));
    let trs = lazy.get_trs(0).unwrap();
    assert_eq!(trs.len(), 1);
    assert_eq!(lazy.final_weight(0), Ok(None));
    let next = trs.trs()[0].nextstate;
    let last = lazy.get_trs(next).unwrap().trs()[0].nextstate;
    assert_eq!(lazy.final_weight(last), Ok(Some(w(0))));
    assert!(lazy.properties() == FstProperties::empty());
}

#[test]
fn lazy_machines_carry_symbol_tables() {
    let fst = ambiguous();
    let symt = Arc::new(SymbolTable::empty());
    let mut lazy = LazyFst::from_op_and_cache(
        op(&fst),
        NullCache::default(),
        Some(Arc::clone(&symt)),
        None,
    );
    assert!(Arc::ptr_eq(lazy.input_symbols().unwrap(), &symt));
    assert!(lazy.output_symbols().is_none());
    lazy.set_output_symbols(Arc::clone(&symt));
    let computed = lazy.compute().unwrap();
    assert!(Arc::ptr_eq(computed.output_symbols().unwrap(), &symt));
    assert!(lazy.take_input_symbols().is_some());
    assert!(lazy.take_input_symbols().is_none());
    assert!(lazy.take_output_symbols().is_some());
    lazy.set_input_symbols(symt);
    assert!(lazy.input_symbols().is_some());
}

#[test]
fn a_walk_that_was_given_up_leaves_the_machine_usable() {
    let fst = ambiguous();
    let mut lazy = LazyFst::from_op_and_cache(op(&fst), UnsyncVecCache::default(), None, None);
    assert!(lazy.compute_bounded(Some(2), None).is_err());
    assert!(lazy.compute_bounded(None, Some(1)).is_err());
    let expected = machine(3, &[(2, 0)], &[(0, 1, 2, 1), (1, 2, 4, 2)]);
    assert_eq!(lazy.compute(), Ok(expected));
    assert_eq!(lazy.cache().num_trs(0), Some(1));
    assert!(lazy.op().properties() == FstProperties::empty());
}
