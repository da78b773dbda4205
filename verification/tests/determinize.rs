//! Determinization of acceptors and transducers.

use rustfst::determinize::c_config::{CDeterminizeConfig, CDeterminizeType, EnumConversionError};
use rustfst::determinize::determinize_fsa_op::DeterminizeFsaOp;
use rustfst::determinize::determinize_static::{
    determinize, determinize_fsa, determinize_fst, determinize_with_config,
    determinize_with_distance, DeterminizeConfig, DeterminizeType,
};
use rustfst::determinize::divisors::DefaultCommonDivisor;
use rustfst::error::{DeterminizeSubsetLimitExceeded, FstError};
use rustfst::fst::properties::{ACCEPTOR, I_LABEL_SORTED, O_LABEL_SORTED};
use rustfst::fst::symbol_table::SymbolTable;
use rustfst::fst::tr::{StateId, Tr};
use rustfst::fst::vector_fst::VectorFst;
use rustfst::lazy::lazy_fst::LazyFst;
use rustfst::lazy::null_cache::NullCache;
use rustfst::semirings::semiring::Semiring;
use rustfst::semirings::tropical::{TickDelta, TropicalWeight};
use rustfst::shortest_distance::shortest_distance;
use std::sync::Arc;

type Fst = VectorFst<TropicalWeight>;

fn w(units: i32) -> TropicalWeight {
    TropicalWeight::from_units(units)
}

fn tr(ilabel: u32, olabel: u32, units: i32, nextstate: StateId) -> Tr<TropicalWeight> {
    Tr::new(ilabel, olabel, w(units), nextstate)
}

/// A machine that starts in state 0.
fn machine(states: usize, finals: &[(StateId, i32)], trs: &[(StateId, u32, u32, i32, StateId)]) -> Fst {
    let mut fst = Fst::new();
    fst.add_states(states);
    fst.set_start(0).unwrap();
    for (s, units) in finals {
        fst.set_final(*s, w(*units)).unwrap();
    }
    for (s, i, o, units, next) in trs {
        fst.add_tr(*s, tr(*i, *o, *units, *next)).unwrap();
    }
    fst
}

#[test]
fn test_determinize() {
    let mut input_fst = VectorFst::<TropicalWeight>::new();
    let s0 = input_fst.add_state();
    let s1 = input_fst.add_state();

    input_fst.set_start(s0).unwrap();
    input_fst.set_final(s1, TropicalWeight::one()).unwrap();

    input_fst.add_tr(s0, tr(1, 1, 2, s1)).unwrap();
    input_fst.add_tr(s0, tr(1, 1, 2, s1)).unwrap();
    input_fst.add_tr(s0, tr(1, 1, 2, s1)).unwrap();

    let mut ref_fst = VectorFst::new();
    let s0 = ref_fst.add_state();
    let s1 = ref_fst.add_state();

    ref_fst.set_start(s0).unwrap();
    ref_fst.set_final(s1, TropicalWeight::one()).unwrap();

    ref_fst.add_tr(s0, tr(1, 1, 2, s1)).unwrap();

    let determinized_fst: VectorFst<TropicalWeight> = determinize(&input_fst).unwrap();

    assert_eq!(determinized_fst, ref_fst);
}

#[test]
fn test_determinize_2() {
    let mut input_fst = VectorFst::<TropicalWeight>::new();
    let s0 = input_fst.add_state();
    let s1 = input_fst.add_state();
    let s2 = input_fst.add_state();
    let s3 = input_fst.add_state();

    input_fst.set_start(s0).unwrap();
    input_fst.set_final(s3, TropicalWeight::one()).unwrap();

    input_fst.add_tr(s0, tr(1, 1, 2, s1)).unwrap();
    input_fst.add_tr(s0, tr(1, 1, 3, s2)).unwrap();

    input_fst.add_tr(s1, tr(2, 2, 4, s3)).unwrap();
    input_fst.add_tr(s2, tr(2, 2, 3, s3)).unwrap();

    let mut ref_fst = VectorFst::new();
    let s0 = ref_fst.add_state();
    let s1 = ref_fst.add_state();
    let s2 = ref_fst.add_state();

    ref_fst.set_start(s0).unwrap();
    ref_fst.set_final(s2, TropicalWeight::one()).unwrap();

    ref_fst.add_tr(s0, tr(1, 1, 2, s1)).unwrap();
    ref_fst.add_tr(s1, tr(2, 2, 4, s2)).unwrap();

    let determinized_fst: VectorFst<TropicalWeight> = determinize(&input_fst).unwrap();

    assert_eq!(determinized_fst, ref_fst);
}

#[test]
fn test_determinize_issue_288_no_blowup() {
    let mut fst = VectorFst::<TropicalWeight>::new();
    let s: Vec<StateId> = (0..4).map(|_| fst.add_state()).collect();
    fst.set_start(s[0]).unwrap();
    fst.set_final(s[2], TropicalWeight::one()).unwrap();
    fst.set_final(s[3], TropicalWeight::one()).unwrap();

    // A transition on label 5 to state 1 and a loop on label 5 make the acceptor
    // nondeterministic.
    fst.add_tr(s[0], tr(5, 5, 0, s[1])).unwrap();
    for l in [4, 3, 2, 1, 6, 5] {
        fst.add_tr(s[0], tr(l, l, 0, s[0])).unwrap();
    }
    fst.add_tr(s[1], tr(6, 6, 0, s[2])).unwrap();
    for l in [4, 3, 2, 1, 6, 5] {
        fst.add_tr(s[2], tr(l, l, 0, s[3])).unwrap();
        fst.add_tr(s[3], tr(l, l, 0, s[3])).unwrap();
    }

    let det: VectorFst<TropicalWeight> = determinize(&fst).unwrap();

    let num_trs: usize = (0..det.num_states())
        .map(|st| det.num_trs(st as StateId).unwrap())
        .sum();
    assert_eq!(
        det.num_states(),
        6,
        "issue #288: determinize blew up the state count (got {}, OpenFST gives 6)",
        det.num_states()
    );
    assert_eq!(num_trs, 36);
}

fn four_states() -> Fst {
    let mut fst = VectorFst::<TropicalWeight>::new();
    let s: Vec<StateId> = (0..4).map(|_| fst.add_state()).collect();
    fst.set_start(s[0]).unwrap();
    fst.set_final(s[3], TropicalWeight::one()).unwrap();
    fst.add_tr(s[0], tr(1, 1, 2, s[1])).unwrap();
    fst.add_tr(s[0], tr(1, 1, 3, s[2])).unwrap();
    fst.add_tr(s[1], tr(2, 2, 4, s[3])).unwrap();
    fst.add_tr(s[2], tr(2, 2, 3, s[3])).unwrap();
    fst
}

#[test]
fn test_determinize_max_states_byte_identical_when_within_budget() {
    let fst = four_states();
    let unbounded: VectorFst<TropicalWeight> = determinize(&fst).unwrap();
    let bounded: VectorFst<TropicalWeight> = determinize_with_config(
        &fst,
        DeterminizeConfig::default().with_max_states(Some(1_000_000)),
    )
    .unwrap();
    assert_eq!(
        unbounded, bounded,
        "a generous state budget must not perturb a converging determinization"
    );
}

#[test]
fn test_determinize_max_states_trips() {
    let fst = four_states();
    let res: Result<VectorFst<TropicalWeight>, FstError> =
        determinize_with_config(&fst, DeterminizeConfig::default().with_max_states(Some(1)));
    assert!(
        res.is_err(),
        "a budget of 1 must abort this determinization"
    );
    assert!(matches!(
        res,
        Err(FstError::StateBudgetExceeded { limit: 1 })
    ));
}

#[test]
fn bound_is_kept_exactly() {
    let fst = four_states();
    let config = DeterminizeConfig::default();
    assert_eq!(
        determinize_with_config(&fst, config.with_max_states(Some(3)))
            .unwrap()
            .num_states(),
        3
    );
    assert!(determinize_with_config(&fst, config.with_max_states(Some(2))).is_err());
}

#[test]
fn a_bound_of_no_states_leaves_room_for_no_start() {
    let none = DeterminizeConfig::default().with_max_states(Some(0));
    let fst = machine(1, &[(0, 0)], &[]);
    assert_eq!(
        determinize_with_config(&fst, none),
        Err(FstError::StateBudgetExceeded { limit: 0 })
    );
    assert_eq!(determinize_with_config(&Fst::new(), none).unwrap().num_states(), 0);
    let one = DeterminizeConfig::default().with_max_states(Some(1));
    assert_eq!(determinize_with_config(&fst, one).unwrap().num_states(), 1);
}

#[test]
fn acceptor_keeps_the_weight_of_every_string() {
    // Two paths read "1 2", with costs 6 and 6; one reads "1 3", with cost 9.
    let fst = machine(
        4,
        &[(3, 1)],
        &[
            (0, 1, 1, 2, 1),
            (0, 1, 1, 3, 2),
            (1, 2, 2, 3, 3),
            (2, 2, 2, 2, 3),
            (2, 3, 3, 5, 3),
        ],
    );
    let det = determinize(&fst).unwrap();
    // 0 -1/2-> {1/0, 2/1}; 2 costs 3 from either; 3 costs 6 from the second.
    let expected = machine(
        3,
        &[(2, 1)],
        &[(0, 1, 1, 2, 1), (1, 2, 2, 3, 2), (1, 3, 3, 6, 2)],
    );
    assert_eq!(det, expected);
    assert!(det.properties().contains(ACCEPTOR));
    assert!(det.properties().contains(I_LABEL_SORTED | O_LABEL_SORTED));
}

#[test]
fn functional_transducer_is_determinized() {
    // 1 2 is written as 10, and 1 3 as 11.
    let fst = machine(
        4,
        &[(3, 0)],
        &[
            (0, 1, 10, 1, 1),
            (0, 1, 11, 3, 2),
            (1, 2, 0, 2, 3),
            (2, 3, 0, 1, 3),
        ],
    );
    let det = determinize(&fst).unwrap();
    let expected = machine(
        3,
        &[(2, 0)],
        &[(0, 1, 0, 1, 1), (1, 2, 10, 2, 2), (1, 3, 11, 3, 2)],
    );
    assert_eq!(det, expected);
}

#[test]
fn output_that_is_left_is_written_at_the_end() {
    // 1 1 is written as 7 7, and 1 1 2 as 8 8.
    let fst = machine(
        6,
        &[(2, 0), (5, 0)],
        &[
            (0, 1, 7, 0, 1),
            (1, 1, 7, 0, 2),
            (0, 1, 8, 0, 3),
            (3, 1, 8, 0, 4),
            (4, 2, 0, 0, 5),
        ],
    );
    let det = determinize(&fst).unwrap();
    let expected = machine(
        6,
        &[(5, 0)],
        &[
            (0, 1, 0, 0, 1),
            (1, 1, 0, 0, 2),
            (2, 2, 8, 0, 3),
            (2, 0, 7, 0, 4),
            (3, 0, 8, 0, 5),
            (4, 0, 7, 0, 5),
        ],
    );
    assert_eq!(det, expected);
}

fn ambiguous() -> Fst {
    machine(3, &[(1, 0), (2, 0)], &[(0, 1, 7, 1, 1), (0, 1, 8, 2, 2)])
}

#[test]
fn two_outputs_are_not_functional() {
    let config = DeterminizeConfig::new(
        TickDelta { ticks: 1 },
        DeterminizeType::DeterminizeFunctional,
    );
    assert!(matches!(
        determinize_with_config(&ambiguous(), config),
        Err(FstError::NonFunctional)
    ));
}

#[test]
fn two_outputs_are_kept_when_asked_for() {
    let config = DeterminizeConfig::default()
        .with_det_type(DeterminizeType::DeterminizeNonFunctional);
    let det = determinize_with_config(&ambiguous(), config).unwrap();
    let expected = machine(
        3,
        &[(2, 0)],
        &[(0, 1, 0, 1, 1), (1, 0, 7, 0, 2), (1, 0, 8, 1, 2)],
    );
    assert_eq!(det, expected);
}

#[test]
fn the_better_output_is_kept_when_asked_for() {
    let config =
        DeterminizeConfig::default().with_det_type(DeterminizeType::DeterminizeDisambiguate);
    let det = determinize_with_config(&ambiguous(), config).unwrap();
    let expected = machine(3, &[(2, 0)], &[(0, 1, 0, 1, 1), (1, 0, 7, 0, 2)]);
    assert_eq!(det, expected);
}

#[test]
fn test_proptest_determinize_keeps_symts() {
    for mut fst in [Fst::new(), ambiguous(), four_states()] {
        let symt = Arc::new(SymbolTable::empty());
        fst.set_input_symbols(Arc::clone(&symt));
        fst.set_output_symbols(Arc::clone(&symt));

        let fst: VectorFst<_> = determinize_with_config(
            &fst,
            DeterminizeConfig::default().with_det_type(DeterminizeType::DeterminizeNonFunctional),
        )
        .unwrap();

        assert!(fst.input_symbols().is_some());
        assert!(fst.output_symbols().is_some());
        assert!(Arc::ptr_eq(fst.input_symbols().unwrap(), &symt));
        assert!(Arc::ptr_eq(fst.output_symbols().unwrap(), &symt));
    }
}

#[test]
fn an_empty_machine_stays_empty() {
    let det = determinize(&Fst::new()).unwrap();
    assert_eq!(det.num_states(), 0);
    assert!(det.start().is_none());
}

#[test]
fn only_acceptors_are_determinized_as_automata() {
    assert!(matches!(
        determinize_fsa::<TropicalWeight, DefaultCommonDivisor>(
            &ambiguous(),
            TickDelta { ticks: 1 },
            None
        ),
        Err(FstError::NotAcceptor)
    ));
}

#[test]
fn rounding_merges_states() {
    // The two residual costs of state 2 differ by one tick.
    let mut fst = Fst::new();
    fst.add_states(4);
    fst.set_start(0).unwrap();
    fst.set_final(3, TropicalWeight::one()).unwrap();
    for (label, ticks) in [(1, 1025), (2, 1024)] {
        fst.add_tr(0, Tr::new(label, label, TropicalWeight::new(0), 1)).unwrap();
        fst.add_tr(0, Tr::new(label, label, TropicalWeight::new(ticks), 2)).unwrap();
    }
    fst.add_tr(1, Tr::new(3, 3, TropicalWeight::new(0), 3)).unwrap();
    fst.add_tr(2, Tr::new(4, 4, TropicalWeight::new(0), 3)).unwrap();
    let fine = determinize(&fst).unwrap();
    assert_eq!(fine.num_states(), 4);
    let coarse = determinize_with_config(
        &fst,
        DeterminizeConfig::default().with_delta(TickDelta { ticks: 512 }),
    )
    .unwrap();
    assert_eq!(coarse.num_states(), 3);
}

#[test]
fn rounding_moves_a_weight_by_half_a_step_at_most() {
    // The costs of the two ways on differ by five ticks, which are rounded to four.
    let mut fst = Fst::new();
    fst.add_states(4);
    fst.set_start(0).unwrap();
    let ticks = TropicalWeight::new;
    fst.add_tr(0, Tr::new(1, 1, ticks(0), 1)).unwrap();
    fst.add_tr(0, Tr::new(1, 1, ticks(5), 2)).unwrap();
    fst.add_tr(1, Tr::new(2, 2, ticks(0), 3)).unwrap();
    fst.add_tr(2, Tr::new(3, 3, ticks(0), 3)).unwrap();
    fst.set_final(3, ticks(0)).unwrap();
    let config = DeterminizeConfig::default().with_delta(TickDelta { ticks: 4 });
    let out = determinize_with_config(&fst, config).unwrap();
    let first = &out.get_trs(out.start().unwrap()).unwrap()[0];
    let ways = out.get_trs(first.nextstate).unwrap();
    assert_eq!((ways[0].ilabel, ways[0].weight), (2, ticks(0)));
    assert_eq!((ways[1].ilabel, ways[1].weight), (3, ticks(4)));
}

#[test]
fn rounding_moves_what_a_transducer_relates_by_half_a_step_at_most() {
    let mut fst = Fst::new();
    fst.add_states(4);
    fst.set_start(0).unwrap();
    let ticks = TropicalWeight::new;
    fst.add_tr(0, Tr::new(1, 11, ticks(0), 1)).unwrap();
    fst.add_tr(0, Tr::new(1, 11, ticks(5), 2)).unwrap();
    fst.add_tr(1, Tr::new(2, 12, ticks(0), 3)).unwrap();
    fst.add_tr(2, Tr::new(3, 13, ticks(0), 3)).unwrap();
    fst.set_final(3, ticks(0)).unwrap();
    for det_type in [
        DeterminizeType::DeterminizeFunctional,
        DeterminizeType::DeterminizeNonFunctional,
    ] {
        let config = DeterminizeConfig::new(TickDelta { ticks: 4 }, det_type);
        let out = determinize_with_config(&fst, config).unwrap();
        let first = &out.get_trs(out.start().unwrap()).unwrap()[0];
        assert_eq!((first.ilabel, first.olabel, first.weight), (1, 11, ticks(0)));
        let ways = out.get_trs(first.nextstate).unwrap();
        assert_eq!((ways[0].ilabel, ways[0].olabel, ways[0].weight), (2, 12, ticks(0)));
        assert_eq!((ways[1].ilabel, ways[1].olabel, ways[1].weight), (3, 13, ticks(4)));
    }
}

#[test]
fn rounding_may_keep_an_output_that_is_near_the_best() {
    // The best output is 11 12, at one tick. The other costs two ticks, of which
    // rounding to multiples of eight leaves none.
    let mut fst = Fst::new();
    fst.add_states(4);
    fst.set_start(0).unwrap();
    let ticks = TropicalWeight::new;
    fst.add_tr(0, Tr::new(1, 11, ticks(0), 1)).unwrap();
    fst.add_tr(0, Tr::new(1, 11, ticks(2), 2)).unwrap();
    fst.add_tr(1, Tr::new(2, 12, ticks(1), 3)).unwrap();
    fst.add_tr(2, Tr::new(2, 13, ticks(0), 3)).unwrap();
    fst.set_final(3, ticks(0)).unwrap();
    for (step, output, cost) in [(1, 12, 1), (8, 13, 0)] {
        let config = DeterminizeConfig::new(
            TickDelta { ticks: step },
            DeterminizeType::DeterminizeDisambiguate,
        );
        let out = determinize_with_config(&fst, config).unwrap();
        // There is one way through the machine.
        let mut state = out.start().unwrap();
        let (mut input, mut written, mut sum) = (vec![], vec![], ticks(0));
        while !out.get_trs(state).unwrap().is_empty() {
            let trs = out.get_trs(state).unwrap();
            assert_eq!(trs.len(), 1);
            input.push(trs[0].ilabel);
            written.push(trs[0].olabel);
            sum = sum.times(&trs[0].weight).unwrap();
            state = trs[0].nextstate;
        }
        input.retain(|l| *l != 0);
        written.retain(|l| *l != 0);
        assert_eq!((input, written, sum), (vec![1, 2], vec![11, output], ticks(cost)));
        assert_eq!(out.final_weight(state).unwrap(), Some(ticks(0)));
    }
}

#[test]
fn distances_are_carried_over() {
    let fst = four_states();
    let in_dist = vec![w(6), w(4), w(3), w(0)];
    let (det, dist) =
        determinize_with_distance(&fst, in_dist, TickDelta { ticks: 1 }).unwrap();
    assert_eq!(det, determinize(&fst).unwrap());
    // The subset {1/0, 2/1} is at min(0 + 4, 1 + 3).
    assert_eq!(dist, vec![w(6), w(4), w(0)]);
}

#[test]
fn subset_elements_are_bounded() {
    let fst = four_states();
    let op: DeterminizeFsaOp<'_, TropicalWeight, DefaultCommonDivisor> =
        DeterminizeFsaOp::new_with_subset_limit(&fst, None, TickDelta { ticks: 1 }, Some(2))
            .unwrap();
    let mut lazy = LazyFst::from_op_and_cache(op, NullCache::default(), None, None);
    match lazy.compute() {
        Err(FstError::SubsetBudgetExceeded(e)) => {
            assert_eq!(e, DeterminizeSubsetLimitExceeded { limit: 2, attempted: 3 });
            assert_eq!(
                e.message(),
                "determinize: weighted-subset element budget of 2 exceeded (attempted 3)"
            );
        }
        other => panic!("unexpected: {other:?}"),
    }
}

#[test]
fn weights_that_overflow_are_an_error() {
    let mut fst = Fst::new();
    fst.add_states(3);
    fst.set_start(0).unwrap();
    fst.set_final(2, TropicalWeight::one()).unwrap();
    // The cost that is still owed at state 1 leaves no room for the next one.
    fst.add_tr(0, Tr::new(1, 1, TropicalWeight::new(0), 2)).unwrap();
    fst.add_tr(0, Tr::new(1, 1, TropicalWeight::new(i64::MAX), 1)).unwrap();
    fst.add_tr(1, Tr::new(2, 2, TropicalWeight::new(1), 2)).unwrap();
    assert!(matches!(determinize(&fst), Err(FstError::WeightOverflow)));
}

#[test]
fn configurations_are_built_step_by_step() {
    let config: DeterminizeConfig<TickDelta> = DeterminizeConfig::default();
    assert_eq!(config.delta, TickDelta { ticks: 1 });
    assert_eq!(config.det_type, DeterminizeType::DeterminizeFunctional);
    assert_eq!(config.max_states, None);
    let config = config
        .with_delta(TickDelta { ticks: 5 })
        .with_det_type(DeterminizeType::DeterminizeDisambiguate)
        .with_max_states(Some(9));
    assert_eq!(config.delta, TickDelta { ticks: 5 });
    assert_eq!(config.det_type, DeterminizeType::DeterminizeDisambiguate);
    assert_eq!(config.max_states, Some(9));
    let config = DeterminizeConfig::new(TickDelta { ticks: 2 }, DeterminizeType::DeterminizeNonFunctional);
    assert_eq!(config.max_states, None);
}

#[test]
fn numbers_stand_for_ways_to_determinize() {
    let all = [
        (0, DeterminizeType::DeterminizeFunctional),
        (1, DeterminizeType::DeterminizeNonFunctional),
        (2, DeterminizeType::DeterminizeDisambiguate),
    ];
    for (number, det_type) in all {
        assert_eq!(CDeterminizeType(number).as_rust(), Ok(det_type));
        assert_eq!(CDeterminizeType::c_repr_of(det_type), CDeterminizeType(number));
    }
    assert_eq!(CDeterminizeType(3).as_rust(), Err(EnumConversionError {}));
}

#[test]
fn no_bound_is_written_as_zero() {
    let config = CDeterminizeConfig::new(TickDelta { ticks: 1 }, 1, 0);
    let rust = config.as_rust().unwrap();
    assert_eq!(rust.max_states, None);
    assert_eq!(rust.det_type, DeterminizeType::DeterminizeNonFunctional);
    let config = CDeterminizeConfig::new(TickDelta { ticks: 1 }, 2, 7);
    assert_eq!(config.as_rust().unwrap().max_states, Some(7));
    let back = CDeterminizeConfig::c_repr_of(config.as_rust().unwrap());
    assert_eq!(back.det_type, CDeterminizeType(2));
    assert_eq!(back.max_states, Some(7));
    assert!(CDeterminizeConfig::new(TickDelta { ticks: 1 }, 4, 0).as_rust().is_err());
}

#[test]
fn transducers_can_be_determinized_directly() {
    let det = determinize_fst(
        &ambiguous(),
        DeterminizeType::DeterminizeDisambiguate,
        TickDelta { ticks: 1 },
        Some(10),
    )
    .unwrap();
    assert_eq!(det.num_states(), 3);
    assert!(matches!(
        determinize_fst(
            &ambiguous(),
            DeterminizeType::DeterminizeNonFunctional,
            TickDelta { ticks: 1 },
            Some(1)
        ),
        Err(FstError::StateBudgetExceeded { limit: 1 })
    ));
}

#[test]
fn a_limit_on_subset_elements_that_is_not_exceeded_changes_nothing() {
    let fst = four_states();
    let compute = |limit: Option<usize>| {
        let op: DeterminizeFsaOp<'_, TropicalWeight, DefaultCommonDivisor> =
            DeterminizeFsaOp::new_with_subset_limit(&fst, None, TickDelta { ticks: 1 }, limit)
                .unwrap();
        LazyFst::from_op_and_cache(op, NullCache::default(), None, None).compute()
    };
    // Subsets of one, two and one element, and one that is being built.
    assert_eq!(compute(Some(5)), compute(None));
    assert_eq!(compute(Some(4)), compute(None));
    assert!(matches!(
        compute(Some(3)),
        Err(FstError::SubsetBudgetExceeded(DeterminizeSubsetLimitExceeded {
            limit: 3,
            attempted: 4
        }))
    ));
}

#[test]
fn the_better_output_depends_on_the_rest_of_the_input() {
    // After 1, the outputs 7 and 8 cost 1 and 3; 2 adds 5 to the first, 3 adds nothing.
    let fst = machine(
        4,
        &[(3, 0)],
        &[
            (0, 1, 7, 1, 1),
            (0, 1, 8, 3, 2),
            (1, 2, 0, 5, 3),
            (1, 3, 0, 0, 3),
            (2, 2, 0, 0, 3),
            (2, 3, 0, 0, 3),
        ],
    );
    let config =
        DeterminizeConfig::default().with_det_type(DeterminizeType::DeterminizeDisambiguate);
    let det = determinize_with_config(&fst, config).unwrap();
    // 1 2 is written as 8 for 3, and 1 3 as 7 for 1; what is written is only known once
    // the input has ended.
    let expected = machine(
        5,
        &[(4, 0)],
        &[
            (0, 1, 0, 1, 1),
            (1, 2, 0, 2, 2),
            (1, 3, 0, 0, 3),
            (2, 0, 8, 0, 4),
            (3, 0, 7, 0, 4),
        ],
    );
    assert_eq!(det, expected);
}

#[test]
fn distances_that_come_back_are_those_of_the_result() {
    let fst = machine(
        5,
        &[(3, 1), (4, 0)],
        &[
            (0, 1, 1, 2, 1),
            (0, 1, 1, 3, 2),
            (1, 2, 2, 4, 3),
            (2, 2, 2, 2, 3),
            (2, 3, 3, 9, 4),
            (3, 1, 1, 1, 0),
        ],
    );
    let in_dist = shortest_distance(&fst, true).unwrap();
    let (det, dist) = determinize_with_distance(&fst, in_dist, TickDelta { ticks: 1 }).unwrap();
    assert_eq!(shortest_distance(&det, true), Ok(dist));
}
