//! Weights: costs, and strings of labels with a cost.

use rustfst::error::FstError;
use rustfst::factor_weight::factor_weight;
use rustfst::fst::tr::Tr;
use rustfst::fst::vector_fst::VectorFst;
use rustfst::semirings::gallic::{comes_before, GallicItem, GallicWeightMin, GallicWeightRestrict};
use rustfst::semirings::gallic_union::GallicWeight;
use rustfst::semirings::semiring::{
    DivideType, Semiring, WeaklyDivisibleSemiring, WeightQuantize, COMMUTATIVE, IDEMPOTENT,
    LEFT_SEMIRING, PATH,
};
use rustfst::semirings::tropical::{TickDelta, TropicalWeight};
use rustfst::weight_convert::{from_gallic, to_gallic};

type Restrict = GallicWeightRestrict<TropicalWeight>;
type Min = GallicWeightMin<TropicalWeight>;
type Union = GallicWeight<TropicalWeight>;

fn w(units: i32) -> TropicalWeight {
    TropicalWeight::from_units(units)
}

fn item(string: &[u32], units: i32) -> GallicItem<TropicalWeight> {
    GallicItem { string: string.to_vec(), weight: w(units) }
}

fn restrict(string: &[u32], units: i32) -> Restrict {
    GallicWeightRestrict { item: Some(item(string, units)) }
}

fn min(string: &[u32], units: i32) -> Min {
    GallicWeightMin { item: Some(item(string, units)) }
}

fn union(items: &[(&[u32], i32)]) -> Union {
    GallicWeight { items: items.iter().map(|(s, u)| item(s, *u)).collect() }
}

#[test]
fn costs_are_added_and_the_smaller_is_chosen() {
    let zero = TropicalWeight::zero();
    assert_eq!(w(2).plus(&w(3)), Ok(w(2)));
    assert_eq!(zero.plus(&w(3)), Ok(w(3)));
    assert_eq!(w(2).times(&w(3)), Ok(w(5)));
    assert_eq!(zero.times(&w(3)), Ok(zero));
    assert_eq!(w(2).times(&TropicalWeight::one()), Ok(w(2)));
    assert_eq!(w(1).ticks(), Some(1024));
    assert_eq!(zero.ticks(), None);
    assert!(zero.is_zero() && TropicalWeight::one().is_one());
    assert_eq!(
        TropicalWeight::new(i64::MAX).times(&TropicalWeight::new(1)),
        Err(FstError::WeightOverflow)
    );
    assert!(TropicalWeight::properties().contains(LEFT_SEMIRING | COMMUTATIVE | IDEMPOTENT | PATH));
}

#[test]
fn costs_are_divided_by_subtraction() {
    let side = DivideType::DivideLeft;
    let zero = TropicalWeight::zero();
    assert_eq!(w(5).divide(&w(3), side), Ok(w(2)));
    assert_eq!(zero.divide(&w(3), side), Ok(zero));
    assert_eq!(w(5).divide(&zero, side), Err(FstError::DivisionByZero));
    assert_eq!(
        TropicalWeight::new(i64::MIN).divide(&TropicalWeight::new(1), side),
        Err(FstError::WeightOverflow)
    );
}

#[test]
fn costs_are_rounded_to_the_nearest_step() {
    let round = |ticks: i64, step: u32| {
        TropicalWeight::new(ticks).quantize(TickDelta { ticks: step }).unwrap().ticks().unwrap()
    };
    assert_eq!(round(7, 1), 7);
    assert_eq!(round(7, 4), 8);
    assert_eq!(round(6, 4), 8);
    assert_eq!(round(5, 4), 4);
    assert_eq!(round(-6, 4), -4);
    assert_eq!(round(-7, 4), -8);
    assert_eq!(round(7, 0), 7);
    let zero = TropicalWeight::zero();
    assert_eq!(zero.quantize(TickDelta { ticks: 4 }), Ok(zero));
    assert_eq!(
        TropicalWeight::new(i64::MAX).quantize(TickDelta { ticks: 4 }),
        Err(FstError::WeightOverflow)
    );
}

#[test]
fn shorter_strings_come_first() {
    assert!(comes_before(&vec![9], &vec![1, 1]));
    assert!(comes_before(&vec![1, 2], &vec![1, 3]));
    assert!(!comes_before(&vec![1, 3], &vec![1, 2]));
    assert!(!comes_before(&vec![1], &vec![1]));
}

#[test]
fn restricted_sums_need_equal_strings() {
    assert!(restrict(&[1], 2).plus(&restrict(&[1], 3)).unwrap().same(&restrict(&[1], 2)));
    assert!(matches!(
        restrict(&[1], 2).plus(&restrict(&[2], 3)),
        Err(FstError::NonFunctional)
    ));
    assert!(restrict(&[1], 2).plus(&Restrict::zero()).unwrap().same(&restrict(&[1], 2)));
    assert!(restrict(&[1], 2)
        .times(&restrict(&[2, 3], 3))
        .unwrap()
        .same(&restrict(&[1, 2, 3], 5)));
    assert!(restrict(&[1], 2).times(&Restrict::zero()).unwrap().is_zero());
}

#[test]
fn minimal_sums_keep_the_better_item() {
    assert!(min(&[1], 2).plus(&min(&[2], 3)).unwrap().same(&min(&[1], 2)));
    assert!(min(&[1], 3).plus(&min(&[2], 2)).unwrap().same(&min(&[2], 2)));
    assert!(min(&[1], 2).times(&min(&[2], 3)).unwrap().same(&min(&[1, 2], 5)));
}

#[test]
fn unions_keep_all_strings() {
    let sum = union(&[(&[2], 1)]).plus(&union(&[(&[1], 3), (&[1, 1], 0)])).unwrap();
    assert!(sum.same(&union(&[(&[1], 3), (&[2], 1), (&[1, 1], 0)])));
    let sum = union(&[(&[1], 5), (&[2], 1)]).plus(&union(&[(&[1], 3)])).unwrap();
    assert!(sum.same(&union(&[(&[1], 3), (&[2], 1)])));
    let product = union(&[(&[1], 1), (&[2], 2)]).times(&union(&[(&[3], 10)])).unwrap();
    assert!(product.same(&union(&[(&[1, 3], 11), (&[2, 3], 12)])));
}

#[test]
fn strings_are_divided_on_the_left() {
    let left = DivideType::DivideLeft;
    assert!(restrict(&[1, 2, 3], 5)
        .divide(&restrict(&[1], 2), left)
        .unwrap()
        .same(&restrict(&[2, 3], 3)));
    assert!(matches!(
        restrict(&[1], 5).divide(&Restrict::zero(), left),
        Err(FstError::DivisionByZero)
    ));
    assert!(matches!(
        restrict(&[1], 5).divide(&restrict(&[1], 1), DivideType::DivideRight),
        Err(FstError::NotLeftDivision)
    ));
    assert!(matches!(
        union(&[(&[1], 1), (&[2], 1)]).divide(&union(&[(&[1], 1), (&[2], 1)]), left),
        Err(FstError::NoSingleString)
    ));
    assert!(union(&[(&[1, 2], 4), (&[1, 3], 6)])
        .divide(&union(&[(&[1], 4)]), left)
        .unwrap()
        .same(&union(&[(&[2], 0), (&[3], 2)])));
}

#[test]
fn output_labels_move_into_the_weights_and_back() {
    let mut fst = VectorFst::<TropicalWeight>::new();
    fst.add_states(2);
    fst.set_start(0).unwrap();
    fst.set_final(1, w(1)).unwrap();
    fst.add_tr(0, Tr::new(1, 5, w(2), 1)).unwrap();
    fst.add_tr(0, Tr::new(2, 0, w(3), 1)).unwrap();
    let automaton: VectorFst<Restrict> = to_gallic(&fst);
    let trs = automaton.get_trs(0).unwrap();
    assert_eq!((trs[0].ilabel, trs[0].olabel), (1, 1));
    assert!(trs[0].weight.same(&restrict(&[5], 2)));
    assert!(trs[1].weight.same(&restrict(&[], 3)));
    assert!(automaton.final_weight(1).unwrap().unwrap().same(&restrict(&[], 1)));
    let back: VectorFst<TropicalWeight> = from_gallic(&automaton).unwrap();
    assert_eq!(back, fst);
}

#[test]
fn strings_of_several_labels_have_no_transition() {
    let mut automaton = VectorFst::<Restrict>::new();
    automaton.add_states(2);
    automaton.set_start(0).unwrap();
    automaton.set_final(1, Restrict::one()).unwrap();
    automaton.add_tr(0, Tr::new(1, 1, restrict(&[5, 6], 2), 1)).unwrap();
    let back: Result<VectorFst<TropicalWeight>, FstError> = from_gallic(&automaton);
    assert_eq!(back, Err(FstError::UnexpectedString));
}

#[test]
fn final_strings_are_written_label_by_label() {
    let mut automaton = VectorFst::<Restrict>::new();
    automaton.add_states(1);
    automaton.set_start(0).unwrap();
    automaton.set_final(0, restrict(&[5, 6], 2)).unwrap();
    let factored =
        factor_weight::<TropicalWeight, Restrict>(&automaton, TickDelta { ticks: 1 }).unwrap();
    let back: VectorFst<TropicalWeight> = from_gallic(&factored).unwrap();
    let mut expected = VectorFst::<TropicalWeight>::new();
    expected.add_states(3);
    expected.set_start(0).unwrap();
    expected.set_final(2, w(0)).unwrap();
    expected.add_tr(0, Tr::new(0, 5, w(2), 1)).unwrap();
    expected.add_tr(1, Tr::new(0, 6, w(0), 2)).unwrap();
    assert_eq!(back, expected);
}
