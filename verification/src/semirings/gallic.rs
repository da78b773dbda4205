//! Weights that carry an output string along with a weight.

use crate::error::FstError;
use crate::fst::tr::{Label, EPS_LABEL};
use crate::semirings::semiring::{
    DivideType, Semiring, SemiringProperties, WeaklyDivisibleSemiring, WeightQuantize, IDEMPOTENT,
    LEFT_SEMIRING, RIGHT_SEMIRING,
};
use vstd::prelude::*;

verus! {

/// An output string and a weight.
#[derive(Debug)]
pub struct GallicItem<W> {
    pub string: Vec<Label>,
    pub weight: W,
}

/// The mathematical value of an item.
#[verifier::ext_equal]
pub struct ItemM<M> {
    pub string: Seq<Label>,
    pub weight: M,
}

/// The string that writes one label; the empty label writes nothing.
pub open spec fn label_string(label: Label) -> Seq<Label> {
    if label == EPS_LABEL {
        Seq::empty()
    } else {
        seq![label]
    }
}

/// What is left of a string after its first `n` labels.
pub open spec fn after_first(string: Seq<Label>, n: nat) -> Seq<Label> {
    if n >= string.len() {
        Seq::empty()
    } else {
        string.skip(n as int)
    }
}

/// The first label of a string, as a string.
pub open spec fn first_of(string: Seq<Label>) -> Seq<Label> {
    if string.len() == 0 {
        string
    } else {
        seq![string[0]]
    }
}

/// Shorter strings come first, and strings of the same length in the order of
/// their labels.
pub open spec fn string_less(a: Seq<Label>, b: Seq<Label>) -> bool {
    a.len() < b.len() || (a.len() == b.len() && label_less(a, b))
}

/// The first label in which two strings of the same length differ is smaller in
/// the first.
pub open spec fn label_less(a: Seq<Label>, b: Seq<Label>) -> bool {
    exists|i: int|
        0 <= i < a.len() && #[trigger] a[i] < b[i] && forall|j: int|
            0 <= j < i ==> #[trigger] a[j] == b[j]
}

/// The items one after the other: strings are joined and weights multiplied.
pub open spec fn item_times<W: Semiring>(a: ItemM<W::M>, b: ItemM<W::M>) -> Result<
    ItemM<W::M>,
    FstError,
> {
    match W::times_model(a.weight, b.weight) {
        Err(e) => Err(e),
        Ok(weight) => Ok(ItemM { string: a.string + b.string, weight }),
    }
}

/// The item from whose left another has been taken.
pub open spec fn item_divide<W: WeaklyDivisibleSemiring>(
    a: ItemM<W::M>,
    b: ItemM<W::M>,
    side: DivideType,
) -> Result<ItemM<W::M>, FstError> {
    if side != DivideType::DivideLeft {
        Err(FstError::NotLeftDivision)
    } else {
        match W::divide_model(a.weight, b.weight, side) {
            Err(e) => Err(e),
            Ok(weight) => Ok(ItemM { string: after_first(a.string, b.string.len()), weight }),
        }
    }
}

/// The item with its weight rounded.
pub open spec fn item_quantize<W: WeightQuantize>(a: ItemM<W::M>, delta: W::Delta) -> Result<
    ItemM<W::M>,
    FstError,
> {
    match W::quantize_model(a.weight, delta) {
        Err(e) => Err(e),
        Ok(weight) => Ok(ItemM { string: a.string, weight }),
    }
}

/// The item that writes one label with the given weight.
pub open spec fn label_item<M>(label: Label, weight: M) -> ItemM<M> {
    ItemM { string: label_string(label), weight }
}

/// The first label with the weight, and the rest without weight.
pub open spec fn item_factors<W: Semiring>(a: ItemM<W::M>) -> (ItemM<W::M>, ItemM<W::M>) {
    (
        ItemM { string: first_of(a.string), weight: a.weight },
        ItemM { string: after_first(a.string, 1), weight: W::one_model() },
    )
}

/// The label that an item writes, and its weight. The empty label stands for no
/// label and is not one.
pub open spec fn item_extract<M>(a: ItemM<M>) -> Result<(Label, M), FstError> {
    if a.string.len() > 1 || (a.string.len() == 1 && a.string[0] == EPS_LABEL) {
        Err(FstError::UnexpectedString)
    } else if a.string.len() == 1 {
        Ok((a.string[0], a.weight))
    } else {
        Ok((EPS_LABEL, a.weight))
    }
}

/// A second list of the same labels.
fn copy_labels(a: &Vec<Label>) -> (r: Vec<Label>)
    ensures
        r@ == a@,
{
    let mut r: Vec<Label> = Vec::new();
    let n: usize = a.len();
    for i in 0..n
        invariant
            n == a.len(),
            r@ == a@.take(i as int),
    {
        r.push(a[i]);
        assert(r@ =~= a@.take(i + 1));
    }
    assert(a@.take(n as int) =~= a@);
    r
}

/// Whether the two lists hold the same labels.
fn same_labels(a: &Vec<Label>, b: &Vec<Label>) -> (r: bool)
    ensures
        r == (a@ == b@),
{
    let n: usize = a.len();
    if n != b.len() {
        return false;
    }
    for i in 0..n
        invariant
            n == a.len(),
            n == b.len(),
            forall|j: int| 0 <= j < i ==> a@[j] == b@[j],
    {
        if a[i] != b[i] {
            assert(a@[i as int] != b@[i as int]);
            return false;
        }
    }
    assert(a@ =~= b@);
    true
}

/// The labels after the first `n`.
fn skip_labels(a: &Vec<Label>, n: usize) -> (r: Vec<Label>)
    ensures
        r@ == after_first(a@, n as nat),
{
    let mut r: Vec<Label> = Vec::new();
    let len: usize = a.len();
    if n >= len {
        assert(r@ =~= Seq::empty());
        return r;
    }
    for i in n..len
        invariant
            len == a.len(),
            n < len,
            r@ == a@.subrange(n as int, i as int),
    {
        r.push(a[i]);
        assert(r@ =~= a@.subrange(n as int, i + 1));
    }
    assert(a@.subrange(n as int, len as int) =~= a@.skip(n as int));
    r
}

/// The first label, if there is one.
fn first_label(a: &Vec<Label>) -> (r: Vec<Label>)
    ensures
        r@ == first_of(a@),
{
    let mut r: Vec<Label> = Vec::new();
    if a.len() > 0 {
        r.push(a[0]);
        assert(r@ =~= seq![a@[0]]);
    } else {
        assert(r@ =~= a@);
    }
    r
}

/// Whether the first string comes before the second.
pub fn comes_before(a: &Vec<Label>, b: &Vec<Label>) -> (r: bool)
    ensures
        r == string_less(a@, b@),
{
    let n: usize = a.len();
    if n != b.len() {
        return n < b.len();
    }
    for i in 0..n
        invariant
            n == a.len(),
            n == b.len(),
            forall|j: int| 0 <= j < i ==> a@[j] == b@[j],
    {
        if a[i] < b[i] {
            assert(label_less(a@, b@));
            return true;
        }
        if a[i] > b[i] {
            proof {
                if label_less(a@, b@) {
                    let k = choose|k: int|
                        0 <= k < a@.len() && #[trigger] a@[k] < b@[k] && forall|j: int|
                            0 <= j < k ==> #[trigger] a@[j] == b@[j];
                    if k > i {
                        assert(a@[i as int] == b@[i as int]);
                    }
                }
            }
            return false;
        }
    }
    false
}

impl<W: Semiring> GallicItem<W> {
    pub open spec fn model(&self) -> ItemM<W::M> {
        ItemM { string: self.string@, weight: self.weight.model() }
    }

    /// The item that writes one label with the given weight.
    pub fn of_label(label: Label, weight: W) -> (r: Self)
        ensures
            r.model() == label_item(label, weight.model()),
    {
        let mut string: Vec<Label> = Vec::new();
        if label != EPS_LABEL {
            string.push(label);
        }
        assert(string@ =~= label_string(label));
        GallicItem { string, weight }
    }

    /// The item that writes nothing.
    pub fn one() -> (r: Self)
        ensures
            r.model() == (ItemM { string: Seq::empty(), weight: W::one_model() }),
    {
        let r = GallicItem { string: Vec::new(), weight: W::one() };
        assert(r.string@ =~= Seq::empty());
        r
    }

    /// A second item of the same value.
    pub fn duplicate(&self) -> (r: Self)
        ensures
            r.model() == self.model(),
    {
        GallicItem { string: copy_labels(&self.string), weight: self.weight.duplicate() }
    }

    /// Whether the two items have the same value.
    pub fn same(&self, other: &Self) -> (r: bool)
        ensures
            r == (self.model() == other.model()),
    {
        same_labels(&self.string, &other.string) && self.weight.same(&other.weight)
    }

    /// Whether the two items write the same.
    pub fn same_string(&self, other: &Self) -> (r: bool)
        ensures
            r == (self.model().string == other.model().string),
    {
        same_labels(&self.string, &other.string)
    }

    /// The item with another weight.
    pub fn with_weight(&self, weight: W) -> (r: Self)
        ensures
            r.model() == (ItemM { string: self.model().string, weight: weight.model() }),
    {
        GallicItem { string: copy_labels(&self.string), weight }
    }

    pub fn times(&self, rhs: &Self) -> (r: Result<Self, FstError>)
        ensures
            match r {
                Ok(v) => item_times::<W>(self.model(), rhs.model()) == Ok::<
                    ItemM<W::M>,
                    FstError,
                >(v.model()),
                Err(e) => item_times::<W>(self.model(), rhs.model()) == Err::<
                    ItemM<W::M>,
                    FstError,
                >(e),
            },
    {
        let weight: W = match self.weight.times(&rhs.weight) {
            Ok(w) => w,
            Err(e) => {
                return Err(e);
            },
        };
        let mut string: Vec<Label> = copy_labels(&self.string);
        let n: usize = rhs.string.len();
        assert(string@ =~= self.string@ + rhs.string@.take(0));
        for i in 0..n
            invariant
                n == rhs.string.len(),
                string@ == self.string@ + rhs.string@.take(i as int),
        {
            string.push(rhs.string[i]);
            assert(string@ =~= self.string@ + rhs.string@.take(i + 1));
        }
        assert(rhs.string@.take(n as int) =~= rhs.string@);
        Ok(GallicItem { string, weight })
    }

    /// The label that the item writes, and its weight.
    pub fn extract(&self) -> (r: Result<(Label, W), FstError>)
        ensures
            match r {
                Ok((l, w)) => item_extract(self.model()) == Ok::<(Label, W::M), FstError>(
                    (l, w.model()),
                ),
                Err(e) => item_extract(self.model()) == Err::<(Label, W::M), FstError>(e),
            },
    {
        if self.string.len() > 1 || (self.string.len() == 1 && self.string[0] == EPS_LABEL) {
            Err(FstError::UnexpectedString)
        } else if self.string.len() == 1 {
            Ok((self.string[0], self.weight.duplicate()))
        } else {
            Ok((EPS_LABEL, self.weight.duplicate()))
        }
    }

    /// The first label with the weight, and the rest without weight.
    pub fn factors(&self) -> (r: (Self, Self))
        ensures
            (r.0.model(), r.1.model()) == item_factors::<W>(self.model()),
    {
        (
            GallicItem { string: first_label(&self.string), weight: self.weight.duplicate() },
            GallicItem { string: skip_labels(&self.string, 1), weight: W::one() },
        )
    }

    /// What the two strings have in common at their front, up to one label, with
    /// the given weight.
    pub fn common_front(&self, other: &Self, weight: W) -> (r: Self)
        ensures
            r.model() == (ItemM {
                string: common_first(self.model().string, other.model().string),
                weight: weight.model(),
            }),
    {
        let mut string: Vec<Label> = Vec::new();
        if self.string.len() > 0 && other.string.len() > 0 && self.string[0] == other.string[0] {
            string.push(self.string[0]);
        }
        assert(string@ =~= common_first(self.string@, other.string@));
        GallicItem { string, weight }
    }

    /// The first label of the string with the given weight.
    pub fn front(&self, weight: W) -> (r: Self)
        ensures
            r.model() == (ItemM {
                string: first_of(self.model().string),
                weight: weight.model(),
            }),
    {
        GallicItem { string: first_label(&self.string), weight }
    }
}

/// The label that two strings begin with, as a string.
pub open spec fn common_first(a: Seq<Label>, b: Seq<Label>) -> Seq<Label> {
    if a.len() > 0 && b.len() > 0 && a[0] == b[0] {
        seq![a[0]]
    } else {
        Seq::empty()
    }
}

impl<W: WeaklyDivisibleSemiring> GallicItem<W> {
    pub fn divide(&self, rhs: &Self, side: DivideType) -> (r: Result<Self, FstError>)
        ensures
            match r {
                Ok(v) => item_divide::<W>(self.model(), rhs.model(), side) == Ok::<
                    ItemM<W::M>,
                    FstError,
                >(v.model()),
                Err(e) => item_divide::<W>(self.model(), rhs.model(), side) == Err::<
                    ItemM<W::M>,
                    FstError,
                >(e),
            },
    {
        if side != DivideType::DivideLeft {
            return Err(FstError::NotLeftDivision);
        }
        match self.weight.divide(&rhs.weight, side) {
            Ok(weight) => Ok(
                GallicItem { string: skip_labels(&self.string, rhs.string.len()), weight },
            ),
            Err(e) => Err(e),
        }
    }
}

impl<W: WeightQuantize> GallicItem<W> {
    pub fn quantize(&self, delta: W::Delta) -> (r: Result<Self, FstError>)
        ensures
            match r {
                Ok(v) => item_quantize::<W>(self.model(), delta) == Ok::<ItemM<W::M>, FstError>(
                    v.model(),
                ),
                Err(e) => item_quantize::<W>(self.model(), delta) == Err::<ItemM<W::M>, FstError>(
                    e,
                ),
            },
    {
        match self.weight.quantize(delta) {
            Ok(weight) => Ok(GallicItem { string: copy_labels(&self.string), weight }),
            Err(e) => Err(e),
        }
    }
}

/// The mathematical value of an optional item.
pub open spec fn item_option<W: Semiring>(a: Option<GallicItem<W>>) -> Option<ItemM<W::M>> {
    match a {
        Some(item) => Some(item.model()),
        None => None,
    }
}

/// A second optional item of the same value.
fn duplicate_item<W: Semiring>(a: &Option<GallicItem<W>>) -> (r: Option<GallicItem<W>>)
    ensures
        item_option(r) == item_option(*a),
{
    match a {
        Some(item) => Some(item.duplicate()),
        None => None,
    }
}

fn same_item<W: Semiring>(a: &Option<GallicItem<W>>, b: &Option<GallicItem<W>>) -> (r: bool)
    ensures
        r == (item_option(*a) == item_option(*b)),
{
    match (a, b) {
        (Some(x), Some(y)) => x.same(y),
        (None, None) => true,
        _ => false,
    }
}

/// The product of two optional items: nothing, if one of them is nothing.
pub open spec fn option_times<W: Semiring>(
    a: Option<ItemM<W::M>>,
    b: Option<ItemM<W::M>>,
) -> Result<Option<ItemM<W::M>>, FstError> {
    match (a, b) {
        (Some(x), Some(y)) => match item_times::<W>(x, y) {
            Ok(v) => Ok(Some(v)),
            Err(e) => Err(e),
        },
        _ => Ok(None),
    }
}

/// The quotient of two optional items.
pub open spec fn option_divide<W: WeaklyDivisibleSemiring>(
    a: Option<ItemM<W::M>>,
    b: Option<ItemM<W::M>>,
    side: DivideType,
) -> Result<Option<ItemM<W::M>>, FstError> {
    match (a, b) {
        (_, None) => Err(FstError::DivisionByZero),
        (None, Some(_)) => if side != DivideType::DivideLeft {
            Err(FstError::NotLeftDivision)
        } else {
            Ok(None)
        },
        (Some(x), Some(y)) => match item_divide::<W>(x, y, side) {
            Ok(v) => Ok(Some(v)),
            Err(e) => Err(e),
        },
    }
}

/// The optional item with its weight rounded.
pub open spec fn option_quantize<W: WeightQuantize>(
    a: Option<ItemM<W::M>>,
    delta: W::Delta,
) -> Result<Option<ItemM<W::M>>, FstError> {
    match a {
        None => Ok(None),
        Some(x) => match item_quantize::<W>(x, delta) {
            Ok(v) => Ok(Some(v)),
            Err(e) => Err(e),
        },
    }
}

fn times_option<W: Semiring>(a: &Option<GallicItem<W>>, b: &Option<GallicItem<W>>) -> (r: Result<
    Option<GallicItem<W>>,
    FstError,
>)
    ensures
        match r {
            Ok(v) => option_times::<W>(item_option(*a), item_option(*b)) == Ok::<
                Option<ItemM<W::M>>,
                FstError,
            >(item_option(v)),
            Err(e) => option_times::<W>(item_option(*a), item_option(*b)) == Err::<
                Option<ItemM<W::M>>,
                FstError,
            >(e),
        },
{
    match (a, b) {
        (Some(x), Some(y)) => match x.times(y) {
            Ok(v) => Ok(Some(v)),
            Err(e) => Err(e),
        },
        _ => Ok(None),
    }
}

fn divide_option<W: WeaklyDivisibleSemiring>(
    a: &Option<GallicItem<W>>,
    b: &Option<GallicItem<W>>,
    side: DivideType,
) -> (r: Result<Option<GallicItem<W>>, FstError>)
    ensures
        match r {
            Ok(v) => option_divide::<W>(item_option(*a), item_option(*b), side) == Ok::<
                Option<ItemM<W::M>>,
                FstError,
            >(item_option(v)),
            Err(e) => option_divide::<W>(item_option(*a), item_option(*b), side) == Err::<
                Option<ItemM<W::M>>,
                FstError,
            >(e),
        },
{
    match (a, b) {
        (_, None) => Err(FstError::DivisionByZero),
        (None, Some(_)) => if side != DivideType::DivideLeft {
            Err(FstError::NotLeftDivision)
        } else {
            Ok(None)
        },
        (Some(x), Some(y)) => match x.divide(y, side) {
            Ok(v) => Ok(Some(v)),
            Err(e) => Err(e),
        },
    }
}

fn quantize_option<W: WeightQuantize>(a: &Option<GallicItem<W>>, delta: W::Delta) -> (r: Result<
    Option<GallicItem<W>>,
    FstError,
>)
    ensures
        match r {
            Ok(v) => option_quantize::<W>(item_option(*a), delta) == Ok::<
                Option<ItemM<W::M>>,
                FstError,
            >(item_option(v)),
            Err(e) => option_quantize::<W>(item_option(*a), delta) == Err::<
                Option<ItemM<W::M>>,
                FstError,
            >(e),
        },
{
    match a {
        None => Ok(None),
        Some(x) => match x.quantize(delta) {
            Ok(v) => Ok(Some(v)),
            Err(e) => Err(e),
        },
    }
}

/// What a weight that carries strings keeps of the properties of a semiring.
pub open spec fn gallic_properties(p: SemiringProperties) -> SemiringProperties {
    SemiringProperties { bits: p.bits & (LEFT_SEMIRING | RIGHT_SEMIRING | IDEMPOTENT) }
}

/// A string with a weight, or nothing. Only equal strings can be summed.
#[derive(Debug)]
pub struct GallicWeightRestrict<W> {
    pub item: Option<GallicItem<W>>,
}

/// The sum of two optional items that have to write the same.
pub open spec fn restrict_plus<W: Semiring>(
    a: Option<ItemM<W::M>>,
    b: Option<ItemM<W::M>>,
) -> Result<Option<ItemM<W::M>>, FstError> {
    match (a, b) {
        (None, _) => Ok(b),
        (_, None) => Ok(a),
        (Some(x), Some(y)) => if x.string != y.string {
            Err(FstError::NonFunctional)
        } else {
            match W::plus_model(x.weight, y.weight) {
                Ok(weight) => Ok(Some(ItemM { string: x.string, weight })),
                Err(e) => Err(e),
            }
        },
    }
}

impl<W: Semiring> Semiring for GallicWeightRestrict<W> {
    type M = Option<ItemM<W::M>>;

    open spec fn model(&self) -> Option<ItemM<W::M>> {
        item_option(self.item)
    }

    open spec fn zero_model() -> Option<ItemM<W::M>> {
        None
    }

    open spec fn one_model() -> Option<ItemM<W::M>> {
        Some(ItemM { string: Seq::empty(), weight: W::one_model() })
    }

    open spec fn plus_model(a: Option<ItemM<W::M>>, b: Option<ItemM<W::M>>) -> Result<
        Option<ItemM<W::M>>,
        FstError,
    > {
        restrict_plus::<W>(a, b)
    }

    open spec fn times_model(a: Option<ItemM<W::M>>, b: Option<ItemM<W::M>>) -> Result<
        Option<ItemM<W::M>>,
        FstError,
    > {
        option_times::<W>(a, b)
    }

    open spec fn properties_model() -> SemiringProperties {
        gallic_properties(W::properties_model())
    }

    fn zero() -> (r: Self) {
        GallicWeightRestrict { item: None }
    }

    fn one() -> (r: Self) {
        GallicWeightRestrict { item: Some(GallicItem::one()) }
    }

    fn plus(&self, rhs: &Self) -> (r: Result<Self, FstError>) {
        match (&self.item, &rhs.item) {
            (None, _) => Ok(rhs.duplicate()),
            (_, None) => Ok(self.duplicate()),
            (Some(x), Some(y)) => {
                if !x.same_string(y) {
                    return Err(FstError::NonFunctional);
                }
                match x.weight.plus(&y.weight) {
                    Ok(weight) => Ok(GallicWeightRestrict { item: Some(x.with_weight(weight)) }),
                    Err(e) => Err(e),
                }
            },
        }
    }

    fn times(&self, rhs: &Self) -> (r: Result<Self, FstError>) {
        match times_option(&self.item, &rhs.item) {
            Ok(item) => Ok(GallicWeightRestrict { item }),
            Err(e) => Err(e),
        }
    }

    fn properties() -> (r: SemiringProperties) {
        SemiringProperties {
            bits: W::properties().bits & (LEFT_SEMIRING | RIGHT_SEMIRING | IDEMPOTENT),
        }
    }

    fn same(&self, other: &Self) -> (b: bool) {
        same_item(&self.item, &other.item)
    }

    fn duplicate(&self) -> (r: Self) {
        GallicWeightRestrict { item: duplicate_item(&self.item) }
    }
}

impl<W: WeaklyDivisibleSemiring> WeaklyDivisibleSemiring for GallicWeightRestrict<W> {
    open spec fn divide_model(
        a: Option<ItemM<W::M>>,
        b: Option<ItemM<W::M>>,
        side: DivideType,
    ) -> Result<Option<ItemM<W::M>>, FstError> {
        option_divide::<W>(a, b, side)
    }

    fn divide(&self, rhs: &Self, side: DivideType) -> (r: Result<Self, FstError>) {
        match divide_option(&self.item, &rhs.item, side) {
            Ok(item) => Ok(GallicWeightRestrict { item }),
            Err(e) => Err(e),
        }
    }
}

impl<W: WeightQuantize> WeightQuantize for GallicWeightRestrict<W> {
    type Delta = W::Delta;

    open spec fn quantize_model(a: Option<ItemM<W::M>>, delta: W::Delta) -> Result<
        Option<ItemM<W::M>>,
        FstError,
    > {
        option_quantize::<W>(a, delta)
    }

    fn quantize(&self, delta: W::Delta) -> (r: Result<Self, FstError>) {
        match quantize_option(&self.item, delta) {
            Ok(item) => Ok(GallicWeightRestrict { item }),
            Err(e) => Err(e),
        }
    }
}

/// A string with a weight, or nothing. The sum is the one with the better weight.
#[derive(Debug)]
pub struct GallicWeightMin<W> {
    pub item: Option<GallicItem<W>>,
}

/// The weight of an optional item; zero where there is none.
pub open spec fn weight_or_zero<W: Semiring>(a: Option<ItemM<W::M>>) -> W::M {
    match a {
        Some(x) => x.weight,
        None => W::zero_model(),
    }
}

/// The optional item with the strictly better weight, or the second.
pub open spec fn min_plus<W: Semiring>(a: Option<ItemM<W::M>>, b: Option<ItemM<W::M>>) -> Result<
    Option<ItemM<W::M>>,
    FstError,
> {
    let (wa, wb) = (weight_or_zero::<W>(a), weight_or_zero::<W>(b));
    match W::plus_model(wa, wb) {
        Err(e) => Err(e),
        Ok(sum) => if sum == wa && wa != wb {
            Ok(a)
        } else {
            Ok(b)
        },
    }
}

fn weight_of_item<W: Semiring>(a: &Option<GallicItem<W>>) -> (r: W)
    ensures
        r.model() == weight_or_zero::<W>(item_option(*a)),
{
    match a {
        Some(x) => x.weight.duplicate(),
        None => W::zero(),
    }
}

impl<W: Semiring> Semiring for GallicWeightMin<W> {
    type M = Option<ItemM<W::M>>;

    open spec fn model(&self) -> Option<ItemM<W::M>> {
        item_option(self.item)
    }

    open spec fn zero_model() -> Option<ItemM<W::M>> {
        None
    }

    open spec fn one_model() -> Option<ItemM<W::M>> {
        Some(ItemM { string: Seq::empty(), weight: W::one_model() })
    }

    open spec fn plus_model(a: Option<ItemM<W::M>>, b: Option<ItemM<W::M>>) -> Result<
        Option<ItemM<W::M>>,
        FstError,
    > {
        min_plus::<W>(a, b)
    }

    open spec fn times_model(a: Option<ItemM<W::M>>, b: Option<ItemM<W::M>>) -> Result<
        Option<ItemM<W::M>>,
        FstError,
    > {
        option_times::<W>(a, b)
    }

    open spec fn properties_model() -> SemiringProperties {
        gallic_properties(W::properties_model())
    }

    fn zero() -> (r: Self) {
        GallicWeightMin { item: None }
    }

    fn one() -> (r: Self) {
        GallicWeightMin { item: Some(GallicItem::one()) }
    }

    fn plus(&self, rhs: &Self) -> (r: Result<Self, FstError>) {
        let mine: W = weight_of_item(&self.item);
        let other: W = weight_of_item(&rhs.item);
        match mine.plus(&other) {
            Ok(sum) => if sum.same(&mine) && !mine.same(&other) {
                Ok(self.duplicate())
            } else {
                Ok(rhs.duplicate())
            },
            Err(e) => Err(e),
        }
    }

    fn times(&self, rhs: &Self) -> (r: Result<Self, FstError>) {
        match times_option(&self.item, &rhs.item) {
            Ok(item) => Ok(GallicWeightMin { item }),
            Err(e) => Err(e),
        }
    }

    fn properties() -> (r: SemiringProperties) {
        SemiringProperties {
            bits: W::properties().bits & (LEFT_SEMIRING | RIGHT_SEMIRING | IDEMPOTENT),
        }
    }

    fn same(&self, other: &Self) -> (b: bool) {
        same_item(&self.item, &other.item)
    }

    fn duplicate(&self) -> (r: Self) {
        GallicWeightMin { item: duplicate_item(&self.item) }
    }
}

impl<W: WeaklyDivisibleSemiring> WeaklyDivisibleSemiring for GallicWeightMin<W> {
    open spec fn divide_model(
        a: Option<ItemM<W::M>>,
        b: Option<ItemM<W::M>>,
        side: DivideType,
    ) -> Result<Option<ItemM<W::M>>, FstError> {
        option_divide::<W>(a, b, side)
    }

    fn divide(&self, rhs: &Self, side: DivideType) -> (r: Result<Self, FstError>) {
        match divide_option(&self.item, &rhs.item, side) {
            Ok(item) => Ok(GallicWeightMin { item }),
            Err(e) => Err(e),
        }
    }
}

impl<W: WeightQuantize> WeightQuantize for GallicWeightMin<W> {
    type Delta = W::Delta;

    open spec fn quantize_model(a: Option<ItemM<W::M>>, delta: W::Delta) -> Result<
        Option<ItemM<W::M>>,
        FstError,
    > {
        option_quantize::<W>(a, delta)
    }

    fn quantize(&self, delta: W::Delta) -> (r: Result<Self, FstError>) {
        match quantize_option(&self.item, delta) {
            Ok(item) => Ok(GallicWeightMin { item }),
            Err(e) => Err(e),
        }
    }
}

} // verus!
