//! What a table of subsets says when it is asked for their states.

use crate::determinize::element::{ElementM, TupleM};
use crate::determinize::state_table::{find_model, lemma_find, subset_distance, TableM};
use crate::error::FstError;
use crate::fst::tr::{StateId, NO_STATE_ID};
use crate::semirings::semiring::Semiring;
use vstd::prelude::*;

verus! {

/// A subset has one state, whenever it is asked for: asking again, at once or after another
/// subset was asked for, gives the same state and changes nothing. Different subsets have
/// different states.
pub proof fn law_subsets_are_named_once<W: Semiring>(
    t: TableM<W::M>,
    a: TupleM<W::M>,
    b: TupleM<W::M>,
)
    requires
        t.valid(),
    ensures
        ({
            let (t1, r) = find_model::<W>(t, a);
            let (t2, q) = find_model::<W>(t1, b);
            r matches Ok(id) ==> {
                &&& find_model::<W>(t1, a) == (t1, Ok::<StateId, FstError>(id))
                &&& find_model::<W>(t2, a) == (t2, Ok::<StateId, FstError>(id))
                &&& a != b ==> q != Ok::<StateId, FstError>(id)
            }
        }),
{
    let (t1, r) = find_model::<W>(t, a);
    let (t2, q) = find_model::<W>(t1, b);
    lemma_find::<W>(t, a);
    lemma_find::<W>(t1, b);
    if let Ok(id) = r {
        assert(t1.tuples[id as int] == a);
        assert(t2.tuples[id as int] == a);
        let i = t1.tuples.index_of(a);
        assert(t1.tuples[i] == a && 0 <= i < t1.tuples.len()) by {
            assert(t1.tuples.contains(a));
        }
        assert(i == id);
        let j = t2.tuples.index_of(a);
        assert(t2.tuples[j] == a && 0 <= j < t2.tuples.len()) by {
            assert(t2.tuples.contains(a));
        }
        assert(j == id);
    }
}

/// A subset that has no state yet gets the next one, if there is an id left, its elements
/// are within the limit, and its distance, where distances are asked for, can be computed.
/// All others keep their states.
pub proof fn law_new_subset_gets_next_state<W: Semiring>(t: TableM<W::M>, tuple: TupleM<W::M>)
    requires
        t.valid(),
        !t.tuples.contains(tuple),
        t.tuples.len() < NO_STATE_ID,
        t.max_elements matches Some(limit) ==> limit == usize::MAX || t.stored + tuple.pairs.len()
            <= limit,
        t.in_dist matches Some(d) ==> subset_distance::<W>(tuple.pairs, d) is Ok,
    ensures
        ({
            let (after, r) = find_model::<W>(t, tuple);
            &&& r == Ok::<StateId, FstError>(t.tuples.len() as StateId)
            &&& after.tuples == t.tuples.push(tuple)
            &&& after.in_dist == t.in_dist
            &&& after.max_elements == t.max_elements
        }),
{
}

/// The distance of no states is zero, and one more element adds the product of its weight
/// and the distance of its state.
pub proof fn law_subset_distance_adds_up<W: Semiring>(
    pairs: Seq<ElementM<W::M>>,
    last: ElementM<W::M>,
    in_dist: Seq<W::M>,
    sum: W::M,
    product: W::M,
    total: W::M,
)
    requires
        subset_distance::<W>(pairs, in_dist) == Ok::<W::M, FstError>(sum),
        last.state < in_dist.len(),
        W::times_model(last.weight, in_dist[last.state as int]) == Ok::<W::M, FstError>(product),
        W::plus_model(sum, product) == Ok::<W::M, FstError>(total),
    ensures
        subset_distance::<W>(pairs.push(last), in_dist) == Ok::<W::M, FstError>(total),
        subset_distance::<W>(Seq::empty(), in_dist) == Ok::<W::M, FstError>(W::zero_model()),
{
    assert(pairs.push(last).drop_last() =~= pairs);
}

} // verus!
