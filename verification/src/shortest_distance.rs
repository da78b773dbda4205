//! The distance of every state from the start, or to the final states.

use crate::determinize::determinize_fsa_op::final_or_zero;
use crate::determinize::state_table::weights_model;
use crate::error::FstError;
use crate::fst::tr::{trs_model, StateId, Tr, TrM};
use crate::fst::vector_fst::{FstM, VectorFst};
use crate::lazy::laws::closed_machine;
use crate::semirings::semiring::Semiring;
use vstd::prelude::*;

verus! {

/// Distances from the start before any transition was looked at.
pub open spec fn start_distances<W: Semiring>(fst: FstM<W::M>) -> Seq<W::M> {
    Seq::new(
        fst.states.len(),
        |v: int|
            if fst.start == Some(v as StateId) {
                W::one_model()
            } else {
                W::zero_model()
            },
    )
}

/// Distances to the final states before any transition was looked at.
pub open spec fn final_distances<W: Semiring>(fst: FstM<W::M>) -> Seq<W::M> {
    Seq::new(fst.states.len(), |v: int| final_or_zero::<W>(fst.states[v].final_weight))
}

/// The sums after the transitions of a state at distance `d` were followed.
pub open spec fn spread_trs<W: Semiring>(
    sums: Seq<W::M>,
    d: W::M,
    trs: Seq<TrM<W::M>>,
) -> Result<Seq<W::M>, FstError>
    decreases trs.len(),
{
    if trs.len() == 0 {
        Ok(sums)
    } else {
        match spread_trs::<W>(sums, d, trs.drop_last()) {
            Err(e) => Err(e),
            Ok(before) => match W::times_model(d, trs.last().weight) {
                Err(e) => Err(e),
                Ok(through) => match W::plus_model(
                    before[trs.last().nextstate as int],
                    through,
                ) {
                    Err(e) => Err(e),
                    Ok(sum) => Ok(before.update(trs.last().nextstate as int, sum)),
                },
            },
        }
    }
}

/// The distances from the start over one transition more, for the transitions of
/// the first `n` states.
pub open spec fn spread<W: Semiring>(fst: FstM<W::M>, dist: Seq<W::M>, n: int) -> Result<
    Seq<W::M>,
    FstError,
>
    decreases n,
{
    if n <= 0 {
        Ok(start_distances::<W>(fst))
    } else {
        match spread::<W>(fst, dist, n - 1) {
            Err(e) => Err(e),
            Ok(sums) => spread_trs::<W>(sums, dist[n - 1], fst.states[n - 1].trs),
        }
    }
}

/// The sum of the ways that lead on by the given transitions.
pub open spec fn gather_trs<W: Semiring>(
    sum: W::M,
    dist: Seq<W::M>,
    trs: Seq<TrM<W::M>>,
) -> Result<W::M, FstError>
    decreases trs.len(),
{
    if trs.len() == 0 {
        Ok(sum)
    } else {
        match gather_trs::<W>(sum, dist, trs.drop_last()) {
            Err(e) => Err(e),
            Ok(before) => match W::times_model(
                trs.last().weight,
                dist[trs.last().nextstate as int],
            ) {
                Err(e) => Err(e),
                Ok(through) => W::plus_model(before, through),
            },
        }
    }
}

/// The distances to the final states over one transition more, for the first `n`
/// states.
pub open spec fn gather<W: Semiring>(fst: FstM<W::M>, dist: Seq<W::M>, n: int) -> Result<
    Seq<W::M>,
    FstError,
>
    decreases n,
{
    if n <= 0 {
        Ok(Seq::empty())
    } else {
        match gather::<W>(fst, dist, n - 1) {
            Err(e) => Err(e),
            Ok(sums) => match gather_trs::<W>(
                final_or_zero::<W>(fst.states[n - 1].final_weight),
                dist,
                fst.states[n - 1].trs,
            ) {
                Err(e) => Err(e),
                Ok(sum) => Ok(sums.push(sum)),
            },
        }
    }
}

/// The distances over paths of at most `k` transitions.
pub open spec fn distances_within<W: Semiring>(fst: FstM<W::M>, reverse: bool, k: nat) -> Result<
    Seq<W::M>,
    FstError,
>
    decreases k,
{
    if k == 0 {
        if reverse {
            Ok(final_distances::<W>(fst))
        } else {
            Ok(start_distances::<W>(fst))
        }
    } else {
        match distances_within::<W>(fst, reverse, (k - 1) as nat) {
            Err(e) => Err(e),
            Ok(dist) => if reverse {
                gather::<W>(fst, dist, fst.states.len() as int)
            } else {
                spread::<W>(fst, dist, fst.states.len() as int)
            },
        }
    }
}

/// Longer paths make no difference any more.
pub open spec fn settled<W: Semiring>(fst: FstM<W::M>, reverse: bool, k: nat) -> bool {
    distances_within::<W>(fst, reverse, k + 1) == distances_within::<W>(fst, reverse, k)
}

/// From some length on, longer paths make no difference.
pub open spec fn settles<W: Semiring>(fst: FstM<W::M>, reverse: bool) -> bool {
    exists|k: nat| #[trigger] settled::<W>(fst, reverse, k)
}

/// The distances over all paths.
pub open spec fn distances<W: Semiring>(fst: FstM<W::M>, reverse: bool) -> Result<
    Seq<W::M>,
    FstError,
> {
    let k = choose|k: nat| #[trigger] settled::<W>(fst, reverse, k);
    distances_within::<W>(fst, reverse, k)
}

/// What has settled stays so.
pub proof fn lemma_settled<W: Semiring>(fst: FstM<W::M>, reverse: bool, j: nat, k: nat)
    requires
        settled::<W>(fst, reverse, j),
        j <= k,
    ensures
        settled::<W>(fst, reverse, k),
        distances_within::<W>(fst, reverse, k) == distances_within::<W>(fst, reverse, j),
    decreases k - j,
{
    if j < k {
        lemma_settled::<W>(fst, reverse, j, (k - 1) as nat);
        assert(distances_within::<W>(fst, reverse, k) == distances_within::<W>(
            fst,
            reverse,
            (k - 1) as nat,
        ));
    }
}

/// However late one looks, the settled distances are the same.
pub proof fn lemma_distances<W: Semiring>(fst: FstM<W::M>, reverse: bool, k: nat)
    requires
        settled::<W>(fst, reverse, k),
    ensures
        distances::<W>(fst, reverse) == distances_within::<W>(fst, reverse, k),
{
    let j = choose|k: nat| #[trigger] settled::<W>(fst, reverse, k);
    if j <= k {
        lemma_settled::<W>(fst, reverse, j, k);
    } else {
        lemma_settled::<W>(fst, reverse, k, j);
    }
}

proof fn lemma_spread_trs_fails<W: Semiring>(
    sums: Seq<W::M>,
    d: W::M,
    trs: Seq<TrM<W::M>>,
    i: int,
)
    requires
        0 <= i <= trs.len(),
    ensures
        spread_trs::<W>(sums, d, trs.take(i)) matches Err(e) ==> spread_trs::<W>(sums, d, trs)
            == Err::<Seq<W::M>, FstError>(e),
    decreases trs.len() - i,
{
    if i < trs.len() {
        assert(trs.take(i + 1).drop_last() =~= trs.take(i));
        lemma_spread_trs_fails::<W>(sums, d, trs, i + 1);
    } else {
        assert(trs.take(i) =~= trs);
    }
}

proof fn lemma_gather_trs_fails<W: Semiring>(
    sum: W::M,
    dist: Seq<W::M>,
    trs: Seq<TrM<W::M>>,
    i: int,
)
    requires
        0 <= i <= trs.len(),
    ensures
        gather_trs::<W>(sum, dist, trs.take(i)) matches Err(e) ==> gather_trs::<W>(sum, dist, trs)
            == Err::<W::M, FstError>(e),
    decreases trs.len() - i,
{
    if i < trs.len() {
        assert(trs.take(i + 1).drop_last() =~= trs.take(i));
        lemma_gather_trs_fails::<W>(sum, dist, trs, i + 1);
    } else {
        assert(trs.take(i) =~= trs);
    }
}

proof fn lemma_spread_fails<W: Semiring>(fst: FstM<W::M>, dist: Seq<W::M>, i: int, n: int)
    requires
        0 <= i <= n,
    ensures
        spread::<W>(fst, dist, i) matches Err(e) ==> spread::<W>(fst, dist, n) == Err::<
            Seq<W::M>,
            FstError,
        >(e),
    decreases n - i,
{
    if i < n {
        lemma_spread_fails::<W>(fst, dist, i + 1, n);
    }
}

proof fn lemma_gather_fails<W: Semiring>(fst: FstM<W::M>, dist: Seq<W::M>, i: int, n: int)
    requires
        0 <= i <= n,
    ensures
        gather::<W>(fst, dist, i) matches Err(e) ==> gather::<W>(fst, dist, n) == Err::<
            Seq<W::M>,
            FstError,
        >(e),
    decreases n - i,
{
    if i < n {
        lemma_gather_fails::<W>(fst, dist, i + 1, n);
    }
}

/// The number of distances is the number of states.
pub proof fn lemma_distances_len<W: Semiring>(fst: FstM<W::M>, reverse: bool, k: nat)
    requires
        closed_machine(fst),
    ensures
        distances_within::<W>(fst, reverse, k) matches Ok(d) ==> d.len() == fst.states.len(),
    decreases k,
{
    if k > 0 {
        lemma_distances_len::<W>(fst, reverse, (k - 1) as nat);
        if let Ok(dist) = distances_within::<W>(fst, reverse, (k - 1) as nat) {
            lemma_spread_len::<W>(fst, dist, fst.states.len() as int);
            lemma_gather_len::<W>(fst, dist, fst.states.len() as int);
        }
    }
}

proof fn lemma_spread_trs_len<W: Semiring>(sums: Seq<W::M>, d: W::M, trs: Seq<TrM<W::M>>)
    requires
        forall|i: int| 0 <= i < trs.len() ==> (#[trigger] trs[i]).nextstate < sums.len(),
    ensures
        spread_trs::<W>(sums, d, trs) matches Ok(r) ==> r.len() == sums.len(),
    decreases trs.len(),
{
    if trs.len() > 0 {
        lemma_spread_trs_len::<W>(sums, d, trs.drop_last());
    }
}

proof fn lemma_spread_len<W: Semiring>(fst: FstM<W::M>, dist: Seq<W::M>, n: int)
    requires
        closed_machine(fst),
        n <= fst.states.len(),
    ensures
        spread::<W>(fst, dist, n) matches Ok(r) ==> r.len() == fst.states.len(),
    decreases n,
{
    if n > 0 {
        lemma_spread_len::<W>(fst, dist, n - 1);
        if let Ok(sums) = spread::<W>(fst, dist, n - 1) {
            lemma_spread_trs_len::<W>(sums, dist[n - 1], fst.states[n - 1].trs);
        }
    }
}

proof fn lemma_gather_len<W: Semiring>(fst: FstM<W::M>, dist: Seq<W::M>, n: int)
    requires
        n >= 0,
    ensures
        gather::<W>(fst, dist, n) matches Ok(r) ==> r.len() == n,
    decreases n,
{
    if n > 0 {
        lemma_gather_len::<W>(fst, dist, n - 1);
    }
}

/// The distances over one transition more, from the start.
fn spread_once<W: Semiring>(fst: &VectorFst<W>, dist: &Vec<W>) -> (r: Result<Vec<W>, FstError>)
    requires
        closed_machine(fst.model()),
        fst.model().states.len() <= u32::MAX,
        dist.len() == fst.model().states.len(),
    ensures
        match r {
            Ok(d) => spread::<W>(
                fst.model(),
                weights_model(dist@),
                fst.model().states.len() as int,
            ) == Ok::<Seq<W::M>, FstError>(weights_model(d@)),
            Err(e) => spread::<W>(
                fst.model(),
                weights_model(dist@),
                fst.model().states.len() as int,
            ) == Err::<Seq<W::M>, FstError>(e),
        },
{
    let ghost m = fst.model();
    let ghost dm = weights_model(dist@);
    let n: usize = fst.num_states();
    let mut sums: Vec<W> = start_list(fst);
    for s in 0..n
        invariant
            m == fst.model(),
            dm == weights_model(dist@),
            closed_machine(m),
            n == m.states.len(),
            n <= u32::MAX,
            dist.len() == n,
            sums.len() == n,
            spread::<W>(m, dm, s as int) == Ok::<Seq<W::M>, FstError>(weights_model(sums@)),
    {
        let ghost before = weights_model(sums@);
        proof {
            lemma_spread_fails::<W>(m, dm, s + 1, n as int);
        }
        let trs: &Vec<Tr<W>> = match fst.get_trs(s as StateId) {
            Ok(trs) => trs,
            Err(e) => {
                assert(false);
                return Err(e);
            },
        };
        let ghost ts = trs_model(trs@);
        let len: usize = trs.len();
        assert(ts.take(0) =~= Seq::empty());
        for j in 0..len
            invariant
                m == fst.model(),
                dm == weights_model(dist@),
                closed_machine(m),
                n == m.states.len(),
                dist.len() == n,
                sums.len() == n,
                s < n,
                len == trs.len(),
                ts == trs_model(trs@),
                ts == m.states[s as int].trs,
                spread_trs::<W>(before, dm[s as int], ts.take(j as int)) == Ok::<
                    Seq<W::M>,
                    FstError,
                >(weights_model(sums@)),
                spread::<W>(m, dm, s + 1) == spread_trs::<W>(before, dm[s as int], ts),
                spread::<W>(m, dm, s + 1) matches Err(e) ==> spread::<W>(m, dm, n as int) == Err::<
                    Seq<W::M>,
                    FstError,
                >(e),
        {
            let tr: &Tr<W> = &trs[j];
            let ghost sofar = weights_model(sums@);
            proof {
                assert(ts[j as int] == tr.model());
                assert(ts.take(j + 1).drop_last() =~= ts.take(j as int));
                lemma_spread_trs_fails::<W>(before, dm[s as int], ts, j + 1);
                assert(m.states[s as int].trs[j as int].nextstate < m.states.len());
                assert(dm[s as int] == dist@[s as int].model());
            }
            let through: W = match dist[s].times(&tr.weight) {
                Ok(w) => w,
                Err(e) => {
                    return Err(e);
                },
            };
            let at: usize = tr.nextstate as usize;
            assert(sofar[at as int] == sums@[at as int].model());
            let sum: W = match sums[at].plus(&through) {
                Ok(w) => w,
                Err(e) => {
                    return Err(e);
                },
            };
            let ghost sm = sum.model();
            sums.set(at, sum);
            assert(weights_model(sums@) =~= sofar.update(at as int, sm));
        }
        assert(ts.take(len as int) =~= ts);
    }
    Ok(sums)
}

fn start_list<W: Semiring>(fst: &VectorFst<W>) -> (r: Vec<W>)
    requires
        fst.model().states.len() <= u32::MAX,
    ensures
        weights_model(r@) == start_distances::<W>(fst.model()),
        r.len() == fst.model().states.len(),
{
    let ghost m = fst.model();
    let n: usize = fst.num_states();
    let start: Option<StateId> = fst.start();
    let mut r: Vec<W> = Vec::new();
    for s in 0..n
        invariant
            n == m.states.len(),
            n <= u32::MAX,
            start == m.start,
            r.len() == s,
            forall|v: int|
                0 <= v < s ==> (#[trigger] r@[v]).model() == start_distances::<W>(m)[v],
    {
        let is_start: bool = match start {
            Some(q) => q as usize == s,
            None => false,
        };
        r.push(
            if is_start {
                W::one()
            } else {
                W::zero()
            },
        );
    }
    assert(weights_model(r@) =~= start_distances::<W>(m));
    r
}

fn final_list<W: Semiring>(fst: &VectorFst<W>) -> (r: Vec<W>)
    requires
        fst.model().states.len() <= u32::MAX,
    ensures
        weights_model(r@) == final_distances::<W>(fst.model()),
        r.len() == fst.model().states.len(),
{
    let ghost m = fst.model();
    let n: usize = fst.num_states();
    let mut r: Vec<W> = Vec::new();
    for s in 0..n
        invariant
            m == fst.model(),
            n == m.states.len(),
            n <= u32::MAX,
            r.len() == s,
            forall|v: int|
                0 <= v < s ==> (#[trigger] r@[v]).model() == final_distances::<W>(m)[v],
    {
        let w: W = match fst.final_weight(s as StateId) {
            Ok(Some(w)) => w,
            _ => W::zero(),
        };
        r.push(w);
    }
    assert(weights_model(r@) =~= final_distances::<W>(m));
    r
}

/// The distances over one transition more, to the final states.
fn gather_once<W: Semiring>(fst: &VectorFst<W>, dist: &Vec<W>) -> (r: Result<Vec<W>, FstError>)
    requires
        closed_machine(fst.model()),
        fst.model().states.len() <= u32::MAX,
        dist.len() == fst.model().states.len(),
    ensures
        match r {
            Ok(d) => gather::<W>(
                fst.model(),
                weights_model(dist@),
                fst.model().states.len() as int,
            ) == Ok::<Seq<W::M>, FstError>(weights_model(d@)),
            Err(e) => gather::<W>(
                fst.model(),
                weights_model(dist@),
                fst.model().states.len() as int,
            ) == Err::<Seq<W::M>, FstError>(e),
        },
{
    let ghost m = fst.model();
    let ghost dm = weights_model(dist@);
    let n: usize = fst.num_states();
    let mut sums: Vec<W> = Vec::new();
    assert(weights_model(sums@) =~= Seq::empty());
    for s in 0..n
        invariant
            m == fst.model(),
            dm == weights_model(dist@),
            closed_machine(m),
            n == m.states.len(),
            n <= u32::MAX,
            dist.len() == n,
            gather::<W>(m, dm, s as int) == Ok::<Seq<W::M>, FstError>(weights_model(sums@)),
    {
        let ghost before = weights_model(sums@);
        proof {
            lemma_gather_fails::<W>(m, dm, s + 1, n as int);
        }
        let mut sum: W = match fst.final_weight(s as StateId) {
            Ok(Some(w)) => w,
            _ => W::zero(),
        };
        let ghost first = sum.model();
        assert(first == final_or_zero::<W>(m.states[s as int].final_weight));
        let trs: &Vec<Tr<W>> = match fst.get_trs(s as StateId) {
            Ok(trs) => trs,
            Err(e) => {
                assert(false);
                return Err(e);
            },
        };
        let ghost ts = trs_model(trs@);
        let len: usize = trs.len();
        assert(ts.take(0) =~= Seq::empty());
        for j in 0..len
            invariant
                m == fst.model(),
                dm == weights_model(dist@),
                closed_machine(m),
                n == m.states.len(),
                dist.len() == n,
                s < n,
                len == trs.len(),
                ts == trs_model(trs@),
                ts == m.states[s as int].trs,
                first == final_or_zero::<W>(m.states[s as int].final_weight),
                gather::<W>(m, dm, s as int) is Ok,
                gather_trs::<W>(first, dm, ts.take(j as int)) == Ok::<W::M, FstError>(sum.model()),
                gather::<W>(m, dm, s + 1) matches Err(e) ==> gather::<W>(m, dm, n as int) == Err::<
                    Seq<W::M>,
                    FstError,
                >(e),
        {
            let tr: &Tr<W> = &trs[j];
            proof {
                assert(ts[j as int] == tr.model());
                assert(ts.take(j + 1).drop_last() =~= ts.take(j as int));
                lemma_gather_trs_fails::<W>(first, dm, ts, j + 1);
                assert(m.states[s as int].trs[j as int].nextstate < m.states.len());
                assert(dm[tr.nextstate as int] == dist@[tr.nextstate as int].model());
            }
            let through: W = match tr.weight.times(&dist[tr.nextstate as usize]) {
                Ok(w) => w,
                Err(e) => {
                    return Err(e);
                },
            };
            sum = match sum.plus(&through) {
                Ok(w) => w,
                Err(e) => {
                    return Err(e);
                },
            };
        }
        assert(ts.take(len as int) =~= ts);
        let ghost sm = sum.model();
        sums.push(sum);
        assert(weights_model(sums@) =~= before.push(sm));
    }
    Ok(sums)
}

/// Whether the two lists have the same values.
fn same_list<W: Semiring>(a: &Vec<W>, b: &Vec<W>) -> (r: bool)
    ensures
        r == (weights_model(a@) == weights_model(b@)),
{
    let n: usize = a.len();
    if n != b.len() {
        assert(weights_model(a@).len() != weights_model(b@).len());
        return false;
    }
    for i in 0..n
        invariant
            n == a.len(),
            n == b.len(),
            forall|j: int| 0 <= j < i ==> (#[trigger] a@[j]).model() == b@[j].model(),
    {
        if !a[i].same(&b[i]) {
            assert(weights_model(a@)[i as int] != weights_model(b@)[i as int]);
            return false;
        }
    }
    assert(weights_model(a@) =~= weights_model(b@));
    true
}

/// The distance of every state: from the start, or to the final states where
/// `reverse` holds.
///
/// Paths of growing length are taken into account until longer ones make no
/// difference.
pub fn shortest_distance<W: Semiring>(fst: &VectorFst<W>, reverse: bool) -> (r: Result<
    Vec<W>,
    FstError,
>)
    requires
        closed_machine(fst.model()),
        fst.model().states.len() <= u32::MAX,
        settles::<W>(fst.model(), reverse),
    ensures
        match r {
            Ok(d) => distances::<W>(fst.model(), reverse) == Ok::<Seq<W::M>, FstError>(
                weights_model(d@),
            ) && d.len() == fst.model().states.len(),
            Err(e) => distances::<W>(fst.model(), reverse) == Err::<Seq<W::M>, FstError>(e),
        },
{
    let ghost m = fst.model();
    let ghost end = choose|k: nat| #[trigger] settled::<W>(m, reverse, k);
    let mut dist: Vec<W> = if reverse {
        final_list(fst)
    } else {
        start_list(fst)
    };
    let ghost mut k: nat = 0;
    loop
        invariant
            m == fst.model(),
            closed_machine(m),
            m.states.len() <= u32::MAX,
            dist.len() == m.states.len(),
            settled::<W>(m, reverse, end),
            distances_within::<W>(m, reverse, k) == Ok::<Seq<W::M>, FstError>(
                weights_model(dist@),
            ),
            k <= end,
        decreases end - k,
    {
        let next: Vec<W> = match if reverse {
            gather_once(fst, &dist)
        } else {
            spread_once(fst, &dist)
        } {
            Ok(next) => next,
            Err(e) => {
                proof {
                    assert(distances_within::<W>(m, reverse, k + 1) == Err::<Seq<W::M>, FstError>(
                        e,
                    ));
                    assert(settled::<W>(m, reverse, k + 1));
                    lemma_distances::<W>(m, reverse, k + 1);
                }
                return Err(e);
            },
        };
        assert(distances_within::<W>(m, reverse, k + 1) == Ok::<Seq<W::M>, FstError>(
            weights_model(next@),
        ));
        if same_list(&next, &dist) {
            proof {
                assert(settled::<W>(m, reverse, k));
                lemma_distances::<W>(m, reverse, k);
            }
            return Ok(dist);
        }
        proof {
            lemma_distances_len::<W>(m, reverse, k + 1);
            assert(!settled::<W>(m, reverse, k));
            if k >= end {
                lemma_settled::<W>(m, reverse, end, k);
            }
            k = k + 1;
        }
        dist = next;
    }
}

} // verus!
