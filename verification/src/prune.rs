//! Keeping only what lies on a path whose weight is within a limit.

use crate::connect::{connect, connect_model};
use crate::determinize::state_table::weights_model;
use crate::error::FstError;
use crate::fst::properties::DELETE_TRS_KEEPS;
use crate::fst::tr::{trs_model, StateId, Tr, TrM};
use crate::fst::vector_fst::{with_final, with_tr, FstM, VectorFst};
use crate::lazy::laws::closed_machine;
use crate::semirings::semiring::Semiring;
use crate::shortest_distance::{distances, settles, shortest_distance};
use vstd::prelude::*;

verus! {

/// `a` is strictly better than `b`: their sum is `a`, and they differ. A sum that
/// fails makes nothing better.
pub open spec fn natural_less_model<W: Semiring>(a: W::M, b: W::M) -> bool {
    W::plus_model(a, b) == Ok::<W::M, FstError>(a) && a != b
}

/// The distance of a state; one without a distance is infinitely far.
pub open spec fn distance_at<W: Semiring>(dist: Seq<W::M>, s: StateId) -> W::M {
    if s < dist.len() {
        dist[s as int]
    } else {
        W::zero_model()
    }
}

/// The weight of the best path that takes the given transition from a state at
/// distance `from`.
pub open spec fn through<W: Semiring>(from: W::M, tr: TrM<W::M>, to_final: Seq<W::M>) -> Result<
    W::M,
    FstError,
> {
    match W::times_model(from, tr.weight) {
        Err(e) => Err(e),
        Ok(w) => W::times_model(w, distance_at::<W>(to_final, tr.nextstate)),
    }
}

/// The machine after the given transitions were put back at `s`, as far as they
/// are within the limit.
pub open spec fn put_back<W: Semiring>(
    fst: FstM<W::M>,
    s: StateId,
    from: W::M,
    to_final: Seq<W::M>,
    limit: W::M,
    trs: Seq<TrM<W::M>>,
) -> (FstM<W::M>, Result<(), FstError>)
    decreases trs.len(),
{
    if trs.len() == 0 {
        (fst, Ok(()))
    } else {
        match put_back::<W>(fst, s, from, to_final, limit, trs.drop_last()) {
            (f, Err(e)) => (f, Err(e)),
            (f, Ok(_)) => match through::<W>(from, trs.last(), to_final) {
                Err(e) => (f, Err(e)),
                Ok(w) => if natural_less_model::<W>(limit, w) {
                    (f, Ok(()))
                } else {
                    (with_tr::<W>(f, s, trs.last()), Ok(()))
                },
            },
        }
    }
}

/// The machine without the final weight of `s`, if that is beyond the limit.
pub open spec fn prune_final<W: Semiring>(
    fst: FstM<W::M>,
    s: StateId,
    from: W::M,
    limit: W::M,
) -> (FstM<W::M>, Result<(), FstError>) {
    match fst.states[s as int].final_weight {
        None => (fst, Ok(())),
        Some(w) => match W::times_model(from, w) {
            Err(e) => (fst, Err(e)),
            Ok(whole) => if natural_less_model::<W>(limit, whole) {
                (with_final::<W>(fst, s, None), Ok(()))
            } else {
                (fst, Ok(()))
            },
        },
    }
}

/// The machine without the transitions of `s`.
pub open spec fn without_trs<M>(fst: FstM<M>, s: StateId) -> FstM<M> {
    FstM {
        properties: fst.properties.mask_model(DELETE_TRS_KEEPS),
        ..fst.with_trs(s, Seq::empty())
    }
}

/// The machine with what is within the limit at `s`.
pub open spec fn prune_state<W: Semiring>(
    fst: FstM<W::M>,
    s: StateId,
    from: W::M,
    to_final: Seq<W::M>,
    limit: W::M,
) -> (FstM<W::M>, Result<(), FstError>) {
    match prune_final::<W>(fst, s, from, limit) {
        (f, Err(e)) => (f, Err(e)),
        (f, Ok(_)) => put_back::<W>(
            without_trs(f, s),
            s,
            from,
            to_final,
            limit,
            fst.states[s as int].trs,
        ),
    }
}

/// The machine with what is within the limit at the first `n` states.
pub open spec fn prune_states<W: Semiring>(
    fst: FstM<W::M>,
    from_start: Seq<W::M>,
    to_final: Seq<W::M>,
    limit: W::M,
    n: int,
) -> (FstM<W::M>, Result<(), FstError>)
    decreases n,
{
    if n <= 0 {
        (fst, Ok(()))
    } else {
        match prune_states::<W>(fst, from_start, to_final, limit, n - 1) {
            (f, Err(e)) => (f, Err(e)),
            (f, Ok(_)) => prune_state::<W>(
                f,
                (n - 1) as StateId,
                distance_at::<W>(from_start, (n - 1) as StateId),
                to_final,
                limit,
            ),
        }
    }
}

/// The machine without states.
pub open spec fn emptied<M>(fst: FstM<M>) -> FstM<M> {
    FstM { isymt: fst.isymt, osymt: fst.osymt, ..FstM::<M>::empty() }
}

/// The machine after pruning with the given distances.
pub open spec fn prune_with_model<W: Semiring>(
    fst: FstM<W::M>,
    threshold: W::M,
    from_start: Seq<W::M>,
    to_final: Seq<W::M>,
) -> (FstM<W::M>, Result<(), FstError>) {
    let best = distance_at::<W>(to_final, fst.start->0);
    if best == W::zero_model() {
        (emptied(fst), Ok(()))
    } else {
        match W::times_model(best, threshold) {
            Err(e) => (fst, Err(e)),
            Ok(limit) => match prune_states::<W>(
                fst,
                from_start,
                to_final,
                limit,
                fst.states.len() as int,
            ) {
                (f, Err(e)) => (f, Err(e)),
                (f, Ok(_)) => (connect_model(f), Ok(())),
            },
        }
    }
}

/// The machine after pruning.
pub open spec fn prune_model<W: Semiring>(fst: FstM<W::M>, threshold: W::M) -> (
    FstM<W::M>,
    Result<(), FstError>,
) {
    if fst.states.len() == 0 {
        (fst, Ok(()))
    } else if fst.start is None {
        (emptied(fst), Ok(()))
    } else {
        match distances::<W>(fst, true) {
            Err(e) => (fst, Err(e)),
            Ok(to_final) => match distances::<W>(fst, false) {
                Err(e) => (fst, Err(e)),
                Ok(from_start) => prune_with_model::<W>(fst, threshold, from_start, to_final),
            },
        }
    }
}

/// Whether `a` is strictly better than `b`.
pub fn natural_less<W: Semiring>(a: &W, b: &W) -> (r: bool)
    ensures
        r == natural_less_model::<W>(a.model(), b.model()),
{
    match a.plus(b) {
        Ok(sum) => sum.same(a) && !a.same(b),
        Err(_) => false,
    }
}

fn distance_of<W: Semiring>(dist: &Vec<W>, s: StateId) -> (r: W)
    ensures
        r.model() == distance_at::<W>(weights_model(dist@), s),
{
    if (s as usize) < dist.len() {
        dist[s as usize].duplicate()
    } else {
        W::zero()
    }
}

proof fn lemma_put_back_fails<W: Semiring>(
    fst: FstM<W::M>,
    s: StateId,
    from: W::M,
    to_final: Seq<W::M>,
    limit: W::M,
    trs: Seq<TrM<W::M>>,
    i: int,
)
    requires
        0 <= i <= trs.len(),
    ensures
        put_back::<W>(fst, s, from, to_final, limit, trs.take(i)).1 is Err ==> put_back::<W>(
            fst,
            s,
            from,
            to_final,
            limit,
            trs,
        ) == put_back::<W>(fst, s, from, to_final, limit, trs.take(i)),
    decreases trs.len() - i,
{
    if i < trs.len() {
        assert(trs.take(i + 1).drop_last() =~= trs.take(i));
        lemma_put_back_fails::<W>(fst, s, from, to_final, limit, trs, i + 1);
    } else {
        assert(trs.take(i) =~= trs);
    }
}

proof fn lemma_prune_fails<W: Semiring>(
    fst: FstM<W::M>,
    from_start: Seq<W::M>,
    to_final: Seq<W::M>,
    limit: W::M,
    i: int,
    n: int,
)
    requires
        0 <= i <= n,
    ensures
        prune_states::<W>(fst, from_start, to_final, limit, i).1 is Err ==> prune_states::<W>(
            fst,
            from_start,
            to_final,
            limit,
            n,
        ) == prune_states::<W>(fst, from_start, to_final, limit, i),
    decreases n - i,
{
    if i < n {
        lemma_prune_fails::<W>(fst, from_start, to_final, limit, i + 1, n);
    }
}

/// Putting transitions back changes nothing but the transitions of `s`.
proof fn lemma_put_back<W: Semiring>(
    fst: FstM<W::M>,
    s: StateId,
    from: W::M,
    to_final: Seq<W::M>,
    limit: W::M,
    trs: Seq<TrM<W::M>>,
)
    requires
        s < fst.states.len(),
    ensures
        ({
            let f = put_back::<W>(fst, s, from, to_final, limit, trs).0;
            &&& f.states.len() == fst.states.len()
            &&& f.start == fst.start
            &&& f.states[s as int].final_weight == fst.states[s as int].final_weight
            &&& forall|v: int|
                0 <= v < fst.states.len() && v != s ==> #[trigger] f.states[v] == fst.states[v]
            &&& forall|j: int|
                0 <= j < f.states[s as int].trs.len() ==> trs.contains(
                    #[trigger] f.states[s as int].trs[j],
                ) || fst.states[s as int].trs.contains(f.states[s as int].trs[j])
        }),
    decreases trs.len(),
{
    if trs.len() > 0 {
        lemma_put_back::<W>(fst, s, from, to_final, limit, trs.drop_last());
        let before = put_back::<W>(fst, s, from, to_final, limit, trs.drop_last()).0;
        let f = put_back::<W>(fst, s, from, to_final, limit, trs).0;
        assert forall|j: int| 0 <= j < f.states[s as int].trs.len() implies trs.contains(
            #[trigger] f.states[s as int].trs[j],
        ) || fst.states[s as int].trs.contains(f.states[s as int].trs[j]) by {
            let tr = f.states[s as int].trs[j];
            if j < before.states[s as int].trs.len() {
                assert(before.states[s as int].trs[j] == tr);
                if trs.drop_last().contains(tr) {
                    let i = choose|i: int| 0 <= i < trs.len() - 1 && trs.drop_last()[i] == tr;
                    assert(trs[i] == tr);
                }
            } else {
                assert(trs[trs.len() - 1] == tr);
            }
        }
    } else {
        assert forall|j: int| 0 <= j < fst.states[s as int].trs.len() implies fst.states[s as int].trs.contains(
            #[trigger] fst.states[s as int].trs[j],
        ) by {}
    }
}

/// Pruning a state keeps the machine closed.
proof fn lemma_prune_state_closed<W: Semiring>(
    fst: FstM<W::M>,
    s: StateId,
    from: W::M,
    to_final: Seq<W::M>,
    limit: W::M,
)
    requires
        s < fst.states.len(),
        closed_machine(fst),
    ensures
        closed_machine(prune_state::<W>(fst, s, from, to_final, limit).0),
        prune_state::<W>(fst, s, from, to_final, limit).0.states.len() == fst.states.len(),
        prune_state::<W>(fst, s, from, to_final, limit).0.start == fst.start,
        forall|v: int|
            0 <= v < fst.states.len() && v != s ==> #[trigger] prune_state::<W>(
                fst,
                s,
                from,
                to_final,
                limit,
            ).0.states[v] == fst.states[v],
{
    let (f, r) = prune_final::<W>(fst, s, from, limit);
    assert forall|i: int, j: int|
        0 <= i < f.states.len() && 0 <= j < f.states[i].trs.len() implies (
    #[trigger] f.states[i].trs[j]).nextstate < f.states.len() by {
        assert(fst.states[i].trs[j].nextstate < fst.states.len());
    }
    if r is Ok {
        let base = without_trs(f, s);
        let trs = fst.states[s as int].trs;
        lemma_put_back::<W>(base, s, from, to_final, limit, trs);
        let g = put_back::<W>(base, s, from, to_final, limit, trs).0;
        assert forall|i: int, j: int|
            0 <= i < g.states.len() && 0 <= j < g.states[i].trs.len() implies (
        #[trigger] g.states[i].trs[j]).nextstate < g.states.len() by {
            if i == s {
                let k = choose|k: int| 0 <= k < trs.len() && trs[k] == g.states[i].trs[j];
                assert(fst.states[i].trs[k].nextstate < fst.states.len());
            } else {
                assert(g.states[i] == base.states[i]);
                assert(fst.states[i].trs[j].nextstate < fst.states.len());
            }
        }
    }
}

proof fn lemma_prune_closed<W: Semiring>(
    fst: FstM<W::M>,
    from_start: Seq<W::M>,
    to_final: Seq<W::M>,
    limit: W::M,
    n: int,
)
    requires
        closed_machine(fst),
        0 <= n <= fst.states.len() <= u32::MAX,
    ensures
        closed_machine(prune_states::<W>(fst, from_start, to_final, limit, n).0),
        prune_states::<W>(fst, from_start, to_final, limit, n).0.states.len() == fst.states.len(),
        prune_states::<W>(fst, from_start, to_final, limit, n).0.start == fst.start,
    decreases n,
{
    if n > 0 {
        lemma_prune_closed::<W>(fst, from_start, to_final, limit, n - 1);
        let f = prune_states::<W>(fst, from_start, to_final, limit, n - 1).0;
        lemma_prune_state_closed::<W>(
            f,
            (n - 1) as StateId,
            distance_at::<W>(from_start, (n - 1) as StateId),
            to_final,
            limit,
        );
    }
}

/// Removes what is beyond the limit at one state.
fn prune_at<W: Semiring>(
    fst: &mut VectorFst<W>,
    s: StateId,
    from: &W,
    to_final: &Vec<W>,
    limit: &W,
) -> (r: Result<(), FstError>)
    requires
        old(fst).model().has_state(s),
    ensures
        (final(fst).model(), r) == prune_state::<W>(
            old(fst).model(),
            s,
            from.model(),
            weights_model(to_final@),
            limit.model(),
        ),
{
    let ghost m = fst.model();
    let ghost tf = weights_model(to_final@);
    match fst.final_weight(s) {
        Err(e) => {
            assert(false);
            return Err(e);
        },
        Ok(None) => {},
        Ok(Some(w)) => match from.times(&w) {
            Err(e) => {
                return Err(e);
            },
            Ok(whole) => {
                if natural_less(limit, &whole) {
                    let _ = fst.delete_final_weight(s);
                }
            },
        },
    }
    let ghost f = prune_final::<W>(m, s, from.model(), limit.model()).0;
    assert(fst.model() == f);
    assert(f.states[s as int].trs == m.states[s as int].trs);
    let trs: Vec<Tr<W>> = match fst.pop_trs(s) {
        Ok(trs) => trs,
        Err(e) => {
            assert(false);
            return Err(e);
        },
    };
    let ghost ts = trs_model(trs@);
    let ghost base = without_trs(f, s);
    let n: usize = trs.len();
    assert(ts.take(0) =~= Seq::empty());
    for i in 0..n
        invariant
            m == old(fst).model(),
            n == trs.len(),
            ts == trs_model(trs@),
            tf == weights_model(to_final@),
            s < base.states.len(),
            put_back::<W>(base, s, from.model(), tf, limit.model(), ts) == prune_state::<W>(
                m,
                s,
                from.model(),
                tf,
                limit.model(),
            ),
            (fst.model(), Ok::<(), FstError>(())) == put_back::<W>(
                base,
                s,
                from.model(),
                tf,
                limit.model(),
                ts.take(i as int),
            ),
    {
        let tr: &Tr<W> = &trs[i];
        proof {
            assert(ts[i as int] == tr.model());
            assert(ts.take(i + 1).drop_last() =~= ts.take(i as int));
            lemma_put_back_fails::<W>(base, s, from.model(), tf, limit.model(), ts, i + 1);
            lemma_put_back::<W>(base, s, from.model(), tf, limit.model(), ts.take(i as int));
        }
        let first: W = match from.times(&tr.weight) {
            Ok(w) => w,
            Err(e) => {
                return Err(e);
            },
        };
        let whole: W = match first.times(&distance_of(to_final, tr.nextstate)) {
            Ok(w) => w,
            Err(e) => {
                return Err(e);
            },
        };
        if !natural_less(limit, &whole) {
            let _ = fst.add_tr(s, tr.duplicate());
        }
    }
    assert(ts.take(n as int) =~= ts);
    Ok(())
}

/// Prunes the machine with the given distances: those of its states from the
/// start and to the final states.
pub fn prune_with<W: Semiring>(
    fst: &mut VectorFst<W>,
    weight_threshold: W,
    from_start: &Vec<W>,
    to_final: &Vec<W>,
) -> (r: Result<(), FstError>)
    requires
        closed_machine(old(fst).model()),
        old(fst).model().states.len() <= u32::MAX,
        old(fst).model().start is Some,
    ensures
        (final(fst).model(), r) == prune_with_model::<W>(
            old(fst).model(),
            weight_threshold.model(),
            weights_model(from_start@),
            weights_model(to_final@),
        ),
{
    let ghost m = fst.model();
    let ghost fs = weights_model(from_start@);
    let ghost tf = weights_model(to_final@);
    let start: StateId = match fst.start() {
        Some(s) => s,
        None => {
            assert(false);
            return Ok(());
        },
    };
    let best: W = distance_of(to_final, start);
    if best.is_zero() {
        fst.del_all_states();
        return Ok(());
    }
    let limit: W = match best.times(&weight_threshold) {
        Ok(w) => w,
        Err(e) => {
            return Err(e);
        },
    };
    let n: usize = fst.num_states();
    for s in 0..n
        invariant
            m == old(fst).model(),
            n == m.states.len(),
            n <= u32::MAX,
            closed_machine(m),
            fs == weights_model(from_start@),
            tf == weights_model(to_final@),
            (fst.model(), Ok::<(), FstError>(())) == prune_states::<W>(
                m,
                fs,
                tf,
                limit.model(),
                s as int,
            ),
            m.start is Some,
            distance_at::<W>(tf, m.start->0) != W::zero_model(),
            W::times_model(distance_at::<W>(tf, m.start->0), weight_threshold.model()) == Ok::<
                W::M,
                FstError,
            >(limit.model()),
    {
        proof {
            lemma_prune_closed::<W>(m, fs, tf, limit.model(), s as int);
            lemma_prune_fails::<W>(m, fs, tf, limit.model(), s + 1, n as int);
        }
        let from: W = distance_of(from_start, s as StateId);
        match prune_at(fst, s as StateId, &from, to_final, &limit) {
            Ok(_) => {},
            Err(e) => {
                return Err(e);
            },
        }
    }
    proof {
        lemma_prune_closed::<W>(m, fs, tf, limit.model(), n as int);
    }
    connect(fst);
    Ok(())
}

/// Removes the states and transitions that lie on no path whose weight is within
/// `weight_threshold`, times the weight of the best path, of the best path.
///
/// Meant for semirings with the path property.
pub fn prune<W: Semiring>(fst: &mut VectorFst<W>, weight_threshold: W) -> (r: Result<(), FstError>)
    requires
        closed_machine(old(fst).model()),
        old(fst).model().states.len() <= u32::MAX,
        old(fst).model().start is Some ==> settles::<W>(old(fst).model(), true) && settles::<W>(
            old(fst).model(),
            false,
        ),
    ensures
        (final(fst).model(), r) == prune_model::<W>(old(fst).model(), weight_threshold.model()),
{
    if fst.num_states() == 0 {
        return Ok(());
    }
    if fst.start().is_none() {
        fst.del_all_states();
        return Ok(());
    }
    let to_final: Vec<W> = match shortest_distance(fst, true) {
        Ok(d) => d,
        Err(e) => {
            return Err(e);
        },
    };
    let from_start: Vec<W> = match shortest_distance(fst, false) {
        Ok(d) => d,
        Err(e) => {
            return Err(e);
        },
    };
    prune_with(fst, weight_threshold, &from_start, &to_final)
}

} // verus!
