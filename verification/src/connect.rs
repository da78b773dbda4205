//! Removing the states that lie on no path from the start to a final state.

use crate::fst::properties::{ACCESSIBLE, COACCESSIBLE, DELETE_STATES_KEEPS};
use crate::fst::tr::{trs_model, StateId, Tr, TrM};
use crate::fst::vector_fst::{states_model, FstM, StateM, VectorFst, VectorFstState};
use crate::lazy::laws::closed_machine;
use crate::semirings::semiring::Semiring;
use vstd::prelude::*;

verus! {

/// Some transition leads from `u` to `v`.
pub open spec fn edge<M>(fst: FstM<M>, u: int, v: int) -> bool {
    exists|j: int|
        0 <= j < fst.states[u].trs.len() && (#[trigger] fst.states[u].trs[j]).nextstate == v
}

/// The states of `set` and those that a transition leads to from one of them.
pub open spec fn forward_step<M>(fst: FstM<M>, set: Set<int>) -> Set<int> {
    Set::new(
        |v: int|
            set.contains(v) || exists|u: int|
                0 <= u < fst.states.len() && #[trigger] set.contains(u) && edge(fst, u, v),
    )
}

/// The states of `set` and those from which a transition leads to one of them.
pub open spec fn backward_step<M>(fst: FstM<M>, set: Set<int>) -> Set<int> {
    Set::new(
        |v: int|
            set.contains(v) || (0 <= v < fst.states.len() && exists|u: int|
                0 <= u < fst.states.len() && #[trigger] set.contains(u) && edge(fst, v, u)),
    )
}

/// The states that are reached from the start over at most `n` transitions.
pub open spec fn accessible_within<M>(fst: FstM<M>, n: nat) -> Set<int>
    decreases n,
{
    if n == 0 {
        Set::new(|v: int| fst.start matches Some(s) && s == v)
    } else {
        forward_step(fst, accessible_within(fst, (n - 1) as nat))
    }
}

/// The states from which a final state is reached over at most `n` transitions.
pub open spec fn coaccessible_within<M>(fst: FstM<M>, n: nat) -> Set<int>
    decreases n,
{
    if n == 0 {
        Set::new(|v: int| 0 <= v < fst.states.len() && fst.states[v].final_weight is Some)
    } else {
        backward_step(fst, coaccessible_within(fst, (n - 1) as nat))
    }
}

/// The state is reached from the start.
pub open spec fn accessible<M>(fst: FstM<M>, v: int) -> bool {
    exists|n: nat| (#[trigger] accessible_within(fst, n)).contains(v)
}

/// A final state is reached from the state.
pub open spec fn coaccessible<M>(fst: FstM<M>, v: int) -> bool {
    exists|n: nat| (#[trigger] coaccessible_within(fst, n)).contains(v)
}

/// The state lies on a path from the start to a final state.
pub open spec fn useful<M>(fst: FstM<M>, v: int) -> bool {
    accessible(fst, v) && coaccessible(fst, v)
}

/// How many of the first `n` states are useful.
pub open spec fn useful_below<M>(fst: FstM<M>, n: int) -> int
    decreases n,
{
    if n <= 0 {
        0
    } else {
        useful_below(fst, n - 1) + (if useful(fst, n - 1) {
            1int
        } else {
            0
        })
    }
}

/// The transitions to useful states, with the ids that these get.
pub open spec fn useful_trs<M>(fst: FstM<M>, trs: Seq<TrM<M>>) -> Seq<TrM<M>>
    decreases trs.len(),
{
    if trs.len() == 0 {
        Seq::empty()
    } else {
        let before = useful_trs(fst, trs.drop_last());
        let tr = trs.last();
        if useful(fst, tr.nextstate as int) {
            before.push(
                TrM { nextstate: useful_below(fst, tr.nextstate as int) as StateId, ..tr },
            )
        } else {
            before
        }
    }
}

/// The useful ones of the first `n` states.
pub open spec fn useful_states<M>(fst: FstM<M>, n: int) -> Seq<StateM<M>>
    decreases n,
{
    if n <= 0 {
        Seq::empty()
    } else {
        let before = useful_states(fst, n - 1);
        if useful(fst, n - 1) {
            before.push(
                StateM {
                    final_weight: fst.states[n - 1].final_weight,
                    trs: useful_trs(fst, fst.states[n - 1].trs),
                },
            )
        } else {
            before
        }
    }
}

/// The machine with its useful states only; they keep their order.
pub open spec fn connect_model<M>(fst: FstM<M>) -> FstM<M> {
    FstM {
        start: match fst.start {
            Some(s) => if useful(fst, s as int) {
                Some(useful_below(fst, s as int) as StateId)
            } else {
                None
            },
            None => None,
        },
        states: useful_states(fst, fst.states.len() as int),
        properties: fst.properties.mask_model(DELETE_STATES_KEEPS).union_model(
            ACCESSIBLE | COACCESSIBLE,
        ),
        ..fst
    }
}

/// A step leads from `u` to `v`.
spec fn leads(next: Seq<Vec<usize>>, u: int, v: int) -> bool {
    exists|j: int| 0 <= j < next[u]@.len() && #[trigger] next[u]@[j] == v
}

/// What is in `set` and what a step leads to from there.
spec fn step(next: Seq<Vec<usize>>, set: Set<int>) -> Set<int> {
    Set::new(
        |v: int|
            set.contains(v) || exists|u: int|
                0 <= u < next.len() && #[trigger] set.contains(u) && leads(next, u, v),
    )
}

/// What is reached from a seed over at most `n` steps.
spec fn reached_in(next: Seq<Vec<usize>>, seeds: Seq<usize>, n: nat) -> Set<int>
    decreases n,
{
    if n == 0 {
        Set::new(|v: int| exists|i: int| 0 <= i < seeds.len() && #[trigger] seeds[i] == v)
    } else {
        step(next, reached_in(next, seeds, (n - 1) as nat))
    }
}

spec fn reached(next: Seq<Vec<usize>>, seeds: Seq<usize>, v: int) -> bool {
    exists|n: nat| (#[trigger] reached_in(next, seeds, n)).contains(v)
}

/// A set of marks that has the seeds and is closed under steps has everything that
/// is reached.
proof fn lemma_reached_marked(
    next: Seq<Vec<usize>>,
    seeds: Seq<usize>,
    marks: Seq<bool>,
    v: int,
    n: nat,
)
    requires
        marks.len() == next.len(),
        forall|i: int| 0 <= i < seeds.len() ==> (#[trigger] seeds[i]) < marks.len()
            && marks[seeds[i] as int],
        forall|u: int, j: int|
            0 <= u < next.len() && marks[u] && 0 <= j < next[u]@.len() ==> (
            #[trigger] next[u]@[j]) < marks.len() && marks[next[u]@[j] as int],
        reached_in(next, seeds, n).contains(v),
    ensures
        0 <= v < marks.len() && marks[v],
    decreases n,
{
    if n == 0 {
        let i = choose|i: int| 0 <= i < seeds.len() && #[trigger] seeds[i] == v;
        assert(marks[seeds[i] as int]);
    } else if reached_in(next, seeds, (n - 1) as nat).contains(v) {
        lemma_reached_marked(next, seeds, marks, v, (n - 1) as nat);
    } else {
        let set = reached_in(next, seeds, (n - 1) as nat);
        let u = choose|u: int|
            0 <= u < next.len() && #[trigger] set.contains(u) && leads(next, u, v);
        lemma_reached_marked(next, seeds, marks, u, (n - 1) as nat);
        let j = choose|j: int| 0 <= j < next[u]@.len() && #[trigger] next[u]@[j] == v;
        assert(marks[next[u]@[j] as int]);
    }
}

/// How many marks are not set.
spec fn unmarked(marks: Seq<bool>) -> nat
    decreases marks.len(),
{
    if marks.len() == 0 {
        0
    } else {
        unmarked(marks.drop_last()) + (if marks.last() {
            0nat
        } else {
            1
        })
    }
}

proof fn lemma_unmarked_set(marks: Seq<bool>, i: int)
    requires
        0 <= i < marks.len(),
        !marks[i],
    ensures
        unmarked(marks.update(i, true)) + 1 == unmarked(marks),
    decreases marks.len(),
{
    let after = marks.update(i, true);
    if i == marks.len() - 1 {
        assert(after.drop_last() =~= marks.drop_last());
    } else {
        lemma_unmarked_set(marks.drop_last(), i);
        assert(after.drop_last() =~= marks.drop_last().update(i, true));
    }
}

/// Marks everything that is reached from the seeds.
fn search(next: &Vec<Vec<usize>>, seeds: &Vec<usize>) -> (marks: Vec<bool>)
    requires
        forall|i: int| 0 <= i < seeds.len() ==> (#[trigger] seeds@[i]) < next.len(),
        forall|u: int, j: int|
            0 <= u < next.len() && 0 <= j < next@[u]@.len() ==> (#[trigger] next@[u]@[j])
                < next.len(),
    ensures
        marks.len() == next.len(),
        forall|v: int| 0 <= v < marks.len() ==> #[trigger] marks@[v] == reached(next@, seeds@, v),
{
    let n: usize = next.len();
    let mut marks: Vec<bool> = Vec::new();
    marks.resize(n, false);
    let mut todo: Vec<usize> = Vec::new();
    let mut i: usize = 0;
    while i < seeds.len()
        invariant
            i <= seeds.len(),
            n == next.len(),
            marks.len() == n,
            forall|i: int| 0 <= i < seeds.len() ==> (#[trigger] seeds@[i]) < n,
            forall|k: int| 0 <= k < i ==> marks@[(#[trigger] seeds@[k]) as int],
            forall|k: int| 0 <= k < todo.len() ==> (#[trigger] todo@[k]) < n
                && marks@[todo@[k] as int],
            forall|v: int| 0 <= v < n && #[trigger] marks@[v] ==> reached_in(next@, seeds@, 0).contains(v)
                && todo@.contains(v as usize),
        decreases seeds.len() - i,
    {
        let s: usize = seeds[i];
        if !marks[s] {
            let ghost todo_before = todo@;
            marks.set(s, true);
            todo.push(s);
            proof {
                assert forall|v: int| 0 <= v < n && #[trigger] marks@[v] implies reached_in(
                    next@,
                    seeds@,
                    0,
                ).contains(v) && todo@.contains(v as usize) by {
                    if v == s {
                        assert(seeds@[i as int] == v);
                        assert(todo@[todo_before.len() as int] == v);
                    } else {
                        let w = choose|w: int|
                            0 <= w < todo_before.len() && todo_before[w] == v as usize;
                        assert(todo@[w] == v as usize);
                    }
                }
            }
        }
        i += 1;
    }
    assert forall|v: int| 0 <= v < n && #[trigger] marks@[v] implies reached(next@, seeds@, v) by {
        assert(reached_in(next@, seeds@, 0).contains(v));
    }
    while todo.len() > 0
        invariant
            n == next.len(),
            marks.len() == n,
            forall|u: int, j: int|
                0 <= u < next.len() && 0 <= j < next@[u]@.len() ==> (#[trigger] next@[u]@[j]) < n,
            forall|k: int|
                0 <= k < seeds.len() ==> (#[trigger] seeds@[k]) < n && marks@[seeds@[k] as int],
            forall|k: int| 0 <= k < todo.len() ==> (#[trigger] todo@[k]) < n
                && marks@[todo@[k] as int],
            forall|v: int| 0 <= v < n && #[trigger] marks@[v] ==> reached(next@, seeds@, v),
            forall|u: int, j: int|
                0 <= u < n && marks@[u] && !todo@.contains(u as usize) && 0 <= j
                    < next@[u]@.len() ==> marks@[(#[trigger] next@[u]@[j]) as int],
        decreases unmarked(marks@) + todo.len(),
    {
        let ghost before = todo@;
        let u: usize = match todo.pop() {
            Some(u) => u,
            None => 0,
        };
        let ghost popped = todo@;
        let ghost total = unmarked(marks@) + todo.len();
        proof {
            assert(before == popped.push(u));
            assert(before[popped.len() as int] == u);
            assert(marks@[before[popped.len() as int] as int]);
            assert forall|k: int| 0 <= k < popped.len() implies (#[trigger] popped[k]) < n
                && marks@[popped[k] as int] by {
                assert(before[k] == popped[k]);
            }
            assert forall|x: int, j: int|
                0 <= x < n && marks@[x] && x != u && !popped.contains(x as usize) && 0 <= j
                    < next@[x]@.len() implies marks@[(#[trigger] next@[x]@[j]) as int] by {
                assert(!before.contains(x as usize)) by {
                    if before.contains(x as usize) {
                        let w = choose|w: int| 0 <= w < before.len() && before[w] == x as usize;
                        if w < popped.len() {
                            assert(popped[w] == x as usize);
                        }
                    }
                }
            }
        }
        let mut j: usize = 0;
        while j < next[u].len()
            invariant
                n == next.len(),
                u < n,
                j <= next@[u as int]@.len(),
                marks.len() == n,
                marks@[u as int],
                forall|u: int, j: int|
                    0 <= u < next.len() && 0 <= j < next@[u]@.len() ==> (#[trigger] next@[u]@[j])
                        < n,
                forall|k: int|
                    0 <= k < seeds.len() ==> (#[trigger] seeds@[k]) < n
                        && marks@[seeds@[k] as int],
                forall|k: int| 0 <= k < todo.len() ==> (#[trigger] todo@[k]) < n
                    && marks@[todo@[k] as int],
                forall|v: int| 0 <= v < n && #[trigger] marks@[v] ==> reached(next@, seeds@, v),
                forall|x: int, y: int|
                    0 <= x < n && marks@[x] && x != u && !todo@.contains(x as usize) && 0 <= y
                        < next@[x]@.len() ==> marks@[(#[trigger] next@[x]@[y]) as int],
                forall|y: int|
                    0 <= y < j ==> marks@[(#[trigger] next@[u as int]@[y]) as int],
                unmarked(marks@) + todo.len() == total,
            decreases next@[u as int]@.len() - j,
        {
            let v: usize = next[u][j];
            if !marks[v] {
                let ghost todo_before = todo@;
                let ghost marks_before = marks@;
                proof {
                    lemma_unmarked_set(marks@, v as int);
                }
                marks.set(v, true);
                todo.push(v);
                proof {
                    assert(reached(next@, seeds@, v as int)) by {
                        assert(marks_before[u as int]);
                        let m = choose|m: nat|
                            (#[trigger] reached_in(next@, seeds@, m)).contains(u as int);
                        assert(next@[u as int]@[j as int] == v);
                        assert(leads(next@, u as int, v as int));
                        assert(reached_in(next@, seeds@, m + 1).contains(v as int));
                    }
                    assert forall|x: int, y: int|
                        0 <= x < n && marks@[x] && x != u && !todo@.contains(x as usize) && 0 <= y
                            < next@[x]@.len() implies marks@[(
                    #[trigger] next@[x]@[y]) as int] by {
                        if x == v {
                            assert(todo@[todo_before.len() as int] == x as usize);
                        } else {
                            assert(!todo_before.contains(x as usize)) by {
                                if todo_before.contains(x as usize) {
                                    let w = choose|w: int|
                                        0 <= w < todo_before.len() && todo_before[w] == x as usize;
                                    assert(todo@[w] == x as usize);
                                }
                            }
                            assert(marks_before[next@[x]@[y] as int]);
                        }
                    }
                }
            }
            j += 1;
        }
    }
    proof {
        assert forall|v: int| 0 <= v < n implies #[trigger] marks@[v] == reached(
            next@,
            seeds@,
            v,
        ) by {
            if reached(next@, seeds@, v) {
                let m = choose|m: nat| (#[trigger] reached_in(next@, seeds@, m)).contains(v);
                lemma_reached_marked(next@, seeds@, marks@, v, m);
            }
        }
    }
    marks
}

/// The lists are the destinations of the transitions.
spec fn lists_forward<M>(fst: FstM<M>, next: Seq<Vec<usize>>) -> bool {
    &&& next.len() == fst.states.len()
    &&& forall|u: int, v: int|
        0 <= u < next.len() ==> (#[trigger] leads(next, u, v) <==> edge(fst, u, v))
}

/// The lists are the sources of the transitions.
spec fn lists_backward<M>(fst: FstM<M>, prev: Seq<Vec<usize>>) -> bool {
    &&& prev.len() == fst.states.len()
    &&& forall|u: int, v: int|
        0 <= v < prev.len() ==> (#[trigger] leads(prev, v, u) <==> 0 <= u < prev.len() && edge(
            fst,
            u,
            v,
        ))
}

proof fn lemma_accessible<M>(fst: FstM<M>, next: Seq<Vec<usize>>, seeds: Seq<usize>, n: nat)
    requires
        lists_forward(fst, next),
        match fst.start {
            Some(s) => seeds == seq![s as usize],
            None => seeds.len() == 0,
        },
        fst.start matches Some(s) ==> s < usize::MAX,
    ensures
        reached_in(next, seeds, n) == accessible_within(fst, n),
    decreases n,
{
    let a = reached_in(next, seeds, n);
    let b = accessible_within(fst, n);
    if n == 0 {
        assert forall|v: int| a.contains(v) == b.contains(v) by {
            if let Some(s) = fst.start {
                assert(seeds[0] == s as usize);
            }
        }
    } else {
        lemma_accessible(fst, next, seeds, (n - 1) as nat);
        let set = accessible_within(fst, (n - 1) as nat);
        assert forall|v: int| a.contains(v) == b.contains(v) by {
            if exists|u: int| 0 <= u < next.len() && #[trigger] set.contains(u) && leads(next, u, v) {
                let u = choose|u: int|
                    0 <= u < next.len() && #[trigger] set.contains(u) && leads(next, u, v);
                assert(edge(fst, u, v));
            }
            if exists|u: int|
                0 <= u < fst.states.len() && #[trigger] set.contains(u) && edge(fst, u, v) {
                let u = choose|u: int|
                    0 <= u < fst.states.len() && #[trigger] set.contains(u) && edge(fst, u, v);
                assert(leads(next, u, v));
            }
        }
    }
    assert(a =~= b);
}

proof fn lemma_coaccessible<M>(fst: FstM<M>, prev: Seq<Vec<usize>>, seeds: Seq<usize>, n: nat)
    requires
        lists_backward(fst, prev),
        forall|i: int| 0 <= i < seeds.len() ==> (#[trigger] seeds[i]) < fst.states.len()
            && fst.states[seeds[i] as int].final_weight is Some,
        forall|v: int|
            0 <= v < fst.states.len() && (#[trigger] fst.states[v]).final_weight is Some
                ==> seeds.contains(v as usize),
        fst.states.len() <= usize::MAX,
    ensures
        reached_in(prev, seeds, n) == coaccessible_within(fst, n),
    decreases n,
{
    let a = reached_in(prev, seeds, n);
    let b = coaccessible_within(fst, n);
    if n == 0 {
        assert forall|v: int| a.contains(v) == b.contains(v) by {
            if b.contains(v) {
                assert(fst.states[v].final_weight is Some);
                let i = choose|i: int| 0 <= i < seeds.len() && seeds[i] == v as usize;
                assert(seeds[i] == v);
            }
        }
    } else {
        lemma_coaccessible(fst, prev, seeds, (n - 1) as nat);
        let set = coaccessible_within(fst, (n - 1) as nat);
        assert forall|v: int| a.contains(v) == b.contains(v) by {
            if exists|u: int| 0 <= u < prev.len() && #[trigger] set.contains(u) && leads(prev, u, v) {
                let u = choose|u: int|
                    0 <= u < prev.len() && #[trigger] set.contains(u) && leads(prev, u, v);
                assert(edge(fst, v, u));
            }
            if 0 <= v < fst.states.len() && exists|u: int|
                0 <= u < fst.states.len() && #[trigger] set.contains(u) && edge(fst, v, u) {
                let u = choose|u: int|
                    0 <= u < fst.states.len() && #[trigger] set.contains(u) && edge(fst, v, u);
                assert(leads(prev, u, v));
            }
        }
    }
    assert(a =~= b);
}

/// The destinations of the transitions of every state.
fn forward_lists<W: Semiring>(fst: &VectorFst<W>) -> (next: Vec<Vec<usize>>)
    requires
        closed_machine(fst.model()),
        fst.model().states.len() <= u32::MAX,
    ensures
        lists_forward(fst.model(), next@),
        forall|u: int, j: int|
            0 <= u < next.len() && 0 <= j < next@[u]@.len() ==> (#[trigger] next@[u]@[j])
                < next.len(),
{
    let ghost m = fst.model();
    let n: usize = fst.num_states();
    let mut next: Vec<Vec<usize>> = Vec::new();
    for s in 0..n
        invariant
            n == m.states.len(),
            n <= u32::MAX,
            m == fst.model(),
            closed_machine(m),
            next.len() == s,
            forall|u: int|
                0 <= u < s ==> (#[trigger] next@[u])@.len() == m.states[u].trs.len(),
            forall|u: int, j: int|
                0 <= u < s && 0 <= j < next@[u]@.len() ==> (#[trigger] next@[u]@[j])
                    == m.states[u].trs[j].nextstate,
    {
        let mut list: Vec<usize> = Vec::new();
        let trs: &Vec<Tr<W>> = match fst.get_trs(s as StateId) {
            Ok(trs) => trs,
            Err(_) => {
                assert(false);
                return next;
            },
        };
        let len: usize = trs.len();
        for j in 0..len
            invariant
                len == trs.len(),
                trs_model(trs@) == m.states[s as int].trs,
                list.len() == j,
                forall|k: int|
                    0 <= k < j ==> (#[trigger] list@[k]) == m.states[s as int].trs[k].nextstate,
        {
            assert(m.states[s as int].trs[j as int] == trs@[j as int].model());
            list.push(trs[j].nextstate as usize);
        }
        next.push(list);
    }
    proof {
        assert forall|u: int, v: int| 0 <= u < next.len() implies (#[trigger] leads(
            next@,
            u,
            v,
        ) <==> edge(m, u, v)) by {
            if leads(next@, u, v) {
                let j = choose|j: int| 0 <= j < next@[u]@.len() && #[trigger] next@[u]@[j] == v;
                assert(m.states[u].trs[j].nextstate == v);
            }
            if edge(m, u, v) {
                let j = choose|j: int|
                    0 <= j < m.states[u].trs.len() && (#[trigger] m.states[u].trs[j]).nextstate
                        == v;
                assert(next@[u]@[j] == v);
            }
        }
        assert forall|u: int, j: int| 0 <= u < next.len() && 0 <= j < next@[u]@.len() implies (
        #[trigger] next@[u]@[j]) < next.len() by {
            assert(m.states[u].trs[j].nextstate < m.states.len());
        }
    }
    next
}

/// The transposed lists.
fn transposed(next: &Vec<Vec<usize>>) -> (prev: Vec<Vec<usize>>)
    requires
        forall|u: int, j: int|
            0 <= u < next.len() && 0 <= j < next@[u]@.len() ==> (#[trigger] next@[u]@[j])
                < next.len(),
    ensures
        prev.len() == next.len(),
        forall|u: int, v: int|
            0 <= v < prev.len() ==> (#[trigger] leads(prev@, v, u) <==> 0 <= u < next.len()
                && leads(next@, u, v)),
        forall|u: int, j: int|
            0 <= u < prev.len() && 0 <= j < prev@[u]@.len() ==> (#[trigger] prev@[u]@[j])
                < prev.len(),
{
    let n: usize = next.len();
    let mut prev: Vec<Vec<usize>> = Vec::new();
    for i in 0..n
        invariant
            n == next.len(),
            prev.len() == i,
            forall|v: int| 0 <= v < i ==> (#[trigger] prev@[v])@.len() == 0,
    {
        prev.push(Vec::new());
    }
    for u in 0..n
        invariant
            n == next.len(),
            prev.len() == n,
            forall|u: int, j: int|
                0 <= u < next.len() && 0 <= j < next@[u]@.len() ==> (#[trigger] next@[u]@[j]) < n,
            forall|v: int, k: int|
                0 <= v < n && 0 <= k < prev@[v]@.len() ==> (#[trigger] prev@[v]@[k]) < u && leads(
                    next@,
                    prev@[v]@[k] as int,
                    v,
                ),
            forall|x: int, y: int|
                0 <= x < u && 0 <= y < next@[x]@.len() ==> prev@[(
                #[trigger] next@[x]@[y]) as int]@.contains(x as usize),
    {
        let len: usize = next[u].len();
        for j in 0..len
            invariant
                u < n,
                n == next.len(),
                prev.len() == n,
                len == next@[u as int]@.len(),
                forall|u: int, j: int|
                    0 <= u < next.len() && 0 <= j < next@[u]@.len() ==> (#[trigger] next@[u]@[j])
                        < n,
                forall|v: int, k: int|
                    0 <= v < n && 0 <= k < prev@[v]@.len() ==> (#[trigger] prev@[v]@[k]) <= u
                        && leads(next@, prev@[v]@[k] as int, v),
                forall|x: int, y: int|
                    0 <= x < u && 0 <= y < next@[x]@.len() ==> prev@[(
                    #[trigger] next@[x]@[y]) as int]@.contains(x as usize),
                forall|y: int|
                    0 <= y < j ==> prev@[(#[trigger] next@[u as int]@[y]) as int]@.contains(u),
        {
            let v: usize = next[u][j];
            let ghost before = prev@;
            let ghost row = prev@[v as int]@;
            prev[v].push(u);
            proof {
                assert(prev@[v as int]@ == row.push(u));
                assert(forall|x: int| 0 <= x < n && x != v ==> prev@[x] == before[x]);
                assert forall|a: usize, b: int|
                    0 <= b < n && (#[trigger] before[b]@.contains(
                        a,
                    )) implies prev@[b]@.contains(a) by {
                    if b == v {
                        let w = choose|w: int| 0 <= w < row.len() && row[w] == a;
                        assert(prev@[b]@[w] == a);
                    }
                }
                assert(prev@[v as int]@.contains(u)) by {
                    assert(prev@[v as int]@[row.len() as int] == u);
                }
                assert forall|b: int, k: int|
                    0 <= b < n && 0 <= k < prev@[b]@.len() implies (#[trigger] prev@[b]@[k]) <= u
                    && leads(next@, prev@[b]@[k] as int, b) by {
                    if b == v {
                        if k < row.len() {
                            assert(before[b]@[k] <= u);
                            assert(leads(next@, before[b]@[k] as int, b));
                        } else {
                            assert(next@[u as int]@[j as int] == v);
                        }
                    } else {
                        assert(before[b]@[k] <= u);
                    }
                }
                assert forall|x: int, y: int|
                    0 <= x < u && 0 <= y < next@[x]@.len() implies prev@[(
                #[trigger] next@[x]@[y]) as int]@.contains(x as usize) by {
                    assert(before[next@[x]@[y] as int]@.contains(x as usize));
                }
                assert forall|y: int| 0 <= y < j + 1 implies prev@[(
                #[trigger] next@[u as int]@[y]) as int]@.contains(u) by {
                    if y < j {
                        assert(before[next@[u as int]@[y] as int]@.contains(u));
                    }
                }
            }
        }
    }
    proof {
        assert forall|u: int, v: int| 0 <= v < prev.len() implies (#[trigger] leads(
            prev@,
            v,
            u,
        ) <==> 0 <= u < next.len() && leads(next@, u, v)) by {
            if leads(prev@, v, u) {
                let k = choose|k: int| 0 <= k < prev@[v]@.len() && #[trigger] prev@[v]@[k] == u;
                assert(leads(next@, prev@[v]@[k] as int, v));
            }
            if 0 <= u < next.len() && leads(next@, u, v) {
                let y = choose|y: int| 0 <= y < next@[u]@.len() && #[trigger] next@[u]@[y] == v;
                assert(prev@[next@[u]@[y] as int]@.contains(u as usize));
                let k = choose|k: int| 0 <= k < prev@[v]@.len() && prev@[v]@[k] == u as usize;
                assert(prev@[v]@[k] == u);
            }
        }
    }
    prev
}

/// Which states are useful.
fn useful_marks<W: Semiring>(fst: &VectorFst<W>) -> (marks: Vec<bool>)
    requires
        closed_machine(fst.model()),
        fst.model().states.len() <= u32::MAX,
    ensures
        marks.len() == fst.model().states.len(),
        forall|v: int| 0 <= v < marks.len() ==> #[trigger] marks@[v] == useful(fst.model(), v),
{
    let ghost m = fst.model();
    let n: usize = fst.num_states();
    let next: Vec<Vec<usize>> = forward_lists(fst);
    let mut starts: Vec<usize> = Vec::new();
    if let Some(s) = fst.start() {
        starts.push(s as usize);
        assert(starts@ =~= seq![s as usize]);
    }
    let access: Vec<bool> = search(&next, &starts);
    let prev: Vec<Vec<usize>> = transposed(&next);
    let mut finals: Vec<usize> = Vec::new();
    for s in 0..n
        invariant
            n == m.states.len(),
            n <= u32::MAX,
            m == fst.model(),
            forall|i: int| 0 <= i < finals.len() ==> (#[trigger] finals@[i]) < s
                && m.states[finals@[i] as int].final_weight is Some,
            forall|v: int|
                0 <= v < s && (#[trigger] m.states[v]).final_weight is Some
                    ==> finals@.contains(v as usize),
    {
        let ghost before = finals@;
        let is_final: bool = match fst.final_weight(s as StateId) {
            Ok(Some(_)) => true,
            _ => false,
        };
        if is_final {
            finals.push(s);
        }
        proof {
            assert forall|v: int|
                0 <= v < s + 1 && (
                #[trigger] m.states[v]).final_weight is Some implies finals@.contains(
                v as usize,
            ) by {
                if v < s {
                    let w = choose|w: int| 0 <= w < before.len() && before[w] == v as usize;
                    assert(finals@[w] == v as usize);
                } else {
                    assert(finals@[before.len() as int] == v as usize);
                }
            }
        }
    }
    assert(lists_backward(m, prev@));
    let coaccess: Vec<bool> = search(&prev, &finals);
    let mut marks: Vec<bool> = Vec::new();
    for s in 0..n
        invariant
            n == m.states.len(),
            access.len() == n,
            coaccess.len() == n,
            marks.len() == s,
            forall|v: int| 0 <= v < s ==> #[trigger] marks@[v] == (access@[v] && coaccess@[v]),
    {
        marks.push(access[s] && coaccess[s]);
    }
    proof {
        assert forall|v: int| 0 <= v < marks.len() implies #[trigger] marks@[v] == useful(
            m,
            v,
        ) by {
            assert(access@[v] == accessible(m, v)) by {
                if reached(next@, starts@, v) {
                    let k = choose|k: nat| (#[trigger] reached_in(next@, starts@, k)).contains(v);
                    lemma_accessible(m, next@, starts@, k);
                    assert(accessible_within(m, k).contains(v));
                }
                if accessible(m, v) {
                    let k = choose|k: nat| (#[trigger] accessible_within(m, k)).contains(v);
                    lemma_accessible(m, next@, starts@, k);
                    assert(reached_in(next@, starts@, k).contains(v));
                }
            }
            assert(coaccess@[v] == coaccessible(m, v)) by {
                if reached(prev@, finals@, v) {
                    let k = choose|k: nat| (#[trigger] reached_in(prev@, finals@, k)).contains(v);
                    lemma_coaccessible(m, prev@, finals@, k);
                    assert(coaccessible_within(m, k).contains(v));
                }
                if coaccessible(m, v) {
                    let k = choose|k: nat| (#[trigger] coaccessible_within(m, k)).contains(v);
                    lemma_coaccessible(m, prev@, finals@, k);
                    assert(reached_in(prev@, finals@, k).contains(v));
                }
            }
        }
    }
    marks
}

proof fn lemma_useful_below<M>(fst: FstM<M>, n: int)
    requires
        n >= 0,
    ensures
        0 <= useful_below(fst, n) <= n,
    decreases n,
{
    if n > 0 {
        lemma_useful_below(fst, n - 1);
    }
}

/// The transitions to useful states, with their new destinations.
fn renumbered<W: Semiring>(
    trs: &Vec<Tr<W>>,
    marks: &Vec<bool>,
    ids: &Vec<StateId>,
    Ghost(m): Ghost<FstM<W::M>>,
) -> (r: Vec<Tr<W>>)
    requires
        marks.len() == m.states.len(),
        ids.len() == m.states.len(),
        forall|v: int| 0 <= v < marks.len() ==> #[trigger] marks@[v] == useful(m, v),
        forall|v: int| 0 <= v < ids.len() ==> #[trigger] ids@[v] == useful_below(m, v),
        forall|j: int|
            0 <= j < trs.len() ==> (#[trigger] trs_model(trs@)[j]).nextstate < m.states.len(),
    ensures
        trs_model(r@) == useful_trs(m, trs_model(trs@)),
{
    let ghost all = trs_model(trs@);
    let n: usize = trs.len();
    let mut r: Vec<Tr<W>> = Vec::new();
    proof {
        assert(all.take(0) =~= Seq::empty());
        assert(trs_model(r@) =~= Seq::empty());
    }
    for j in 0..n
        invariant
            n == trs.len(),
            all == trs_model(trs@),
            marks.len() == m.states.len(),
            ids.len() == m.states.len(),
            forall|v: int| 0 <= v < marks.len() ==> #[trigger] marks@[v] == useful(m, v),
            forall|v: int| 0 <= v < ids.len() ==> #[trigger] ids@[v] == useful_below(m, v),
            forall|j: int|
                0 <= j < all.len() ==> (#[trigger] all[j]).nextstate < m.states.len(),
            trs_model(r@) == useful_trs(m, all.take(j as int)),
    {
        let tr: &Tr<W> = &trs[j];
        let ghost before = trs_model(r@);
        proof {
            assert(all[j as int] == tr.model());
            assert(all.take(j + 1).drop_last() =~= all.take(j as int));
        }
        if marks[tr.nextstate as usize] {
            let copy: Tr<W> = Tr {
                ilabel: tr.ilabel,
                olabel: tr.olabel,
                weight: tr.weight.duplicate(),
                nextstate: ids[tr.nextstate as usize],
            };
            let ghost cm = copy.model();
            r.push(copy);
            assert(trs_model(r@) =~= before.push(cm));
        }
    }
    assert(all.take(n as int) =~= all);
    r
}

/// Removes the states that lie on no path from the start to a final state. The
/// others keep their order.
pub fn connect<W: Semiring>(fst: &mut VectorFst<W>)
    requires
        closed_machine(old(fst).model()),
        old(fst).model().states.len() <= u32::MAX,
    ensures
        final(fst).model() == connect_model(old(fst).model()),
{
    let ghost m = fst.model();
    let n: usize = fst.num_states();
    let marks: Vec<bool> = useful_marks(fst);
    let mut ids: Vec<StateId> = Vec::new();
    let mut count: StateId = 0;
    for s in 0..n
        invariant
            n == m.states.len(),
            n <= u32::MAX,
            marks.len() == n,
            forall|v: int| 0 <= v < n ==> #[trigger] marks@[v] == useful(m, v),
            ids.len() == s,
            count == useful_below(m, s as int),
            count <= s,
            forall|v: int| 0 <= v < s ==> #[trigger] ids@[v] == useful_below(m, v),
    {
        ids.push(count);
        if marks[s] {
            count += 1;
        }
    }
    let mut states: Vec<VectorFstState<W>> = Vec::new();
    assert(states_model(states@) =~= Seq::empty());
    for s in 0..n
        invariant
            m == fst.model(),
            n == m.states.len(),
            n <= u32::MAX,
            closed_machine(m),
            marks.len() == n,
            ids.len() == n,
            forall|v: int| 0 <= v < n ==> #[trigger] marks@[v] == useful(m, v),
            forall|v: int| 0 <= v < n ==> #[trigger] ids@[v] == useful_below(m, v),
            states_model(states@) == useful_states(m, s as int),
    {
        if marks[s] {
            let ghost before = states_model(states@);
            let trs: Vec<Tr<W>> = match fst.get_trs(s as StateId) {
                Ok(trs) => {
                    assert forall|j: int| 0 <= j < trs.len() implies (#[trigger] trs_model(
                        trs@,
                    )[j]).nextstate < m.states.len() by {
                        assert(m.states[s as int].trs[j].nextstate < m.states.len());
                    }
                    renumbered(trs, &marks, &ids, Ghost(m))
                },
                Err(_) => Vec::new(),
            };
            let final_weight: Option<W> = match fst.final_weight(s as StateId) {
                Ok(w) => w,
                Err(_) => None,
            };
            let state = VectorFstState::new(final_weight, trs);
            let ghost sm = state.model();
            states.push(state);
            assert(states_model(states@) =~= before.push(sm));
        }
    }
    let start: Option<StateId> = match fst.start() {
        Some(s) => if marks[s as usize] {
            Some(ids[s as usize])
        } else {
            None
        },
        None => None,
    };
    fst.replace_states(start, states);
    let properties = fst.properties().union(ACCESSIBLE | COACCESSIBLE);
    fst.set_properties(properties);
}

} // verus!
