//! Properties of a machine that are known without looking at it again.
//!
//! Each property has two flags, one for "holds" and one for "does not hold"; a
//! property with neither flag set is unknown.

use vstd::prelude::*;

verus! {

/// A set of flags.
#[derive(Clone, Copy, Debug, PartialEq, Eq, Structural)]
pub struct FstProperties {
    pub bits: u64,
}

/// Input and output label are equal on every transition.
pub const ACCEPTOR: u64 = 0x10000;

pub const NOT_ACCEPTOR: u64 = 0x20000;

/// Input labels are unique among the transitions of a state.
pub const I_DETERMINISTIC: u64 = 0x40000;

pub const NOT_I_DETERMINISTIC: u64 = 0x80000;

/// Output labels are unique among the transitions of a state.
pub const O_DETERMINISTIC: u64 = 0x100000;

pub const NOT_O_DETERMINISTIC: u64 = 0x200000;

/// Some transition has the empty label on both sides.
pub const EPSILONS: u64 = 0x400000;

pub const NO_EPSILONS: u64 = 0x800000;

/// Some transition has the empty label on its input side.
pub const I_EPSILONS: u64 = 0x1000000;

pub const NO_I_EPSILONS: u64 = 0x2000000;

/// Some transition has the empty label on its output side.
pub const O_EPSILONS: u64 = 0x4000000;

pub const NO_O_EPSILONS: u64 = 0x8000000;

/// The transitions of every state are sorted by input label.
pub const I_LABEL_SORTED: u64 = 0x10000000;

pub const NOT_I_LABEL_SORTED: u64 = 0x20000000;

/// The transitions of every state are sorted by output label.
pub const O_LABEL_SORTED: u64 = 0x40000000;

pub const NOT_O_LABEL_SORTED: u64 = 0x80000000;

/// Some weight is neither zero nor one.
pub const WEIGHTED: u64 = 0x1_0000_0000;

pub const UNWEIGHTED: u64 = 0x2_0000_0000;

/// Some state can reach itself.
pub const CYCLIC: u64 = 0x4_0000_0000;

pub const ACYCLIC: u64 = 0x8_0000_0000;

/// The start state can reach itself.
pub const INITIAL_CYCLIC: u64 = 0x10_0000_0000;

pub const INITIAL_ACYCLIC: u64 = 0x20_0000_0000;

/// Every transition leads to a state with a larger id.
pub const TOP_SORTED: u64 = 0x40_0000_0000;

pub const NOT_TOP_SORTED: u64 = 0x80_0000_0000;

/// Every state can be reached from the start state.
pub const ACCESSIBLE: u64 = 0x100_0000_0000;

pub const NOT_ACCESSIBLE: u64 = 0x200_0000_0000;

/// Every state can reach a final state.
pub const COACCESSIBLE: u64 = 0x400_0000_0000;

pub const NOT_COACCESSIBLE: u64 = 0x800_0000_0000;

/// The machine holds a single path.
pub const STRING: u64 = 0x1000_0000_0000;

pub const NOT_STRING: u64 = 0x2000_0000_0000;

/// Some cycle has a weight other than one.
pub const WEIGHTED_CYCLES: u64 = 0x4000_0000_0000;

pub const UNWEIGHTED_CYCLES: u64 = 0x8000_0000_0000;

/// What holds of a machine without states.
pub const NULL_PROPERTIES: u64 = ACCEPTOR | I_DETERMINISTIC | O_DETERMINISTIC | NO_EPSILONS
    | NO_I_EPSILONS | NO_O_EPSILONS | I_LABEL_SORTED | O_LABEL_SORTED | UNWEIGHTED | ACYCLIC
    | INITIAL_ACYCLIC | TOP_SORTED | ACCESSIBLE | COACCESSIBLE | STRING | UNWEIGHTED_CYCLES;

/// What stays known when a state is added.
pub const ADD_STATE_KEEPS: u64 = ACCEPTOR | NOT_ACCEPTOR | I_DETERMINISTIC | NOT_I_DETERMINISTIC
    | O_DETERMINISTIC | NOT_O_DETERMINISTIC | EPSILONS | NO_EPSILONS | I_EPSILONS | NO_I_EPSILONS
    | O_EPSILONS | NO_O_EPSILONS | I_LABEL_SORTED | NOT_I_LABEL_SORTED | O_LABEL_SORTED
    | NOT_O_LABEL_SORTED | WEIGHTED | UNWEIGHTED | CYCLIC | ACYCLIC | INITIAL_CYCLIC
    | INITIAL_ACYCLIC | TOP_SORTED | NOT_TOP_SORTED | NOT_ACCESSIBLE | NOT_COACCESSIBLE | NOT_STRING
    | WEIGHTED_CYCLES | UNWEIGHTED_CYCLES;

/// What stays known when the start state changes.
pub const SET_START_KEEPS: u64 = ACCEPTOR | NOT_ACCEPTOR | I_DETERMINISTIC | NOT_I_DETERMINISTIC
    | O_DETERMINISTIC | NOT_O_DETERMINISTIC | EPSILONS | NO_EPSILONS | I_EPSILONS | NO_I_EPSILONS
    | O_EPSILONS | NO_O_EPSILONS | I_LABEL_SORTED | NOT_I_LABEL_SORTED | O_LABEL_SORTED
    | NOT_O_LABEL_SORTED | WEIGHTED | UNWEIGHTED | CYCLIC | ACYCLIC | TOP_SORTED | NOT_TOP_SORTED
    | COACCESSIBLE | NOT_COACCESSIBLE | WEIGHTED_CYCLES | UNWEIGHTED_CYCLES;

/// What stays known when a final weight changes.
pub const SET_FINAL_KEEPS: u64 = ACCEPTOR | NOT_ACCEPTOR | I_DETERMINISTIC | NOT_I_DETERMINISTIC
    | O_DETERMINISTIC | NOT_O_DETERMINISTIC | EPSILONS | NO_EPSILONS | I_EPSILONS | NO_I_EPSILONS
    | O_EPSILONS | NO_O_EPSILONS | I_LABEL_SORTED | NOT_I_LABEL_SORTED | O_LABEL_SORTED
    | NOT_O_LABEL_SORTED | CYCLIC | ACYCLIC | INITIAL_CYCLIC | INITIAL_ACYCLIC | TOP_SORTED
    | NOT_TOP_SORTED | ACCESSIBLE | NOT_ACCESSIBLE | WEIGHTED_CYCLES | UNWEIGHTED_CYCLES;

/// What stays known when a transition is added, before looking at it.
pub const ADD_TR_KEEPS: u64 = NOT_ACCEPTOR | NOT_I_DETERMINISTIC | NOT_O_DETERMINISTIC | EPSILONS
    | I_EPSILONS | O_EPSILONS | NOT_I_LABEL_SORTED | NOT_O_LABEL_SORTED | WEIGHTED | CYCLIC
    | INITIAL_CYCLIC | NOT_TOP_SORTED | ACCESSIBLE | COACCESSIBLE | WEIGHTED_CYCLES;

/// What stays known when a transition is added that does not contradict it.
pub const ADD_TR_CHECKED: u64 = ACCEPTOR | NO_EPSILONS | NO_I_EPSILONS | NO_O_EPSILONS
    | I_LABEL_SORTED | O_LABEL_SORTED | UNWEIGHTED | TOP_SORTED;

/// What stays known when states are removed together with their transitions.
pub const DELETE_STATES_KEEPS: u64 = ACCEPTOR | I_DETERMINISTIC | O_DETERMINISTIC | NO_EPSILONS
    | NO_I_EPSILONS | NO_O_EPSILONS | I_LABEL_SORTED | O_LABEL_SORTED | UNWEIGHTED | ACYCLIC
    | INITIAL_ACYCLIC | TOP_SORTED | UNWEIGHTED_CYCLES;

/// What stays known when transitions are removed.
pub const DELETE_TRS_KEEPS: u64 = DELETE_STATES_KEEPS | NOT_ACCESSIBLE | NOT_COACCESSIBLE;

/// What a determinization inherits from its input whatever it is.
pub const DETERMINIZE_INHERITS: u64 = ACCEPTOR | ACYCLIC | INITIAL_ACYCLIC | COACCESSIBLE | STRING;

/// `bits` with `add` set and `drop` cleared, if `when` holds.
pub open spec fn flip_model(bits: u64, when: bool, add: u64, drop: u64) -> u64 {
    if when {
        (bits | add) & !drop
    } else {
        bits
    }
}

fn flip(bits: u64, when: bool, add: u64, drop: u64) -> (r: u64)
    ensures
        r == flip_model(bits, when, add, drop),
{
    if when {
        (bits | add) & !drop
    } else {
        bits
    }
}

/// `bits` with `add` set, if `when` holds.
pub open spec fn with_model(bits: u64, when: bool, add: u64) -> u64 {
    if when {
        bits | add
    } else {
        bits
    }
}

fn with(bits: u64, when: bool, add: u64) -> (r: u64)
    ensures
        r == with_model(bits, when, add),
{
    if when {
        bits | add
    } else {
        bits
    }
}

/// What a transition is, as far as properties go.
pub struct TrShape {
    pub ilabel: u32,
    pub olabel: u32,
    /// The weight is neither zero nor one.
    pub weighted: bool,
    /// The destination is not larger than the source.
    pub backward: bool,
    /// The labels of the transition before it in the list, if there is one.
    pub previous: Option<(u32, u32)>,
}

impl FstProperties {
    /// Whether every flag of `flags` is set.
    pub open spec fn has(self, flags: u64) -> bool {
        self.bits & flags == flags
    }

    /// Whether every flag of `flags` is set.
    pub fn contains(&self, flags: u64) -> (b: bool)
        ensures
            b == self.has(flags),
    {
        self.bits & flags == flags
    }

    /// Nothing is known.
    pub fn empty() -> (r: Self)
        ensures
            r == (FstProperties { bits: 0 }),
    {
        FstProperties { bits: 0 }
    }

    /// What holds of a machine without states.
    pub fn null() -> (r: Self)
        ensures
            r == (FstProperties { bits: NULL_PROPERTIES }),
    {
        FstProperties { bits: NULL_PROPERTIES }
    }

    /// The flags in both sets.
    pub open spec fn mask_model(self, flags: u64) -> Self {
        FstProperties { bits: self.bits & flags }
    }

    /// The flags in both sets.
    pub fn mask(self, flags: u64) -> (r: Self)
        ensures
            r == self.mask_model(flags),
    {
        FstProperties { bits: self.bits & flags }
    }

    /// The flags in either set.
    pub open spec fn union_model(self, flags: u64) -> Self {
        FstProperties { bits: self.bits | flags }
    }

    /// The flags in either set.
    pub fn union(self, flags: u64) -> (r: Self)
        ensures
            r == self.union_model(flags),
    {
        FstProperties { bits: self.bits | flags }
    }

    /// What is known after the start state changed.
    pub open spec fn set_start_model(self) -> Self {
        FstProperties {
            bits: with_model(self.bits & SET_START_KEEPS, self.has(ACYCLIC), INITIAL_ACYCLIC),
        }
    }

    /// What is known after the start state changed.
    pub fn set_start(self) -> (r: Self)
        ensures
            r == self.set_start_model(),
    {
        FstProperties {
            bits: with(self.bits & SET_START_KEEPS, self.contains(ACYCLIC), INITIAL_ACYCLIC),
        }
    }

    /// What is known after a final weight changed; a weight counts as such when
    /// it is neither zero nor one.
    pub open spec fn set_final_model(self, old_weighted: bool, new_weighted: bool) -> Self {
        let a = if old_weighted {
            self.bits & !WEIGHTED
        } else {
            self.bits
        };
        let b = flip_model(a, new_weighted, WEIGHTED, UNWEIGHTED);
        FstProperties { bits: b & (SET_FINAL_KEEPS | WEIGHTED | UNWEIGHTED) }
    }

    /// What is known after a final weight changed; a weight counts as such when
    /// it is neither zero nor one.
    pub fn set_final(self, old_weighted: bool, new_weighted: bool) -> (r: Self)
        ensures
            r == self.set_final_model(old_weighted, new_weighted),
    {
        let a: u64 = if old_weighted {
            self.bits & !WEIGHTED
        } else {
            self.bits
        };
        let b: u64 = flip(a, new_weighted, WEIGHTED, UNWEIGHTED);
        FstProperties { bits: b & (SET_FINAL_KEEPS | WEIGHTED | UNWEIGHTED) }
    }

    /// What is known after a transition was added.
    pub open spec fn add_tr_model(self, tr: TrShape) -> Self {
        let a = flip_model(self.bits, tr.ilabel != tr.olabel, NOT_ACCEPTOR, ACCEPTOR);
        let b = flip_model(a, tr.ilabel == 0, I_EPSILONS, NO_I_EPSILONS);
        let c = flip_model(b, tr.ilabel == 0 && tr.olabel == 0, EPSILONS, NO_EPSILONS);
        let d = flip_model(c, tr.olabel == 0, O_EPSILONS, NO_O_EPSILONS);
        let e = flip_model(
            d,
            tr.previous matches Some(p) && p.0 > tr.ilabel,
            NOT_I_LABEL_SORTED,
            I_LABEL_SORTED,
        );
        let f = flip_model(
            e,
            tr.previous matches Some(p) && p.1 > tr.olabel,
            NOT_O_LABEL_SORTED,
            O_LABEL_SORTED,
        );
        let g = flip_model(f, tr.weighted, WEIGHTED, UNWEIGHTED);
        let h = flip_model(g, tr.backward, NOT_TOP_SORTED, TOP_SORTED) & (ADD_TR_KEEPS
            | ADD_TR_CHECKED);
        FstProperties {
            bits: with_model(h, h & TOP_SORTED == TOP_SORTED, ACYCLIC | INITIAL_ACYCLIC),
        }
    }

    /// What is known after a transition was added.
    pub fn add_tr(self, tr: TrShape) -> (r: Self)
        ensures
            r == self.add_tr_model(tr),
    {
        let (unsorted_in, unsorted_out): (bool, bool) = match tr.previous {
            Some(p) => (p.0 > tr.ilabel, p.1 > tr.olabel),
            None => (false, false),
        };
        let a: u64 = flip(self.bits, tr.ilabel != tr.olabel, NOT_ACCEPTOR, ACCEPTOR);
        let b: u64 = flip(a, tr.ilabel == 0, I_EPSILONS, NO_I_EPSILONS);
        let c: u64 = flip(b, tr.ilabel == 0 && tr.olabel == 0, EPSILONS, NO_EPSILONS);
        let d: u64 = flip(c, tr.olabel == 0, O_EPSILONS, NO_O_EPSILONS);
        let e: u64 = flip(d, unsorted_in, NOT_I_LABEL_SORTED, I_LABEL_SORTED);
        let f: u64 = flip(e, unsorted_out, NOT_O_LABEL_SORTED, O_LABEL_SORTED);
        let g: u64 = flip(f, tr.weighted, WEIGHTED, UNWEIGHTED);
        let h: u64 = flip(g, tr.backward, NOT_TOP_SORTED, TOP_SORTED) & (ADD_TR_KEEPS
            | ADD_TR_CHECKED);
        FstProperties { bits: with(h, h & TOP_SORTED == TOP_SORTED, ACYCLIC | INITIAL_ACYCLIC) }
    }

    /// What is known of the determinization of a machine of which `self` is known.
    pub open spec fn determinize_model(
        self,
        has_subsequential_label: bool,
        distinct_psubsequential_labels: bool,
    ) -> Self {
        let a = with_model(
            ACCESSIBLE,
            self.has(ACCEPTOR) || (self.has(NO_I_EPSILONS) && distinct_psubsequential_labels) || (
            has_subsequential_label && distinct_psubsequential_labels),
            I_DETERMINISTIC,
        );
        let b = a | (DETERMINIZE_INHERITS & self.bits);
        let c = with_model(
            b,
            self.has(NO_I_EPSILONS) && distinct_psubsequential_labels,
            NO_EPSILONS & self.bits,
        );
        let d = with_model(
            c,
            self.has(ACCESSIBLE),
            (I_EPSILONS | O_EPSILONS | CYCLIC) & self.bits,
        );
        let e = with_model(d, self.has(ACCEPTOR), (NO_I_EPSILONS | NO_O_EPSILONS) & self.bits);
        FstProperties {
            bits: with_model(e, self.has(NO_I_EPSILONS) && has_subsequential_label, NO_I_EPSILONS),
        }
    }

    /// What is known of the determinization of a machine of which `self` is known.
    pub fn determinize(
        self,
        has_subsequential_label: bool,
        distinct_psubsequential_labels: bool,
    ) -> (r: Self)
        ensures
            r == self.determinize_model(has_subsequential_label, distinct_psubsequential_labels),
    {
        let acceptor: bool = self.contains(ACCEPTOR);
        let no_i_epsilons: bool = self.contains(NO_I_EPSILONS);
        let a: u64 = with(
            ACCESSIBLE,
            acceptor || (no_i_epsilons && distinct_psubsequential_labels) || (
            has_subsequential_label && distinct_psubsequential_labels),
            I_DETERMINISTIC,
        );
        let b: u64 = a | (DETERMINIZE_INHERITS & self.bits);
        let c: u64 = with(b, no_i_epsilons && distinct_psubsequential_labels, NO_EPSILONS & self.bits);
        let d: u64 = with(
            c,
            self.contains(ACCESSIBLE),
            (I_EPSILONS | O_EPSILONS | CYCLIC) & self.bits,
        );
        let e: u64 = with(d, acceptor, (NO_I_EPSILONS | NO_O_EPSILONS) & self.bits);
        FstProperties { bits: with(e, no_i_epsilons && has_subsequential_label, NO_I_EPSILONS) }
    }
}

} // verus!
