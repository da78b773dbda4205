//! Moving outputs into weights and back.

use crate::error::FstError;
use crate::fst::properties::FstProperties;
use crate::fst::tr::Label;
use crate::fst::vector_fst::FstM;
use crate::semirings::gallic::{GallicWeightMin, GallicWeightRestrict};
use crate::semirings::gallic_results::law_label_round_trips;
use crate::semirings::gallic_union::GallicWeight;
use crate::semirings::semiring::Semiring;
use crate::weight_convert::{
    from_gallic_model, from_gallic_state, needs_superfinal, plain_state, plain_tr, to_gallic_model,
    writes_at_end, Gallic,
};
use vstd::prelude::*;

verus! {

/// What was made from a label and a weight gives both back.
pub open spec fn gives_labels_back<W: Semiring, G: Gallic<W>>() -> bool {
    forall|label: Label, w: W::M|
        G::extract_model(#[trigger] G::of_label_model(label, w)) == Ok::<(Label, W::M), FstError>(
            (label, w),
        )
}

/// Whatever kind of weights carries the output, labels come back.
pub proof fn law_labels_come_back<W: Semiring>()
    ensures
        gives_labels_back::<W, GallicWeightRestrict<W>>(),
        gives_labels_back::<W, GallicWeightMin<W>>(),
        gives_labels_back::<W, GallicWeight<W>>(),
{
    assert forall|label: Label, w: W::M|
        GallicWeightRestrict::<W>::extract_model(
            #[trigger] GallicWeightRestrict::<W>::of_label_model(label, w),
        ) == Ok::<(Label, W::M), FstError>((label, w)) by {
        law_label_round_trips::<W>(label, w);
    }
    assert forall|label: Label, w: W::M|
        GallicWeightMin::<W>::extract_model(#[trigger] GallicWeightMin::<W>::of_label_model(label, w))
            == Ok::<(Label, W::M), FstError>((label, w)) by {
        law_label_round_trips::<W>(label, w);
    }
    assert forall|label: Label, w: W::M|
        GallicWeight::<W>::extract_model(#[trigger] GallicWeight::<W>::of_label_model(label, w))
            == Ok::<(Label, W::M), FstError>((label, w)) by {
        law_label_round_trips::<W>(label, w);
    }
}

/// A machine whose outputs were moved into the weights reads what it read, is an acceptor,
/// and gives the machine back when they are moved out again, state by state and transition
/// by transition. Nothing is left of a machine without a start state.
pub proof fn law_outputs_come_back<W: Semiring, G: Gallic<W>>(fst: FstM<W::M>)
    requires
        gives_labels_back::<W, G>(),
    ensures
        ({
            let back = from_gallic_model::<W, G>(to_gallic_model::<W, G>(fst));
            if fst.start is Some {
                back == Ok::<FstM<W::M>, FstError>(
                    FstM { properties: FstProperties { bits: 0 }, ..fst },
                )
            } else {
                back matches Ok(out) && out.states.len() == 0 && out.start is None && out.isymt
                    == fst.isymt && out.osymt == fst.osymt
            }
        }),
{
    if fst.start is Some {
        let a = to_gallic_model::<W, G>(fst);
        let n = fst.states.len();
        assert forall|s: int| 0 <= s < n implies plain_state::<W, G>(#[trigger] a.states[s])
            && !writes_at_end::<W, G>(a.states[s]) && from_gallic_state::<W, G>(
            a.states[s],
            n as u32,
        ) == fst.states[s] by {
            let state = a.states[s];
            assert forall|j: int| 0 <= j < state.trs.len() implies plain_tr::<W, G>(
                #[trigger] state.trs[j],
            ) by {
                let tr = fst.states[s].trs[j];
                assert(state.trs[j].weight == G::of_label_model(tr.olabel, tr.weight));
            }
            let back = from_gallic_state::<W, G>(state, n as u32);
            assert(back.trs =~= fst.states[s].trs) by {
                assert forall|j: int| 0 <= j < state.trs.len() implies #[trigger] back.trs[j]
                    == fst.states[s].trs[j] by {
                    let tr = fst.states[s].trs[j];
                    assert(state.trs[j].weight == G::of_label_model(tr.olabel, tr.weight));
                }
            }
        }
        assert(!needs_superfinal::<W, G>(a));
        let out = from_gallic_model::<W, G>(a)->Ok_0;
        assert(out.states =~= fst.states);
    }
}

} // verus!
