//! Tables that give labels their printed names.

use crate::fst::tr::Label;
use vstd::prelude::*;

verus! {

/// A table from labels to symbols. Labels may have holes between them.
#[derive(Debug)]
pub struct SymbolTable {
    /// The rows, by ascending label.
    rows: Vec<(Label, String)>,
}

/// One row of a table.
pub struct RowM {
    pub label: Label,
    pub symbol: Seq<char>,
}

/// The labels of the rows are strictly ascending.
pub open spec fn ascending(rows: Seq<RowM>) -> bool {
    forall|i: int, j: int|
        #![trigger rows[i], rows[j]]
        0 <= i < j < rows.len() ==> rows[i].label < rows[j].label
}

/// The number of rows whose label is below `label`.
pub open spec fn rows_below(rows: Seq<RowM>, label: Label) -> int
    decreases rows.len(),
{
    if rows.len() == 0 {
        0
    } else if rows.last().label < label {
        rows.len() as int
    } else {
        rows_below(rows.drop_last(), label)
    }
}

/// The rows after `label` has been given `symbol`.
pub open spec fn rows_with(rows: Seq<RowM>, label: Label, symbol: Seq<char>) -> Seq<RowM> {
    let at = rows_below(rows, label);
    if at < rows.len() && rows[at].label == label {
        rows.update(at, RowM { label, symbol })
    } else {
        rows.insert(at, RowM { label, symbol })
    }
}

proof fn lemma_rows_below(rows: Seq<RowM>, label: Label)
    requires
        ascending(rows),
    ensures
        0 <= rows_below(rows, label) <= rows.len(),
        forall|i: int| 0 <= i < rows_below(rows, label) ==> (#[trigger] rows[i]).label < label,
        forall|i: int|
            rows_below(rows, label) <= i < rows.len() ==> (#[trigger] rows[i]).label >= label,
    decreases rows.len(),
{
    if rows.len() > 0 {
        let init = rows.drop_last();
        assert forall|i: int, j: int|
            #![trigger init[i], init[j]]
            0 <= i < j < init.len() implies init[i].label < init[j].label by {
            assert(init[i] == rows[i] && init[j] == rows[j]);
        }
        lemma_rows_below(init, label);
        assert forall|i: int| 0 <= i < rows_below(rows, label) implies (#[trigger] rows[i]).label
            < label by {
            if rows.last().label < label {
                if i < rows.len() - 1 {
                    assert(rows[i].label < rows[rows.len() - 1].label);
                }
            } else {
                assert(init[i] == rows[i]);
            }
        }
        assert forall|i: int| rows_below(rows, label) <= i < rows.len() implies (
        #[trigger] rows[i]).label >= label by {
            if i < rows.len() - 1 {
                assert(init[i] == rows[i]);
            }
        }
    }
}

/// A row given to an ascending table leaves it ascending.
pub proof fn lemma_rows_with_ascending(rows: Seq<RowM>, label: Label, symbol: Seq<char>)
    requires
        ascending(rows),
    ensures
        ascending(rows_with(rows, label, symbol)),
{
    lemma_rows_below(rows, label);
    let at = rows_below(rows, label);
    let out = rows_with(rows, label, symbol);
    assert forall|i: int, j: int|
        #![trigger out[i], out[j]]
        0 <= i < j < out.len() implies out[i].label < out[j].label by {
        if at < rows.len() && rows[at].label == label {
            assert(rows[i].label < rows[j].label);
        } else {
            let si = if i < at {
                i
            } else {
                i - 1
            };
            let sj = if j < at {
                j
            } else {
                j - 1
            };
            if i != at {
                assert(out[i] == rows[si]);
            }
            if j != at {
                assert(out[j] == rows[sj]);
            }
            if i != at && j != at {
                assert(rows[si].label < rows[sj].label);
            }
        }
    }
}

/// After a label was given a symbol it has that symbol and no other, and every other label
/// has the symbol that it had.
pub proof fn law_rows_with(rows: Seq<RowM>, label: Label, symbol: Seq<char>)
    requires
        ascending(rows),
    ensures
        forall|row: RowM| #[trigger]
            rows_with(rows, label, symbol).contains(row) <==> row == (RowM { label, symbol }) || (
            row.label != label && rows.contains(row)),
{
    lemma_rows_below(rows, label);
    let at = rows_below(rows, label);
    let out = rows_with(rows, label, symbol);
    let there = at < rows.len() && rows[at].label == label;
    assert(out[at] == (RowM { label, symbol }));
    assert forall|row: RowM| #[trigger] out.contains(row) <==> row == (RowM { label, symbol }) || (
    row.label != label && rows.contains(row)) by {
        if out.contains(row) && row != (RowM { label, symbol }) {
            let i = choose|i: int| 0 <= i < out.len() && out[i] == row;
            let k = if there || i < at {
                i
            } else {
                i - 1
            };
            assert(rows[k] == row);
            if there {
                if k < at {
                    assert(rows[k].label < rows[at].label);
                } else {
                    assert(rows[at].label < rows[k].label);
                }
            }
        }
        if row.label != label && rows.contains(row) {
            let k = choose|k: int| 0 <= k < rows.len() && rows[k] == row;
            let i = if there || k < at {
                k
            } else {
                k + 1
            };
            assert(out[i] == row);
        }
    }
}

/// A row whose label is larger than all others is put at the end.
pub proof fn lemma_rows_with_last(rows: Seq<RowM>, label: Label, symbol: Seq<char>)
    requires
        forall|i: int| 0 <= i < rows.len() ==> (#[trigger] rows[i]).label < label,
    ensures
        rows_with(rows, label, symbol) == rows.push(RowM { label, symbol }),
{
    if rows.len() > 0 {
        assert(rows[rows.len() - 1].label < label);
    }
    assert(rows_with(rows, label, symbol) =~= rows.push(RowM { label, symbol }));
}

impl SymbolTable {
    pub closed spec fn model(&self) -> Seq<RowM> {
        Seq::new(
            self.rows@.len(),
            |i: int| RowM { label: self.rows@[i].0, symbol: self.rows@[i].1@ },
        )
    }

    #[verifier::type_invariant]
    spec fn rows_ascending(&self) -> bool {
        ascending(self.model())
    }

    /// The table without rows.
    pub fn empty() -> (r: Self)
        ensures
            r.model() == Seq::<RowM>::empty(),
    {
        let r = SymbolTable { rows: Vec::new() };
        assert(r.model() =~= Seq::<RowM>::empty());
        r
    }

    /// The number of rows.
    pub fn num_symbols(&self) -> (r: usize)
        ensures
            r == self.model().len(),
            ascending(self.model()),
    {
        proof {
            use_type_invariant(self);
        }
        self.rows.len()
    }

    /// One more than the largest label, or zero for the empty table.
    pub fn len(&self) -> (r: u64)
        ensures
            r == available_key(self.model()),
    {
        let n: usize = self.rows.len();
        if n == 0 {
            0
        } else {
            self.rows[n - 1].0 as u64 + 1
        }
    }

    /// The label of row `i`.
    pub fn label_at(&self, i: usize) -> (r: Label)
        requires
            i < self.model().len(),
        ensures
            r == self.model()[i as int].label,
    {
        self.rows[i].0
    }

    /// The symbol of row `i`.
    pub fn symbol_at(&self, i: usize) -> (r: &String)
        requires
            i < self.model().len(),
        ensures
            r@ == self.model()[i as int].symbol,
    {
        &self.rows[i].1
    }

    /// Gives `label` the symbol, in place of the one it had.
    pub fn add_symbol_with_key(&mut self, symbol: String, label: Label)
        ensures
            final(self).model() == rows_with(old(self).model(), label, symbol@),
    {
        proof {
            use_type_invariant(&*self);
            lemma_rows_below(self.model(), label);
            lemma_rows_with_ascending(self.model(), label, symbol@);
        }
        let ghost before = self.model();
        let mut rows: Vec<(Label, String)> = Vec::new();
        std::mem::swap(&mut rows, &mut self.rows);
        let ghost rows0 = rows@;
        let mut at: usize = rows.len();
        while at > 0 && rows[at - 1].0 >= label
            invariant
                rows@ == rows0,
                before.len() == rows0.len(),
                at <= rows.len(),
                forall|i: int|
                    0 <= i < rows.len() ==> (#[trigger] before[i]) == (RowM {
                        label: rows@[i].0,
                        symbol: rows@[i].1@,
                    }),
                forall|i: int| at <= i < rows.len() ==> (#[trigger] before[i]).label >= label,
            decreases at,
        {
            proof {
                assert(before[at - 1].label >= label);
            }
            at -= 1;
        }
        proof {
            let b = rows_below(before, label);
            if at < b {
                assert(before[at as int].label < label);
            }
            if b < at {
                assert(before[at - 1].label < label);
                assert(before[at - 1].label >= label);
            }
        }
        if at < rows.len() && rows[at].0 == label {
            rows[at] = (label, symbol);
        } else {
            rows.insert(at, (label, symbol));
        }
        assert(Seq::new(rows@.len(), |i: int| RowM { label: rows@[i].0, symbol: rows@[i].1@ })
            =~= rows_with(before, label, symbol@));
        self.rows = rows;
    }

    /// The symbol of a label.
    pub fn get_symbol(&self, label: Label) -> (r: Option<&String>)
        ensures
            match r {
                Some(s) => exists|i: int|
                    0 <= i < self.model().len() && #[trigger] self.model()[i] == (RowM {
                        label,
                        symbol: s@,
                    }),
                None => forall|i: int|
                    0 <= i < self.model().len() ==> (#[trigger] self.model()[i]).label != label,
            },
    {
        let n: usize = self.rows.len();
        for i in 0..n
            invariant
                n == self.model().len(),
                n == self.rows@.len(),
                forall|j: int| 0 <= j < i ==> (#[trigger] self.model()[j]).label != label,
        {
            if self.rows[i].0 == label {
                assert(self.model()[i as int] == (RowM { label, symbol: self.rows@[i as int].1@ }));
                return Some(&self.rows[i].1);
            }
        }
        None
    }

    /// The smallest label that has the symbol.
    pub fn get_label(&self, symbol: &String) -> (r: Option<Label>)
        ensures
            match r {
                Some(label) => exists|i: int|
                    0 <= i < self.model().len() && #[trigger] self.model()[i] == (RowM {
                        label,
                        symbol: symbol@,
                    }) && forall|j: int|
                        0 <= j < i ==> (#[trigger] self.model()[j]).symbol != symbol@,
                None => forall|i: int|
                    0 <= i < self.model().len() ==> (#[trigger] self.model()[i]).symbol != symbol@,
            },
    {
        let n: usize = self.rows.len();
        for i in 0..n
            invariant
                n == self.model().len(),
                n == self.rows@.len(),
                forall|j: int| 0 <= j < i ==> (#[trigger] self.model()[j]).symbol != symbol@,
        {
            if self.rows[i].1 == *symbol {
                assert(self.model()[i as int] == (RowM {
                    label: self.rows@[i as int].0,
                    symbol: symbol@,
                }));
                return Some(self.rows[i].0);
            }
        }
        None
    }
}

/// One more than the largest label of a table, or zero for the empty table.
pub open spec fn available_key(rows: Seq<RowM>) -> int {
    if rows.len() == 0 {
        0
    } else {
        rows.last().label + 1
    }
}

/// The label that is free next is larger than every label of the table, and by no more
/// than one.
pub proof fn law_available_key_is_free(rows: Seq<RowM>)
    requires
        ascending(rows),
    ensures
        forall|i: int| 0 <= i < rows.len() ==> (#[trigger] rows[i]).label < available_key(rows),
        rows.len() == 0 ==> available_key(rows) == 0,
        rows.len() > 0 ==> exists|i: int|
            0 <= i < rows.len() && (#[trigger] rows[i]).label + 1 == available_key(rows),
{
    if rows.len() > 0 {
        let n = rows.len() - 1;
        assert(rows[n].label + 1 == available_key(rows));
        assert forall|i: int| 0 <= i < rows.len() implies (#[trigger] rows[i]).label
            < available_key(rows) by {
            if i < n {
                assert(rows[i].label < rows[n].label);
            }
        }
    }
}

} // verus!
