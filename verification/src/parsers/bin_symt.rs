//! The binary format of symbol tables.
//!
//! A table is written as a magic number, a name, the next free key, the number of
//! rows, and the rows. A row is a symbol and its key. A text is its length in
//! bytes, followed by the bytes. Numbers have the least significant byte first.

use crate::bytes::{
    le_bytes, lemma_le_bytes, lemma_le_bytes_len, lemma_span, lemma_spelled_bound, push_all, push_le,
    read_word, span, spelled,
};
use crate::fst::symbol_table::{
    ascending, available_key, law_rows_with, lemma_rows_with_ascending, lemma_rows_with_last,
    rows_with, RowM, SymbolTable,
};
use crate::fst::tr::Label;
use vstd::prelude::*;
use vstd::utf8::{
    decode_utf8, encode_utf8, encode_utf8_decode_utf8, encode_utf8_valid_utf8, valid_utf8,
};

verus! {

/// What a binary symbol table begins with.
pub const SYMBOL_TABLE_MAGIC_NUMBER: i32 = 2_125_658_996;

/// Why bytes are not a symbol table.
#[derive(Clone, Copy, Debug, PartialEq, Eq, Structural)]
pub enum SymtError {
    /// The bytes end before the table does.
    UnexpectedEnd,
    /// The bytes do not begin with the magic number.
    BadMagicNumber,
    /// A text is not valid UTF-8.
    BadText,
}

/// The number in the `n` bytes from `at` on.
pub open spec fn number_at(bytes: Seq<u8>, at: int, n: int) -> Result<int, SymtError> {
    if at + n > bytes.len() {
        Err(SymtError::UnexpectedEnd)
    } else {
        Ok(spelled(bytes.subrange(at, at + n), true))
    }
}

/// The text from `at` on, and where it ends. A negative length is never met.
pub open spec fn text_at(bytes: Seq<u8>, at: int) -> Result<(int, Seq<char>), SymtError> {
    match number_at(bytes, at, 4) {
        Err(e) => Err(e),
        Ok(len) => if len > i32::MAX || at + 4 + len > bytes.len() {
            Err(SymtError::UnexpectedEnd)
        } else if !valid_utf8(bytes.subrange(at + 4, at + 4 + len)) {
            Err(SymtError::BadText)
        } else {
            Ok((at + 4 + len, decode_utf8(bytes.subrange(at + 4, at + 4 + len))))
        },
    }
}

/// The row from `at` on, and where it ends. Of its key the low half counts.
pub open spec fn row_at(bytes: Seq<u8>, at: int) -> Result<(int, RowM), SymtError> {
    match text_at(bytes, at) {
        Err(e) => Err(e),
        Ok((next, symbol)) => match number_at(bytes, next, 8) {
            Err(e) => Err(e),
            Ok(key) => Ok((next + 8, RowM { label: (key % 0x1_0000_0000) as Label, symbol })),
        },
    }
}

/// The table that `n` rows from `at` on make up, and where they end. A later row
/// for a label takes the place of an earlier one.
pub open spec fn rows_at(bytes: Seq<u8>, at: int, n: nat) -> Result<(int, Seq<RowM>), SymtError>
    decreases n,
{
    if n == 0 {
        Ok((at, Seq::empty()))
    } else {
        match rows_at(bytes, at, (n - 1) as nat) {
            Err(e) => Err(e),
            Ok((next, rows)) => match row_at(bytes, next) {
                Err(e) => Err(e),
                Ok((end, row)) => Ok((end, rows_with(rows, row.label, row.symbol))),
            },
        }
    }
}

/// The table that the bytes begin with, and where it ends. The name and the next
/// free key are not kept. A negative number of rows is never met.
pub open spec fn table_at_front(bytes: Seq<u8>) -> Result<(int, Seq<RowM>), SymtError> {
    match number_at(bytes, 0, 4) {
        Err(e) => Err(e),
        Ok(magic) => if magic != SYMBOL_TABLE_MAGIC_NUMBER {
            Err(SymtError::BadMagicNumber)
        } else {
            match text_at(bytes, 4) {
                Err(e) => Err(e),
                Ok((next, _)) => match number_at(bytes, next, 8) {
                    Err(e) => Err(e),
                    Ok(_) => match number_at(bytes, next + 8, 8) {
                        Err(e) => Err(e),
                        Ok(count) => rows_at(bytes, next + 16, count as nat),
                    },
                },
            }
        },
    }
}

/// The bytes of a text.
pub open spec fn text_bytes(text: Seq<char>) -> Seq<u8> {
    le_bytes(encode_utf8(text).len() as int, 4) + encode_utf8(text)
}

/// The bytes of a row.
pub open spec fn row_bytes(row: RowM) -> Seq<u8> {
    text_bytes(row.symbol) + le_bytes(row.label as int, 8)
}

/// The bytes of the rows.
pub open spec fn rows_bytes(rows: Seq<RowM>) -> Seq<u8>
    decreases rows.len(),
{
    if rows.len() == 0 {
        Seq::empty()
    } else {
        rows_bytes(rows.drop_last()) + row_bytes(rows.last())
    }
}

/// The bytes of a table. The name is empty.
pub open spec fn table_bytes(rows: Seq<RowM>) -> Seq<u8> {
    le_bytes(SYMBOL_TABLE_MAGIC_NUMBER as int, 4) + text_bytes(Seq::empty()) + le_bytes(
        available_key(rows),
        8,
    ) + le_bytes(rows.len() as int, 8) + rows_bytes(rows)
}

/// The text that the bytes are, or `None` where they are not valid UTF-8, by
/// `String::from_utf8`, which checks them and takes them over as they are.
#[verifier::external_body]
fn text_from_bytes(bytes: Vec<u8>) -> (r: Option<String>)
    ensures
        match r {
            Some(s) => valid_utf8(bytes@) && s@ == decode_utf8(bytes@),
            None => !valid_utf8(bytes@),
        },
{
    String::from_utf8(bytes).ok()
}

fn read_number(bytes: &[u8], at: usize, n: usize) -> (r: Result<u64, SymtError>)
    requires
        at <= bytes@.len(),
        n <= 8,
    ensures
        match r {
            Ok(x) => number_at(bytes@, at as int, n as int) == Ok::<int, SymtError>(x as int)
                && at + n <= bytes@.len() <= usize::MAX,
            Err(e) => number_at(bytes@, at as int, n as int) == Err::<int, SymtError>(e),
        },
{
    if bytes.len() - at < n {
        Err(SymtError::UnexpectedEnd)
    } else {
        Ok(read_word(bytes, at, n, true))
    }
}

fn read_text(bytes: &[u8], at: usize) -> (r: Result<(usize, String), SymtError>)
    requires
        at <= bytes@.len(),
    ensures
        match r {
            Ok((next, s)) => text_at(bytes@, at as int) == Ok::<(int, Seq<char>), SymtError>(
                (next as int, s@),
            ) && at <= next <= bytes@.len(),
            Err(e) => text_at(bytes@, at as int) == Err::<(int, Seq<char>), SymtError>(e),
        },
{
    let len: u64 = match read_number(bytes, at, 4) {
        Ok(len) => len,
        Err(e) => {
            return Err(e);
        },
    };
    let from: usize = at + 4;
    if len > i32::MAX as u64 || len > (bytes.len() - from) as u64 {
        return Err(SymtError::UnexpectedEnd);
    }
    let next: usize = from + len as usize;
    let mut text: Vec<u8> = Vec::new();
    push_all(&mut text, vstd::slice::slice_subrange(bytes, from, next));
    assert(text@ =~= bytes@.subrange(from as int, next as int));
    match text_from_bytes(text) {
        Some(s) => Ok((next, s)),
        None => Err(SymtError::BadText),
    }
}

fn parse_row_symt(bytes: &[u8], at: usize) -> (r: Result<(usize, Label, String), SymtError>)
    requires
        at <= bytes@.len(),
    ensures
        match r {
            Ok((next, label, symbol)) => row_at(bytes@, at as int) == Ok::<(int, RowM), SymtError>(
                (next as int, RowM { label, symbol: symbol@ }),
            ) && at <= next <= bytes@.len(),
            Err(e) => row_at(bytes@, at as int) == Err::<(int, RowM), SymtError>(e),
        },
{
    let (next, symbol) = match read_text(bytes, at) {
        Ok(t) => t,
        Err(e) => {
            return Err(e);
        },
    };
    let key: u64 = match read_number(bytes, next, 8) {
        Ok(key) => key,
        Err(e) => {
            return Err(e);
        },
    };
    Ok((next + 8, (key % 0x1_0000_0000) as Label, symbol))
}

proof fn lemma_rows_fail(bytes: Seq<u8>, at: int, m: nat, n: nat)
    requires
        m <= n,
    ensures
        rows_at(bytes, at, m) matches Err(e) ==> rows_at(bytes, at, n) == Err::<
            (int, Seq<RowM>),
            SymtError,
        >(e),
    decreases n - m,
{
    if m < n {
        lemma_rows_fail(bytes, at, m, (n - 1) as nat);
    }
}

/// Reads the symbol table that the bytes begin with, and returns what follows it.
///
/// Every symbol keeps the key it has, so that a table with holes is read as it was
/// written.
pub fn parse_symbol_table_bin(bytes: &[u8]) -> (r: Result<(&[u8], SymbolTable), SymtError>)
    ensures
        match r {
            Ok((rest, symt)) => table_at_front(bytes@) == Ok::<(int, Seq<RowM>), SymtError>(
                (bytes@.len() - rest@.len(), symt.model()),
            ) && rest@.len() <= bytes@.len() && rest@ == bytes@.skip(
                bytes@.len() - rest@.len(),
            ),
            Err(e) => table_at_front(bytes@) == Err::<(int, Seq<RowM>), SymtError>(e),
        },
{
    let magic: u64 = match read_number(bytes, 0, 4) {
        Ok(magic) => magic,
        Err(e) => {
            return Err(e);
        },
    };
    if magic != SYMBOL_TABLE_MAGIC_NUMBER as u64 {
        return Err(SymtError::BadMagicNumber);
    }
    let (next, _name) = match read_text(bytes, 4) {
        Ok(t) => t,
        Err(e) => {
            return Err(e);
        },
    };
    let _available_key: u64 = match read_number(bytes, next, 8) {
        Ok(key) => key,
        Err(e) => {
            return Err(e);
        },
    };
    let num_symbols: u64 = match read_number(bytes, next + 8, 8) {
        Ok(count) => count,
        Err(e) => {
            return Err(e);
        },
    };
    let first: usize = next + 16;
    let mut at: usize = first;
    let mut symt = SymbolTable::empty();
    let mut i: u64 = 0;
    while i < num_symbols
        invariant
            i <= num_symbols,
            at <= bytes@.len(),
            table_at_front(bytes@) == rows_at(bytes@, first as int, num_symbols as nat),
            rows_at(bytes@, first as int, i as nat) == Ok::<(int, Seq<RowM>), SymtError>(
                (at as int, symt.model()),
            ),
        decreases num_symbols - i,
    {
        proof {
            lemma_rows_fail(bytes@, first as int, (i + 1) as nat, num_symbols as nat);
        }
        match parse_row_symt(bytes, at) {
            Ok((end, label, symbol)) => {
                symt.add_symbol_with_key(symbol, label);
                at = end;
            },
            Err(e) => {
                return Err(e);
            },
        }
        i += 1;
    }
    let n: usize = bytes.len();
    let rest: &[u8] = vstd::slice::slice_subrange(bytes, at, n);
    assert(rest@ =~= bytes@.skip(at as int));
    Ok((rest, symt))
}

fn write_text(out: &mut Vec<u8>, text: &str)
    ensures
        final(out)@ == old(out)@ + text_bytes(text@),
{
    let ghost before = out@;
    let bytes: &[u8] = text.as_bytes();
    push_le(out, bytes.len() as u64, 4);
    push_all(out, bytes);
    assert(out@ =~= before + text_bytes(text@));
}

/// Appends the bytes of a symbol table.
pub fn write_bin_symt(out: &mut Vec<u8>, symt: &SymbolTable)
    ensures
        final(out)@ == old(out)@ + table_bytes(symt.model()),
{
    let ghost before = out@;
    let ghost rows = symt.model();
    push_le(out, SYMBOL_TABLE_MAGIC_NUMBER as u64, 4);
    proof {
        reveal_strlit("");
        assert(""@ =~= Seq::<char>::empty());
    }
    write_text(out, "");
    push_le(out, symt.len(), 8);
    let n: usize = symt.num_symbols();
    push_le(out, n as u64, 8);
    let ghost head = out@;
    assert(rows.take(0) =~= Seq::empty());
    assert(out@ =~= head + rows_bytes(rows.take(0)));
    for i in 0..n
        invariant
            n == rows.len(),
            rows == symt.model(),
            out@ == head + rows_bytes(rows.take(i as int)),
    {
        let ghost sofar = out@;
        write_text(out, symt.symbol_at(i).as_str());
        push_le(out, symt.label_at(i) as u64, 8);
        proof {
            assert(rows.take(i + 1).drop_last() =~= rows.take(i as int));
            assert(out@ =~= sofar + row_bytes(rows[i as int]));
            assert(out@ =~= head + rows_bytes(rows.take(i + 1)));
        }
    }
    assert(rows.take(n as int) =~= rows);
    assert(out@ =~= before + table_bytes(rows));
}

/// A number that was written is read again.
pub proof fn lemma_number_read(before: Seq<u8>, x: int, n: nat, after: Seq<u8>)
    requires
        0 <= x < span(n),
    ensures
        number_at(before + le_bytes(x, n) + after, before.len() as int, n as int) == Ok::<
            int,
            SymtError,
        >(x),
{
    lemma_le_bytes(x, n);
    let all = before + le_bytes(x, n) + after;
    let at = before.len() as int;
    assert(all.subrange(at, at + n) =~= le_bytes(x, n));
}

/// A text that was written is read again.
pub proof fn lemma_text_read(before: Seq<u8>, text: Seq<char>, after: Seq<u8>)
    requires
        encode_utf8(text).len() <= i32::MAX,
    ensures
        text_at(before + text_bytes(text) + after, before.len() as int) == Ok::<
            (int, Seq<char>),
            SymtError,
        >((before.len() as int + text_bytes(text).len(), text)),
{
    let coded = encode_utf8(text);
    let len = coded.len() as int;
    let all = before + text_bytes(text) + after;
    let at = before.len() as int;
    reveal_with_fuel(span, 5);
    lemma_le_bytes_len(len, 4);
    assert(all =~= before + le_bytes(len, 4) + (coded + after));
    lemma_number_read(before, len, 4, coded + after);
    assert(all.subrange(at + 4, at + 4 + len) =~= coded);
    encode_utf8_valid_utf8(text);
    encode_utf8_decode_utf8(text);
}

/// A row that was written is read again.
proof fn lemma_row_read(before: Seq<u8>, row: RowM, after: Seq<u8>)
    requires
        encode_utf8(row.symbol).len() <= i32::MAX,
    ensures
        row_at(before + row_bytes(row) + after, before.len() as int) == Ok::<(int, RowM), SymtError>(
            (before.len() as int + row_bytes(row).len(), row),
        ),
{
    let key = le_bytes(row.label as int, 8);
    let text = text_bytes(row.symbol);
    let all = before + row_bytes(row) + after;
    lemma_le_bytes_len(row.label as int, 8);
    lemma_span();
    assert(all =~= before + text + (key + after));
    lemma_text_read(before, row.symbol, key + after);
    assert(all =~= (before + text) + key + after);
    lemma_number_read(before + text, row.label as int, 8, after);
}

/// Every symbol is short enough to be written with its length.
pub open spec fn symbols_fit(rows: Seq<RowM>) -> bool {
    forall|i: int|
        0 <= i < rows.len() ==> encode_utf8((#[trigger] rows[i]).symbol).len() <= i32::MAX
}

/// Rows that were written are read again.
proof fn lemma_rows_read(before: Seq<u8>, rows: Seq<RowM>, after: Seq<u8>)
    requires
        ascending(rows),
        symbols_fit(rows),
    ensures
        rows_at(before + rows_bytes(rows) + after, before.len() as int, rows.len()) == Ok::<
            (int, Seq<RowM>),
            SymtError,
        >((before.len() as int + rows_bytes(rows).len(), rows)),
    decreases rows.len(),
{
    if rows.len() == 0 {
        assert(rows =~= Seq::empty());
    } else {
        let init = rows.drop_last();
        let last = rows.last();
        let all = before + rows_bytes(rows) + after;
        assert forall|i: int, j: int|
            #![trigger init[i], init[j]]
            0 <= i < j < init.len() implies init[i].label < init[j].label by {
            assert(rows[i].label < rows[j].label);
        }
        assert forall|i: int| 0 <= i < init.len() implies encode_utf8(
            (#[trigger] init[i]).symbol,
        ).len() <= i32::MAX by {
            assert(rows[i] == init[i]);
        }
        assert(all =~= before + rows_bytes(init) + (row_bytes(last) + after));
        lemma_rows_read(before, init, row_bytes(last) + after);
        assert(all =~= (before + rows_bytes(init)) + row_bytes(last) + after);
        assert(rows[rows.len() - 1] == last);
        lemma_row_read(before + rows_bytes(init), last, after);
        assert forall|i: int| 0 <= i < init.len() implies (#[trigger] init[i]).label
            < last.label by {
            assert(rows[i].label < rows[rows.len() - 1].label);
        }
        lemma_rows_with_last(init, last.label, last.symbol);
        assert(rows =~= init.push(last));
    }
}

/// The bytes of a table that has a name and says some next free key.
pub open spec fn named_table_bytes(
    name: Seq<char>,
    key: Seq<u8>,
    rows: Seq<RowM>,
) -> Seq<u8> {
    le_bytes(SYMBOL_TABLE_MAGIC_NUMBER as int, 4) + text_bytes(name) + key + le_bytes(
        rows.len() as int,
        8,
    ) + rows_bytes(rows)
}

/// The rows as they stand in a file, entered one after the other into a table: a label
/// has the symbol of the last row with it, and no other label has a symbol.
pub open spec fn entered(rows: Seq<RowM>, table: Seq<RowM>) -> bool {
    &&& ascending(table)
    &&& forall|i: int|
        0 <= i < rows.len() && (forall|j: int|
            i < j < rows.len() ==> (#[trigger] rows[j]).label != rows[i].label)
            ==> table.contains(#[trigger] rows[i])
    &&& forall|k: int|
        0 <= k < table.len() ==> exists|i: int|
            0 <= i < rows.len() && #[trigger] rows[i] == #[trigger] table[k]
}

/// The table of a list of rows in any order.
proof fn lemma_entered_push(rows: Seq<RowM>, table: Seq<RowM>)
    requires
        rows.len() > 0,
        entered(rows.drop_last(), table),
    ensures
        entered(rows, rows_with(table, rows.last().label, rows.last().symbol)),
{
    let init = rows.drop_last();
    let last = rows.last();
    let after = rows_with(table, last.label, last.symbol);
    lemma_rows_with_ascending(table, last.label, last.symbol);
    law_rows_with(table, last.label, last.symbol);
    assert(rows[rows.len() - 1] == last);
    assert forall|i: int|
        0 <= i < rows.len() && (forall|j: int|
            i < j < rows.len() ==> (#[trigger] rows[j]).label != rows[i].label) implies after.contains(
        #[trigger] rows[i],
    ) by {
        if i < init.len() {
            assert(init[i] == rows[i]);
            assert forall|j: int| i < j < init.len() implies (#[trigger] init[j]).label
                != init[i].label by {
                assert(init[j] == rows[j]);
            }
            assert(rows[rows.len() - 1].label != rows[i].label);
            assert(table.contains(init[i]));
        }
    }
    assert forall|k: int| 0 <= k < after.len() implies exists|i: int|
        0 <= i < rows.len() && #[trigger] rows[i] == #[trigger] after[k] by {
        assert(after.contains(after[k]));
        if after[k] == last {
            assert(rows[rows.len() - 1] == after[k]);
        } else {
            assert(table.contains(after[k]));
            let m = choose|m: int| 0 <= m < table.len() && table[m] == after[k];
            let i = choose|i: int| 0 <= i < init.len() && #[trigger] init[i] == #[trigger] table[m];
            assert(rows[i] == after[k]);
        }
    }
}

/// Rows in any order are read as the table that they make up.
proof fn lemma_any_rows_read(before: Seq<u8>, rows: Seq<RowM>, after: Seq<u8>) -> (table: Seq<RowM>)
    requires
        symbols_fit(rows),
    ensures
        rows_at(before + rows_bytes(rows) + after, before.len() as int, rows.len()) == Ok::<
            (int, Seq<RowM>),
            SymtError,
        >((before.len() as int + rows_bytes(rows).len(), table)),
        entered(rows, table),
    decreases rows.len(),
{
    if rows.len() == 0 {
        assert(entered(rows, Seq::empty()));
        Seq::empty()
    } else {
        let init = rows.drop_last();
        let last = rows.last();
        let all = before + rows_bytes(rows) + after;
        assert forall|i: int| 0 <= i < init.len() implies encode_utf8(
            (#[trigger] init[i]).symbol,
        ).len() <= i32::MAX by {
            assert(rows[i] == init[i]);
        }
        assert(all =~= before + rows_bytes(init) + (row_bytes(last) + after));
        let table = lemma_any_rows_read(before, init, row_bytes(last) + after);
        assert(all =~= (before + rows_bytes(init)) + row_bytes(last) + after);
        assert(rows[rows.len() - 1] == last);
        lemma_row_read(before + rows_bytes(init), last, after);
        lemma_entered_push(rows, table);
        rows_with(table, last.label, last.symbol)
    }
}

/// A table is read whatever its name and its next free key are, whatever order its rows
/// stand in, and whatever follows it: every label has the symbol of the last row with
/// it, no other label has one, and what follows is left untouched.
pub proof fn law_named_symbol_table_is_read(
    name: Seq<char>,
    key: Seq<u8>,
    rows: Seq<RowM>,
    after: Seq<u8>,
)
    requires
        encode_utf8(name).len() <= i32::MAX,
        key.len() == 8,
        symbols_fit(rows),
        rows.len() <= u64::MAX,
    ensures
        ({
            let bytes = named_table_bytes(name, key, rows);
            &&& table_at_front(bytes + after) matches Ok((end, table)) && end == bytes.len()
                && entered(rows, table) && (ascending(rows) ==> table == rows)
            &&& (bytes + after).skip(bytes.len() as int) == after
        }),
{
    let magic = le_bytes(SYMBOL_TABLE_MAGIC_NUMBER as int, 4);
    let title = text_bytes(name);
    let count = le_bytes(rows.len() as int, 8);
    let body = rows_bytes(rows);
    let bytes = named_table_bytes(name, key, rows);
    let all = bytes + after;
    lemma_span();
    reveal_with_fuel(span, 5);
    lemma_le_bytes_len(SYMBOL_TABLE_MAGIC_NUMBER as int, 4);
    lemma_le_bytes_len(rows.len() as int, 8);
    lemma_le_bytes_len(encode_utf8(name).len() as int, 4);
    assert(all =~= Seq::<u8>::empty() + magic + (title + key + count + body + after));
    lemma_number_read(
        Seq::empty(),
        SYMBOL_TABLE_MAGIC_NUMBER as int,
        4,
        title + key + count + body + after,
    );
    assert(all =~= magic + title + (key + count + body + after));
    lemma_text_read(magic, name, key + count + body + after);
    assert(all =~= (magic + title + key) + count + (body + after));
    lemma_number_read(magic + title + key, rows.len() as int, 8, body + after);
    assert(all =~= (magic + title + key + count) + body + after);
    let table = lemma_any_rows_read(magic + title + key + count, rows, after);
    if ascending(rows) {
        lemma_rows_read(magic + title + key + count, rows, after);
    }
    assert(all.skip(bytes.len() as int) =~= after);
}

/// A table that was written is read again as it was, whatever follows it, and what
/// follows it is left untouched.
pub proof fn law_symbol_table_round_trips(rows: Seq<RowM>, after: Seq<u8>)
    requires
        ascending(rows),
        symbols_fit(rows),
        rows.len() <= u64::MAX,
    ensures
        table_at_front(table_bytes(rows) + after) == Ok::<(int, Seq<RowM>), SymtError>(
            (table_bytes(rows).len() as int, rows),
        ),
        (table_bytes(rows) + after).skip(table_bytes(rows).len() as int) == after,
{
    let key = le_bytes(available_key(rows), 8);
    lemma_span();
    lemma_le_bytes_len(available_key(rows), 8);
    lemma_le_bytes_len(0, 4);
    assert(encode_utf8(Seq::empty()).len() == 0);
    law_named_symbol_table_is_read(Seq::empty(), key, rows, after);
}

/// Reading the beginning of some bytes gives what reading all of them gives, as far as
/// that, or says that they end too early.
pub proof fn lemma_text_of_prefix(bytes: Seq<u8>, n: int, at: int)
    requires
        0 <= at,
        0 <= n <= bytes.len(),
    ensures
        text_at(bytes.take(n), at) == Err::<(int, Seq<char>), SymtError>(SymtError::UnexpectedEnd)
            || text_at(bytes.take(n), at) == text_at(bytes, at),
        text_at(bytes.take(n), at) matches Ok((end, _)) ==> at <= end <= n,
{
    let part = bytes.take(n);
    if at + 4 <= n {
        assert(part.subrange(at, at + 4) =~= bytes.subrange(at, at + 4));
        let len = spelled(bytes.subrange(at, at + 4), true);
        if 0 <= len && at + 4 + len <= n {
            assert(part.subrange(at + 4, at + 4 + len) =~= bytes.subrange(at + 4, at + 4 + len));
        }
        lemma_spelled_bound(bytes.subrange(at, at + 4));
    }
}

proof fn lemma_rows_of_prefix(bytes: Seq<u8>, n: int, at: int, count: nat)
    requires
        0 <= at <= n,
        0 <= n <= bytes.len(),
    ensures
        rows_at(bytes.take(n), at, count) == Err::<(int, Seq<RowM>), SymtError>(
            SymtError::UnexpectedEnd,
        ) || rows_at(bytes.take(n), at, count) == rows_at(bytes, at, count),
        rows_at(bytes.take(n), at, count) matches Ok((end, _)) ==> at <= end <= n,
    decreases count,
{
    if count > 0 {
        lemma_rows_of_prefix(bytes, n, at, (count - 1) as nat);
        if let Ok((next, _)) = rows_at(bytes.take(n), at, (count - 1) as nat) {
            lemma_text_of_prefix(bytes, n, next);
            if let Ok((mid, _)) = text_at(bytes.take(n), next) {
                if mid + 8 <= n {
                    assert(bytes.take(n).subrange(mid, mid + 8) =~= bytes.subrange(mid, mid + 8));
                }
            }
        }
    }
}

/// A table that is cut off anywhere is refused: the bytes end too early.
pub proof fn law_cut_symbol_table_is_refused(
    name: Seq<char>,
    key: Seq<u8>,
    rows: Seq<RowM>,
    n: int,
)
    requires
        encode_utf8(name).len() <= i32::MAX,
        key.len() == 8,
        symbols_fit(rows),
        rows.len() <= u64::MAX,
        0 <= n < named_table_bytes(name, key, rows).len(),
    ensures
        table_at_front(named_table_bytes(name, key, rows).take(n)) == Err::<
            (int, Seq<RowM>),
            SymtError,
        >(SymtError::UnexpectedEnd),
{
    let bytes = named_table_bytes(name, key, rows);
    law_named_symbol_table_is_read(name, key, rows, Seq::empty());
    assert(bytes + Seq::empty() =~= bytes);
    let part = bytes.take(n);
    if 4 <= n {
        assert(part.subrange(0, 4) =~= bytes.subrange(0, 4));
        lemma_text_of_prefix(bytes, n, 4);
        if let Ok((next, _)) = text_at(part, 4) {
            if next + 16 <= n {
                assert(part.subrange(next + 8, next + 16) =~= bytes.subrange(next + 8, next + 16));
                let count = spelled(bytes.subrange(next + 8, next + 16), true);
                lemma_rows_of_prefix(bytes, n, next + 16, count as nat);
            }
        }
    }
}

/// Bytes that begin with another number are no table.
pub proof fn law_other_magic_number_is_refused(magic: u32, after: Seq<u8>)
    requires
        magic != SYMBOL_TABLE_MAGIC_NUMBER,
    ensures
        table_at_front(le_bytes(magic as int, 4) + after) == Err::<(int, Seq<RowM>), SymtError>(
            SymtError::BadMagicNumber,
        ),
{
    reveal_with_fuel(span, 5);
    lemma_number_read(Seq::empty(), magic as int, 4, after);
    assert(Seq::<u8>::empty() + le_bytes(magic as int, 4) + after =~= le_bytes(magic as int, 4)
        + after);
}

/// A table of which a symbol is no text is refused, if the rows before it can be read.
pub proof fn law_bad_text_is_refused(
    name: Seq<char>,
    key: Seq<u8>,
    rows: Seq<RowM>,
    more: nat,
    text: Seq<u8>,
    after: Seq<u8>,
)
    requires
        encode_utf8(name).len() <= i32::MAX,
        key.len() == 8,
        symbols_fit(rows),
        rows.len() + 1 + more <= u64::MAX,
        text.len() <= i32::MAX,
        !valid_utf8(text),
    ensures
        ({
            let head = le_bytes(SYMBOL_TABLE_MAGIC_NUMBER as int, 4) + text_bytes(name) + key
                + le_bytes((rows.len() + 1 + more) as int, 8) + rows_bytes(rows);
            table_at_front(head + le_bytes(text.len() as int, 4) + text + after) == Err::<
                (int, Seq<RowM>),
                SymtError,
            >(SymtError::BadText)
        }),
{
    let magic = le_bytes(SYMBOL_TABLE_MAGIC_NUMBER as int, 4);
    let title = text_bytes(name);
    let total = rows.len() + 1 + more;
    let count = le_bytes(total as int, 8);
    let body = rows_bytes(rows);
    let len = le_bytes(text.len() as int, 4);
    let rest = len + text + after;
    let all = magic + title + key + count + body + len + text + after;
    lemma_span();
    reveal_with_fuel(span, 5);
    lemma_le_bytes_len(SYMBOL_TABLE_MAGIC_NUMBER as int, 4);
    lemma_le_bytes_len(total as int, 8);
    lemma_le_bytes_len(encode_utf8(name).len() as int, 4);
    lemma_le_bytes_len(text.len() as int, 4);
    assert(all =~= Seq::<u8>::empty() + magic + (title + key + count + body + rest));
    lemma_number_read(
        Seq::empty(),
        SYMBOL_TABLE_MAGIC_NUMBER as int,
        4,
        title + key + count + body + rest,
    );
    assert(all =~= magic + title + (key + count + body + rest));
    lemma_text_read(magic, name, key + count + body + rest);
    assert(all =~= (magic + title + key) + count + (body + rest));
    lemma_number_read(magic + title + key, total as int, 8, body + rest);
    let first = magic + title + key + count;
    assert(all =~= first + body + rest);
    let table = lemma_any_rows_read(first, rows, rest);
    let at = (first.len() + body.len()) as int;
    assert(all =~= (first + body) + len + (text + after));
    lemma_number_read(first + body, text.len() as int, 4, text + after);
    assert(all.subrange(at + 4, at + 4 + text.len()) =~= text);
    lemma_rows_fail(all, first.len() as int, (rows.len() + 1) as nat, total);
}

} // verus!
