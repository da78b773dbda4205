//! How the bytes of a symbol table are laid out.

use crate::bytes::{le_bytes, lemma_le_bytes_len, lemma_span, lemma_spelled_bound, span};
use crate::fst::symbol_table::{available_key, RowM};
use crate::parsers::bin_symt::{
    lemma_number_read, lemma_text_of_prefix, lemma_text_read, number_at, row_at, rows_at,
    rows_bytes, table_at_front, table_bytes, text_at, text_bytes, SymtError,
    SYMBOL_TABLE_MAGIC_NUMBER,
};
use vstd::arithmetic::div_mod::lemma_div_denominator;
use vstd::arithmetic::power::{lemma_pow_positive, pow};
use vstd::prelude::*;
use vstd::utf8::encode_utf8;

verus! {

/// The byte at a place of a number is the digit of the number that stands there in base
/// 256, counted from the lowest.
pub proof fn law_numbers_have_low_byte_first(x: int, n: nat, i: nat)
    requires
        0 <= x,
        i < n,
    ensures
        le_bytes(x, n)[i as int] == (x / pow(256, i)) % 256,
    decreases n,
{
    reveal(pow);
    let rest = le_bytes(x / 256, (n - 1) as nat);
    lemma_le_bytes_len(x / 256, (n - 1) as nat);
    if i > 0 {
        let j = (i - 1) as nat;
        assert(le_bytes(x, n)[i as int] == rest[j as int]);
        law_numbers_have_low_byte_first(x / 256, (n - 1) as nat, j);
        lemma_pow_positive(256, j);
        lemma_div_denominator(x, 256, pow(256, j));
    } else {
        assert(pow(256, 0) == 1);
        assert(x / 1 == x);
    }
}

/// A table that is written begins with the magic number and an empty name, whatever its
/// rows are; then come the next free key and how many rows there are.
pub proof fn law_written_table_begins(rows: Seq<RowM>)
    requires
        rows.len() <= u64::MAX,
    ensures
        table_bytes(rows).take(8) == seq![0x74u8, 0xfb, 0xb2, 0x7e, 0, 0, 0, 0],
        0 <= available_key(rows) <= u64::MAX ==> number_at(table_bytes(rows), 8, 8) == Ok::<
            int,
            SymtError,
        >(available_key(rows)),
        number_at(table_bytes(rows), 16, 8) == Ok::<int, SymtError>(rows.len() as int),
        table_bytes(rows).skip(24) == rows_bytes(rows),
{
    let magic = le_bytes(SYMBOL_TABLE_MAGIC_NUMBER as int, 4);
    let name = text_bytes(Seq::empty());
    let key = le_bytes(available_key(rows), 8);
    let count = le_bytes(rows.len() as int, 8);
    let body = rows_bytes(rows);
    let all = table_bytes(rows);
    assert(encode_utf8(Seq::empty()).len() == 0);
    reveal_with_fuel(le_bytes, 5);
    assert(magic =~= seq![0x74u8, 0xfb, 0xb2, 0x7e]);
    assert(name =~= seq![0u8, 0, 0, 0]);
    lemma_le_bytes_len(available_key(rows), 8);
    lemma_le_bytes_len(rows.len() as int, 8);
    lemma_span();
    assert(all.take(8) =~= seq![0x74u8, 0xfb, 0xb2, 0x7e, 0, 0, 0, 0]);
    assert(all =~= (magic + name) + key + (count + body));
    if 0 <= available_key(rows) <= u64::MAX {
        lemma_number_read(magic + name, available_key(rows), 8, count + body);
    }
    assert(all =~= (magic + name + key) + count + body);
    lemma_number_read(magic + name + key, rows.len() as int, 8, body);
    assert(all.skip(24) =~= body);
}

/// The rows are written in their order, each as the length of its symbol in four bytes,
/// its symbol, and its label in eight bytes.
pub proof fn law_rows_are_written_in_order(rows: Seq<RowM>, row: RowM)
    ensures
        ({
            let symbol = encode_utf8(row.symbol);
            rows_bytes(rows.push(row)) == rows_bytes(rows) + (le_bytes(symbol.len() as int, 4)
                + symbol + le_bytes(row.label as int, 8))
        }),
{
    assert(rows.push(row).drop_last() =~= rows);
    assert(rows.push(row).last() == row);
}

/// Of the key of a row only the low half counts: whatever the high half is, the row is
/// read, and has the label that the low half says.
pub proof fn law_low_half_of_key_counts(
    before: Seq<u8>,
    symbol: Seq<char>,
    low: u32,
    high: u32,
    after: Seq<u8>,
)
    requires
        encode_utf8(symbol).len() <= i32::MAX,
    ensures
        ({
            let key = high * 0x1_0000_0000 + low;
            let row = text_bytes(symbol) + le_bytes(key, 8);
            row_at(before + row + after, before.len() as int) == Ok::<(int, RowM), SymtError>(
                (before.len() as int + row.len(), RowM { label: low, symbol }),
            )
        }),
{
    let key = high * 0x1_0000_0000 + low;
    let text = text_bytes(symbol);
    let bytes = le_bytes(key, 8);
    let all = before + (text + bytes) + after;
    lemma_span();
    lemma_le_bytes_len(key, 8);
    assert(all =~= before + text + (bytes + after));
    lemma_text_read(before, symbol, bytes + after);
    assert(all =~= (before + text) + bytes + after);
    lemma_number_read(before + text, key, 8, after);
    assert(key % 0x1_0000_0000 == low);
}

/// Rows that can be read take at least twelve bytes each, and end where the bytes end at
/// the latest. So more rows than there is room for are refused.
pub proof fn law_rows_take_room(bytes: Seq<u8>, at: int, n: nat)
    requires
        0 <= at <= bytes.len(),
    ensures
        rows_at(bytes, at, n) matches Ok((end, _)) ==> at + 12 * n <= end <= bytes.len(),
        at + 12 * n > bytes.len() ==> rows_at(bytes, at, n) is Err,
    decreases n,
{
    if n > 0 {
        law_rows_take_room(bytes, at, (n - 1) as nat);
        if let Ok((next, _)) = rows_at(bytes, at, (n - 1) as nat) {
            assert(bytes.take(bytes.len() as int) =~= bytes);
            lemma_text_of_prefix(bytes, bytes.len() as int, next);
            if let Ok((mid, _)) = text_at(bytes, next) {
                lemma_spelled_bound(bytes.subrange(next, next + 4));
            }
        }
    }
}

/// A name whose length, with its sign bit set, would be negative is refused, whatever
/// follows.
pub proof fn law_negative_length_is_refused(len: u32, after: Seq<u8>)
    requires
        len > i32::MAX,
    ensures
        table_at_front(
            le_bytes(SYMBOL_TABLE_MAGIC_NUMBER as int, 4) + le_bytes(len as int, 4) + after,
        ) == Err::<(int, Seq<RowM>), SymtError>(SymtError::UnexpectedEnd),
{
    let magic = le_bytes(SYMBOL_TABLE_MAGIC_NUMBER as int, 4);
    let size = le_bytes(len as int, 4);
    let all = magic + size + after;
    reveal_with_fuel(span, 5);
    lemma_le_bytes_len(SYMBOL_TABLE_MAGIC_NUMBER as int, 4);
    assert(all =~= Seq::<u8>::empty() + magic + (size + after));
    lemma_number_read(Seq::empty(), SYMBOL_TABLE_MAGIC_NUMBER as int, 4, size + after);
    lemma_number_read(magic, len as int, 4, after);
}

} // verus!
