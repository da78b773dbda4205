//! Symbol tables in their binary form, the hash function, and error texts.

use rustfst::error::FstError;
use rustfst::fst::symbol_table::SymbolTable;
use rustfst::fx_hasher::FxHasher;
use rustfst::parsers::bin_symt::{parse_symbol_table_bin, write_bin_symt, SymtError};
use std::hash::Hasher;

fn sparse() -> SymbolTable {
    let mut symt = SymbolTable::empty();
    symt.add_symbol_with_key("<eps>".to_string(), 0);
    symt.add_symbol_with_key("a".to_string(), 1);
    symt.add_symbol_with_key("b".to_string(), 2);
    symt.add_symbol_with_key("g".to_string(), 4); // hole at label 3
    symt
}

// A symbol table with a hole (a dropped label) must round-trip through write/parse
// without the row count desyncing the reader.
#[test]
fn sparse_symbol_table_round_trips_without_overread() {
    let symt = sparse();

    let mut buf = Vec::new();
    write_bin_symt(&mut buf, &symt);
    // Bytes that follow the table in a real (multi-section) stream.
    let sentinel = [0xDE_u8, 0xAD, 0xBE, 0xEF];
    buf.extend_from_slice(&sentinel);

    let (rest, parsed) = parse_symbol_table_bin(&buf).unwrap();
    // The parser must stop exactly at the table boundary, leaving the trailing
    // bytes untouched — not consume into them.
    assert_eq!(rest, &sentinel);

    // The sparse label is preserved verbatim (transitions reference it).
    assert_eq!(parsed.get_label(&"g".to_string()), Some(4));
    assert_eq!(parsed.get_symbol(4).map(|s| s.as_str()), Some("g"));
    assert_eq!(parsed.get_label(&"a".to_string()), Some(1));
    assert_eq!(parsed.get_symbol(3), None);
    assert_eq!(parsed.len(), 5);
    assert_eq!(parsed.num_symbols(), 4);
}

#[test]
fn the_binary_form_is_fixed() {
    let mut symt = SymbolTable::empty();
    symt.add_symbol_with_key("\u{e9}".to_string(), 7);
    let mut buf = Vec::new();
    write_bin_symt(&mut buf, &symt);
    let mut expected = 2_125_658_996_u32.to_le_bytes().to_vec();
    expected.extend_from_slice(&[0, 0, 0, 0]); // no name
    expected.extend_from_slice(&8_u64.to_le_bytes()); // the next free key
    expected.extend_from_slice(&1_u64.to_le_bytes()); // one row
    expected.extend_from_slice(&[2, 0, 0, 0, 0xc3, 0xa9]);
    expected.extend_from_slice(&7_u64.to_le_bytes());
    assert_eq!(buf, expected);
}

#[test]
fn later_rows_replace_earlier_ones() {
    let mut symt = sparse();
    symt.add_symbol_with_key("c".to_string(), 1);
    assert_eq!(symt.num_symbols(), 4);
    assert_eq!(symt.get_label(&"a".to_string()), None);
    assert_eq!(symt.get_symbol(1).map(|s| s.as_str()), Some("c"));
    symt.add_symbol_with_key("d".to_string(), 3);
    assert_eq!(symt.label_at(3), 3);
    assert_eq!(symt.symbol_at(3), "d");
}

#[test]
fn broken_tables_are_rejected() {
    let mut buf = Vec::new();
    write_bin_symt(&mut buf, &sparse());
    for cut in [0, 3, 7, 20, buf.len() - 1] {
        assert!(matches!(
            parse_symbol_table_bin(&buf[..cut]),
            Err(SymtError::UnexpectedEnd)
        ));
    }
    let mut other = buf.clone();
    other[0] ^= 1;
    assert!(matches!(parse_symbol_table_bin(&other), Err(SymtError::BadMagicNumber)));
    // The text of the first row begins behind its length.
    let mut other = buf.clone();
    other[28] = 0xff;
    assert!(matches!(parse_symbol_table_bin(&other), Err(SymtError::BadText)));
}

#[test]
fn words_are_hashed_one_by_one() {
    let mut hasher = FxHasher::default();
    assert_eq!(hasher.finish(), 0);
    hasher.write_u8(1);
    assert_eq!(hasher.finish(), 0x517c_c1b7_2722_0a95);
    hasher.write_u16(2);
    assert_eq!(hasher.finish(), 0x6a4b_e67f_f98f_abc8);
    hasher.write_u32(3);
    assert_eq!(hasher.finish(), 0xfdcb_2688_e076_0126);
    let mut other = FxHasher::default();
    other.write_u64(1);
    other.write_usize(2);
    other.write_u64(3);
    assert_eq!(other.finish(), hasher.finish());
}

#[test]
fn bytes_are_hashed_in_the_largest_words() {
    let bytes: Vec<u8> = (1..16).collect();
    let mut little = FxHasher::default();
    little.write_in_order(&bytes, true);
    assert_eq!(little.finish(), 0x6e8b_5d1d_34f0_8a49);
    let mut big = FxHasher::default();
    big.write_in_order(&bytes, false);
    assert_eq!(big.finish(), 0xcd06_90eb_e307_eb3a);
    let mut native = FxHasher::default();
    native.write(&bytes);
    let expected = if u16::from_ne_bytes([1, 0]) == 1 { little } else { big };
    assert_eq!(native.finish(), expected.finish());
}

#[test]
fn hashing_goes_on_at_the_end_of_a_word() {
    let bytes: Vec<u8> = (1..24).collect();
    for cut in [0, 8, 16] {
        let (a, b) = bytes.split_at(cut);
        let mut whole = FxHasher::default();
        whole.write(&bytes);
        let mut parts = FxHasher::default();
        parts.write(a);
        parts.write(b);
        parts.write(&[]);
        assert_eq!(parts.finish(), whole.finish());
    }
    // Within a word the bytes are cut into other words.
    let mut parts = FxHasher::default();
    parts.write(&bytes[..4]);
    parts.write(&bytes[4..]);
    let mut whole = FxHasher::default();
    whole.write(&bytes);
    assert_ne!(parts.finish(), whole.finish());
    // Fifteen bytes are a word each of eight, four, two and one.
    let mut words = FxHasher::default();
    words.write_u64(0x0807_0605_0403_0201);
    words.write_u32(0x0c0b_0a09);
    words.write_u16(0x0e0d);
    words.write_u8(0x0f);
    let mut little = FxHasher::default();
    little.write_in_order(&bytes[..15], true);
    assert_eq!(little.finish(), words.finish());
}

#[test]
fn numbers_in_texts_are_decimal() {
    let text = |limit| FstError::StateBudgetExceeded { limit }.message();
    assert_eq!(
        text(0),
        "compute_bounded: state budget of 0 exceeded (lazy FST did not converge)"
    );
    assert_eq!(
        text(1_000_000),
        "compute_bounded: state budget of 1000000 exceeded (lazy FST did not converge)"
    );
    assert_eq!(
        FstError::NonFunctional.message(),
        "unequal strings were summed: non-functional transducer"
    );
}
