use graphio_extractor::decode::{
    extract_payload, read_allowed_effects, read_int, read_line, read_localised_str,
    read_metadata, read_optional_localised_str, read_ratio, read_str, read_usize, strip_cr, Lines,
};
use graphio_extractor::symbols::SymbolTable;
use graphio_extractor::Error;

fn lines_of(parts: &[&[u8]]) -> Lines {
    Lines::new(parts.iter().map(|p| p.to_vec()).collect())
}

#[test]
fn strip_cr_collapses_pairs() {
    assert_eq!(strip_cr(&b"a\r\nb".to_vec()), b"a\nb".to_vec());
    assert_eq!(strip_cr(&b"\r\n\r\n".to_vec()), b"\n\n".to_vec());
    assert_eq!(strip_cr(&b"a\rb".to_vec()), b"a\rb".to_vec());
    assert_eq!(strip_cr(&b"tail\r".to_vec()), b"tail\r".to_vec());
}

#[test]
fn extract_payload_finds_framed_lines() {
    let raw = b"noise\x01junk\x02hello\x03between\x02world\x03tail\x04after".to_vec();
    let lines = extract_payload(&raw).unwrap();
    assert_eq!(lines, vec![b"hello".to_vec(), b"world".to_vec()]);
}

#[test]
fn extract_payload_drops_unterminated_fragment() {
    let raw = b"\x01\x02complete\x03\x02dangling\x04".to_vec();
    let lines = extract_payload(&raw).unwrap();
    assert_eq!(lines, vec![b"complete".to_vec()]);
}

#[test]
fn extract_payload_requires_both_sentinels() {
    assert_eq!(extract_payload(&b"\x02x\x03\x04".to_vec()), Err(Error::MalformedRecord));
    assert_eq!(extract_payload(&b"\x01\x02x\x03".to_vec()), Err(Error::MalformedRecord));
    assert_eq!(extract_payload(&b"no markers at all".to_vec()), Err(Error::MalformedRecord));
}

#[test]
fn extract_payload_rejects_inverted_sentinels() {
    assert_eq!(extract_payload(&b"\x04middle\x01".to_vec()), Err(Error::MalformedRecord));
}

#[test]
fn extract_payload_uses_last_end_sentinel() {
    let raw = b"\x01\x02a\x03\x04\x02b\x03\x04".to_vec();
    let lines = extract_payload(&raw).unwrap();
    assert_eq!(lines, vec![b"a".to_vec(), b"b".to_vec()]);
}

#[test]
fn read_line_consumes_in_order() {
    let mut p = lines_of(&[b"one", b"two"]);
    assert_eq!(read_line(&mut p).unwrap(), b"one".to_vec());
    assert_eq!(read_line(&mut p).unwrap(), b"two".to_vec());
    assert_eq!(read_line(&mut p), Err(Error::MalformedRecord));
}

#[test]
fn read_str_interns_the_line() {
    let mut p = lines_of(&[b"iron-plate", b"iron-plate"]);
    let mut table = SymbolTable::new();
    let a = read_str(&mut p, &mut table).unwrap();
    let b = read_str(&mut p, &mut table).unwrap();
    assert_eq!(a, b);
    assert_eq!(table.resolve(a), b"iron-plate");
}

#[test]
fn read_usize_parses_counts() {
    let mut p = lines_of(&[b"42", b"0", b"x", b"99999999999999999999999"]);
    assert_eq!(read_usize(&mut p).unwrap(), 42);
    assert_eq!(read_usize(&mut p).unwrap(), 0);
    assert_eq!(read_usize(&mut p), Err(Error::NumericParseError));
    assert_eq!(read_usize(&mut p), Err(Error::NumericParseError));
}

#[test]
fn read_int_and_ratio_delegate() {
    let mut p = lines_of(&[b"-12", b"1.5"]);
    let v = read_int(&mut p).unwrap();
    assert!(v.negative);
    assert_eq!(v.magnitude, vec![1, 2]);
    let r = read_ratio(&mut p).unwrap();
    assert_eq!(r.numer, vec![3]);
    assert_eq!(r.denom, 2);
}

#[test]
fn read_allowed_effects_reads_four_bits() {
    let mut p = lines_of(&[b"1010", b"110", b"10a0"]);
    let e = read_allowed_effects(&mut p).unwrap();
    assert!(e.energy && !e.speed && e.productivity && !e.pollution);
    assert_eq!(read_allowed_effects(&mut p), Err(Error::MalformedRecord));
    assert_eq!(read_allowed_effects(&mut p), Err(Error::MalformedRecord));
}

#[test]
fn localised_string_resolves_value() {
    let mut p = lines_of(&[b"item-name.iron\x1fIron plate"]);
    let mut table = SymbolTable::new();
    let sym = read_localised_str(&mut p, &mut table).unwrap();
    assert_eq!(table.resolve(sym), b"Iron plate");
}

#[test]
fn localised_string_falls_back_to_key() {
    // The echo shape: length is key length + 15, fixed prefix, quote.
    let mut p = lines_of(&[b"abc\x1fUnknown key: \"abc\""]);
    let mut table = SymbolTable::new();
    let sym = read_localised_str(&mut p, &mut table).unwrap();
    assert_eq!(table.resolve(sym), b"abc");
}

#[test]
fn optional_localised_string_absent_on_fallback() {
    let mut p = lines_of(&[b"abc\x1fUnknown key: \"abc\"", b"k\x1fSome text"]);
    let mut table = SymbolTable::new();
    assert_eq!(read_optional_localised_str(&mut p, &mut table).unwrap(), None);
    let sym = read_optional_localised_str(&mut p, &mut table).unwrap().unwrap();
    assert_eq!(table.resolve(sym), b"Some text");
}

#[test]
fn localised_string_rejects_wrong_part_counts() {
    let mut p = lines_of(&[b"no separator", b"a\x1fb\x1fc"]);
    let mut table = SymbolTable::new();
    assert_eq!(read_localised_str(&mut p, &mut table), Err(Error::MalformedRecord));
    assert_eq!(read_localised_str(&mut p, &mut table), Err(Error::MalformedRecord));
}

#[test]
fn metadata_reads_name_and_description() {
    let mut p = lines_of(&[b"m\x1fMachine", b"d\x1fA machine"]);
    let mut table = SymbolTable::new();
    let meta = read_metadata(&mut p, &mut table).unwrap();
    assert_eq!(table.resolve(meta.localised_name), b"Machine");
    assert_eq!(table.resolve(meta.localised_description.unwrap()), b"A machine");
    assert!(meta.icon.is_none());
}

#[test]
fn echoed_value_of_other_key_is_not_a_fallback() {
    // Same prefix and quote, but the length does not match the key.
    let mut p = lines_of(&[b"longer-key\x1fUnknown key: \"abc\""]);
    let mut table = SymbolTable::new();
    let sym = read_localised_str(&mut p, &mut table).unwrap();
    assert_eq!(table.resolve(sym), b"Unknown key: \"abc\"");
}
