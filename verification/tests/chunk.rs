use key_stats::chunk::{compute, ParseError};
use key_stats::stats::Stats;

fn parse(text: &[u8]) -> Option<u64> {
    fast_float::parse::<f64, _>(text).ok().map(f64::to_bits)
}

fn plus(a: u64, b: u64) -> u64 {
    (f64::from_bits(a) + f64::from_bits(b)).to_bits()
}

fn bits(value: f64) -> u64 {
    value.to_bits()
}

fn whole(data: &[u8]) -> (usize, usize) {
    (0, data.len() - 1)
}

#[test]
fn a_range_is_scanned_into_a_mapping() {
    let data = b"A;3.0\nB;4.0\nA;5.0\n";
    let mapping = compute(whole(data), data, &parse, &plus).unwrap();
    assert_eq!(
        mapping.get(b"A"),
        Some(Stats { min: bits(3.0), max: bits(5.0), sum: bits(8.0), count: 2 })
    );
    assert_eq!(
        mapping.get(b"B"),
        Some(Stats { min: bits(4.0), max: bits(4.0), sum: bits(4.0), count: 1 })
    );
    assert_eq!(mapping.get(b"C"), None);
    assert_eq!(mapping.keys().len(), 2);
}

#[test]
fn only_the_range_is_scanned() {
    let data = b"A;3.0\nB;4.0\nA;5.0\n";
    let mapping = compute((6, 11), data, &parse, &plus).unwrap();
    assert_eq!(mapping.get(b"A"), None);
    assert_eq!(
        mapping.get(b"B"),
        Some(Stats { min: bits(4.0), max: bits(4.0), sum: bits(4.0), count: 1 })
    );
    let rest = compute((12, 17), data, &parse, &plus).unwrap();
    assert_eq!(
        rest.get(b"A"),
        Some(Stats { min: bits(5.0), max: bits(5.0), sum: bits(5.0), count: 1 })
    );
}

#[test]
fn an_empty_range_gives_an_empty_mapping() {
    let data = b"A;3.0\n";
    let mapping = compute((6, 5), data, &parse, &plus).unwrap();
    assert!(mapping.keys().is_empty());
}

#[test]
fn the_last_line_needs_no_terminator() {
    let data = b"A;3.0\nB;-4.5";
    let mapping = compute(whole(data), data, &parse, &plus).unwrap();
    assert_eq!(
        mapping.get(b"B"),
        Some(Stats { min: bits(-4.5), max: bits(-4.5), sum: bits(-4.5), count: 1 })
    );
}

#[test]
fn a_carriage_return_before_the_terminator_is_dropped() {
    let data = b"A;3.0\r\nA;7.0\r\n";
    let mapping = compute(whole(data), data, &parse, &plus).unwrap();
    assert_eq!(
        mapping.get(b"A"),
        Some(Stats { min: bits(3.0), max: bits(7.0), sum: bits(10.0), count: 2 })
    );
}

#[test]
fn a_line_is_split_at_its_first_delimiter() {
    let data = b";1.0\nA b;2\n";
    let mapping = compute(whole(data), data, &parse, &plus).unwrap();
    assert_eq!(mapping.get(b"").map(|stats| stats.min), Some(bits(1.0)));
    assert_eq!(mapping.get(b"A b").map(|stats| stats.max), Some(bits(2.0)));
    let twice = b"A;1;2\n";
    assert_eq!(compute(whole(twice), twice, &parse, &plus).err(), Some(ParseError::InvalidNumber));
}

#[test]
fn keys_are_compared_byte_by_byte() {
    let data = b"a;1.0\nA;2.0\n a;3.0\n";
    let mapping = compute(whole(data), data, &parse, &plus).unwrap();
    assert_eq!(mapping.keys().len(), 3);
    assert_eq!(mapping.get(b"a").map(|stats| stats.count), Some(1));
}

#[test]
fn a_line_without_delimiter_is_malformed() {
    let data = b"A;3.0\nB 4.0\nA;5.0\n";
    assert_eq!(compute(whole(data), data, &parse, &plus).err(), Some(ParseError::MalformedLine));
    let blank = b"A;3.0\n\nA;5.0\n";
    assert_eq!(compute(whole(blank), blank, &parse, &plus).err(), Some(ParseError::MalformedLine));
}

#[test]
fn a_value_that_is_no_number_is_invalid() {
    for data in [&b"A;\n"[..], b"A;x\n", b"A;1.0x\n", b"A; 1.0\n", b"A;--1\n"] {
        assert_eq!(compute(whole(data), data, &parse, &plus).err(), Some(ParseError::InvalidNumber));
    }
}

#[test]
fn a_value_that_is_not_finite_is_invalid() {
    for data in [&b"A;inf\n"[..], b"A;-inf\n", b"A;nan\n", b"A;infinity\n", b"A;1e999\n"] {
        assert_eq!(compute(whole(data), data, &parse, &plus).err(), Some(ParseError::InvalidNumber));
    }
}

#[test]
fn the_first_bad_line_gives_the_error() {
    let data = b"A;x\nB\n";
    assert_eq!(compute(whole(data), data, &parse, &plus).err(), Some(ParseError::InvalidNumber));
    let data = b"B\nA;x\n";
    assert_eq!(compute(whole(data), data, &parse, &plus).err(), Some(ParseError::MalformedLine));
}

#[test]
fn the_errors_have_their_words() {
    assert_eq!(ParseError::MalformedLine.message(), "malformed line: missing delimiter");
    assert_eq!(ParseError::InvalidNumber.message(), "invalid numeric literal");
}
