use key_stats::mapping::Mapping;
use key_stats::report::render;

fn plus(a: u64, b: u64) -> u64 {
    (f64::from_bits(a) + f64::from_bits(b)).to_bits()
}

fn mean(sum: u64, count: u64) -> u64 {
    (f64::from_bits(sum) / count as f64).to_bits()
}

fn show(value: u64) -> Vec<u8> {
    format!("{:.1}", f64::from_bits(value)).into_bytes()
}

fn of<'a>(readings: &[(&'a [u8], f64)]) -> Mapping<'a> {
    let mut mapping = Mapping::new();
    for &(key, value) in readings {
        mapping.record(key, value.to_bits(), &plus);
    }
    mapping
}

fn line(mapping: &Mapping) -> String {
    String::from_utf8(render(mapping, &mean, &show)).unwrap()
}

#[test]
fn an_empty_mapping_is_two_braces() {
    assert_eq!(line(&Mapping::new()), "{}");
}

#[test]
fn one_entry_has_no_comma() {
    assert_eq!(line(&of(&[(b"A", 3.0), (b"A", 4.0)])), "{A=3.0/3.5/4.0}");
}

#[test]
fn entries_are_separated_by_comma_and_space() {
    assert_eq!(
        line(&of(&[(b"A", 3.0), (b"B", 4.0), (b"A", 5.0)])),
        "{A=3.0/4.0/5.0, B=4.0/4.0/4.0}"
    );
}

#[test]
fn keys_come_in_byte_order() {
    let mapping = of(&[
        (b"b", 1.0),
        (b"B", 1.0),
        (b"ab", 1.0),
        (b"a", 1.0),
        (b"", 1.0),
        (b"aa", 1.0),
        (b"Zebra", 1.0),
        (b"Apple", 2.0),
    ]);
    assert_eq!(
        line(&mapping),
        "{=1.0/1.0/1.0, Apple=2.0/2.0/2.0, B=1.0/1.0/1.0, Zebra=1.0/1.0/1.0, a=1.0/1.0/1.0, \
         aa=1.0/1.0/1.0, ab=1.0/1.0/1.0, b=1.0/1.0/1.0}"
    );
}

#[test]
fn numbers_have_one_decimal_digit() {
    assert_eq!(
        line(&of(&[(b"K", -12.34), (b"K", 0.06), (b"K", 99.95)])),
        "{K=-12.3/29.2/100.0}"
    );
}

#[test]
fn key_bytes_are_written_as_they_are() {
    let key = [0xC3u8, 0xA9, 0xFF];
    let out = render(&of(&[(&key, 1.0)]), &mean, &show);
    assert_eq!(out, [&b"{"[..], &key, b"=1.0/1.0/1.0}"].concat());
}
