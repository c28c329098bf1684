use key_stats::chunk::ParseError;
use key_stats::pipeline::{aggregate, summarize};

fn parse(text: &[u8]) -> Option<u64> {
    fast_float::parse::<f64, _>(text).ok().map(f64::to_bits)
}

fn plus(a: u64, b: u64) -> u64 {
    (f64::from_bits(a) + f64::from_bits(b)).to_bits()
}

fn mean(sum: u64, count: u64) -> u64 {
    (f64::from_bits(sum) / count as f64).to_bits()
}

fn show(value: u64) -> Vec<u8> {
    format!("{:.1}", f64::from_bits(value)).into_bytes()
}

fn run(data: &[u8], degree: usize) -> Result<String, ParseError> {
    summarize(data, degree, &parse, &plus, &mean, &show).map(|line| String::from_utf8(line).unwrap())
}

#[test]
fn two_keys_give_two_entries() {
    let data = b"A;3.0\nB;4.0\nA;5.0\n";
    for degree in 1..=8 {
        assert_eq!(run(data, degree).unwrap(), "{A=3.0/4.0/5.0, B=4.0/4.0/4.0}");
    }
}

#[test]
fn one_value_many_times_is_minimum_mean_and_maximum() {
    for (value, text) in [(12.5f64, "12.5"), (-3.0, "-3.0"), (0.0, "0.0")] {
        for count in [1usize, 2, 7, 100] {
            let data = format!("K;{value}\n").repeat(count).into_bytes();
            for degree in [1, 3, 8] {
                let answer = aggregate(&data, degree, &parse, &plus).ok().unwrap();
                let stats = answer.get(b"K").unwrap();
                assert_eq!(stats.min, value.to_bits());
                assert_eq!(stats.max, value.to_bits());
                assert_eq!(stats.count, count as u64);
                assert_eq!(f64::from_bits(mean(stats.sum, stats.count)), value);
                assert_eq!(run(&data, degree).unwrap(), format!("{{K={text}/{text}/{text}}}"));
            }
        }
    }
}

#[test]
fn a_bad_line_ends_the_run_without_a_line() {
    for degree in 1..=4 {
        assert_eq!(run(b"A;3.0\nB\nA;5.0\n", degree), Err(ParseError::MalformedLine));
        assert_eq!(run(b"A;3.0\nB;\nA;5.0\n", degree), Err(ParseError::InvalidNumber));
    }
}

#[test]
fn the_line_starts_with_the_first_key() {
    let data = b"Zebra;1.0\nApple;2.0\n";
    for degree in 1..=4 {
        let line = run(data, degree).unwrap();
        assert!(line.starts_with("{Apple="));
        assert_eq!(line, "{Apple=2.0/2.0/2.0, Zebra=1.0/1.0/1.0}");
    }
}

fn sample() -> Vec<u8> {
    let mut data = Vec::new();
    for i in 0..500u32 {
        let key = ["Oslo", "Rome", "Lima", "Cairo", "Zagreb", "Bern", "Apia"][(i * 7 % 11 % 7) as usize];
        let value = ((i * 37 % 1999) as f64 - 999.0) / 10.0;
        data.extend_from_slice(format!("{key};{value:.1}\n").as_bytes());
    }
    data
}

#[test]
fn one_worker_and_many_give_the_same() {
    let data = sample();
    let single = aggregate(&data, 1, &parse, &plus).ok().unwrap();
    for degree in [2, 3, 4, 5, 8, 16, 64, 1000] {
        let many = aggregate(&data, degree, &parse, &plus).ok().unwrap();
        let mut keys = single.keys();
        keys.sort();
        let mut others = many.keys();
        others.sort();
        assert_eq!(keys, others);
        for key in keys {
            let a = single.get(key).unwrap();
            let b = many.get(key).unwrap();
            assert_eq!((a.min, a.max, a.count), (b.min, b.max, b.count));
            assert!((f64::from_bits(a.sum) - f64::from_bits(b.sum)).abs() < 1e-6);
        }
        assert_eq!(run(&data, degree), run(&data, 1));
    }
}

#[test]
fn a_second_run_gives_the_same_bytes() {
    let data = sample();
    for degree in [1, 4, 9] {
        let first = summarize(&data, degree, &parse, &plus, &mean, &show).ok().unwrap();
        let second = summarize(&data, degree, &parse, &plus, &mean, &show).ok().unwrap();
        assert_eq!(first, second);
    }
}

#[test]
fn the_last_line_may_lack_its_terminator() {
    assert_eq!(run(b"A;3.0\nB;4.0\nA;5.0", 1).unwrap(), "{A=3.0/4.0/5.0, B=4.0/4.0/4.0}");
    assert_eq!(run(b"A;3.0\nB;4.0\nA;5.0", 2).unwrap(), "{A=3.0/4.0/5.0, B=4.0/4.0/4.0}");
}

#[test]
fn a_long_last_line_without_terminator_is_cut() {
    let data = b"A;12345678";
    assert_eq!(run(data, 1).unwrap(), "{A=12345678.0/12345678.0/12345678.0}");
    assert_eq!(run(data, 2), Err(ParseError::MalformedLine));
}

#[test]
fn the_first_bad_line_of_the_input_gives_the_error() {
    let data = b"A;1.0\nB;x\nC;2.0\nD\n";
    for degree in 1..=6 {
        assert_eq!(run(data, degree), Err(ParseError::InvalidNumber));
    }
}

#[test]
fn negative_and_signed_values_are_read() {
    assert_eq!(run(b"A;-1.5\nA;+2.5\nA;7\n", 1).unwrap(), "{A=-1.5/2.7/7.0}");
}
