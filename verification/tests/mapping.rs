use key_stats::mapping::{reduce, Mapping};
use key_stats::pipeline::merge;
use key_stats::stats::Stats;

fn plus(a: u64, b: u64) -> u64 {
    (f64::from_bits(a) + f64::from_bits(b)).to_bits()
}

fn bits(value: f64) -> u64 {
    value.to_bits()
}

fn of<'a>(readings: &[(&'a [u8], f64)]) -> Mapping<'a> {
    let mut mapping = Mapping::new();
    for &(key, value) in readings {
        mapping.record(key, bits(value), &plus);
    }
    mapping
}

fn summary(mapping: &Mapping) -> Vec<(Vec<u8>, u64, u64, u64)> {
    let mut rows: Vec<_> = mapping
        .keys()
        .into_iter()
        .map(|key| {
            let stats = mapping.get(key).unwrap();
            (key.to_vec(), stats.min, stats.max, stats.count)
        })
        .collect();
    rows.sort();
    rows
}

#[test]
fn a_new_mapping_has_no_keys() {
    let mapping = Mapping::new();
    assert!(mapping.keys().is_empty());
    assert_eq!(mapping.get(b"A"), None);
}

#[test]
fn record_creates_and_updates() {
    let mut mapping = Mapping::new();
    mapping.record(b"A", bits(3.0), &plus);
    assert_eq!(
        mapping.get(b"A"),
        Some(Stats { min: bits(3.0), max: bits(3.0), sum: bits(3.0), count: 1 })
    );
    mapping.record(b"A", bits(-1.0), &plus);
    mapping.record(b"B", bits(9.0), &plus);
    assert_eq!(
        mapping.get(b"A"),
        Some(Stats { min: bits(-1.0), max: bits(3.0), sum: bits(2.0), count: 2 })
    );
    let mut keys = mapping.keys();
    keys.sort();
    assert_eq!(keys, vec![&b"A"[..], &b"B"[..]]);
}

#[test]
fn absorb_folds_into_the_key() {
    let mut mapping = of(&[(b"A", 3.0)]);
    let other = Stats { min: bits(1.0), max: bits(2.0), sum: bits(3.0), count: 2 };
    mapping.absorb(b"A", &other, &plus);
    mapping.absorb(b"B", &other, &plus);
    assert_eq!(
        mapping.get(b"A"),
        Some(Stats { min: bits(1.0), max: bits(3.0), sum: bits(6.0), count: 3 })
    );
    assert_eq!(mapping.get(b"B"), Some(other));
}

#[test]
fn reduce_merges_the_second_into_the_first() {
    let mut a = of(&[(b"A", 3.0), (b"B", 4.0)]);
    let b = of(&[(b"A", 5.0), (b"C", -1.0), (b"A", 1.0)]);
    reduce(&mut a, &b, &plus);
    assert_eq!(
        a.get(b"A"),
        Some(Stats { min: bits(1.0), max: bits(5.0), sum: bits(9.0), count: 3 })
    );
    assert_eq!(
        a.get(b"B"),
        Some(Stats { min: bits(4.0), max: bits(4.0), sum: bits(4.0), count: 1 })
    );
    assert_eq!(
        a.get(b"C"),
        Some(Stats { min: bits(-1.0), max: bits(-1.0), sum: bits(-1.0), count: 1 })
    );
    assert_eq!(a.keys().len(), 3);
    assert_eq!(b.keys().len(), 2);
}

#[test]
fn merging_gives_the_same_in_any_order() {
    let make = || {
        vec![
            of(&[(b"A", 3.0), (b"B", 4.0)]),
            of(&[(b"A", 5.0), (b"C", -1.0)]),
            of(&[(b"C", 7.5), (b"B", 0.25), (b"D", 2.0)]),
        ]
    };
    let expected = summary(&merge(&make(), &plus));
    for order in [[0, 1, 2], [0, 2, 1], [1, 0, 2], [1, 2, 0], [2, 0, 1], [2, 1, 0]] {
        let mut maps: Vec<Option<Mapping>> = make().into_iter().map(Some).collect();
        let shuffled: Vec<Mapping> = order.iter().map(|&i| maps[i].take().unwrap()).collect();
        assert_eq!(summary(&merge(&shuffled, &plus)), expected);
    }
    assert_eq!(
        expected,
        vec![
            (b"A".to_vec(), bits(3.0), bits(5.0), 2),
            (b"B".to_vec(), bits(0.25), bits(4.0), 2),
            (b"C".to_vec(), bits(-1.0), bits(7.5), 2),
            (b"D".to_vec(), bits(2.0), bits(2.0), 1),
        ]
    );
}

#[test]
fn merging_sums_up_to_rounding() {
    let maps = vec![of(&[(b"A", 0.1)]), of(&[(b"A", 0.2)]), of(&[(b"A", 0.3)])];
    let sum = f64::from_bits(merge(&maps, &plus).get(b"A").unwrap().sum);
    assert!((sum - 0.6).abs() < 1e-9);
}

#[test]
fn merging_no_mappings_gives_an_empty_one() {
    let maps: Vec<Mapping> = Vec::new();
    assert!(merge(&maps, &plus).keys().is_empty());
}

#[test]
fn fits_tells_whether_counts_overflow() {
    let mut a = Mapping::new();
    a.absorb(b"A", &Stats { min: bits(1.0), max: bits(1.0), sum: bits(1.0), count: u64::MAX - 1 }, &plus);
    let one = of(&[(b"A", 1.0)]);
    let two = of(&[(b"A", 1.0), (b"A", 1.0)]);
    let other = of(&[(b"B", 1.0), (b"B", 1.0)]);
    assert!(a.fits(&one));
    assert!(!a.fits(&two));
    assert!(a.fits(&other));
}
