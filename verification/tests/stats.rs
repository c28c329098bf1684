use key_stats::stats::Stats;

fn plus(a: u64, b: u64) -> u64 {
    (f64::from_bits(a) + f64::from_bits(b)).to_bits()
}

fn bits(value: f64) -> u64 {
    value.to_bits()
}

fn of(values: &[f64]) -> Stats {
    let mut stats = Stats::default();
    for &value in values {
        stats.add(bits(value), &plus);
    }
    stats
}

#[test]
fn the_default_is_the_statistic_of_no_values() {
    let stats = Stats::default();
    assert_eq!(stats.min, bits(f64::MAX));
    assert_eq!(stats.max, bits(f64::MIN));
    assert_eq!(stats.sum, bits(0.0));
    assert_eq!(stats.count, 0);
}

#[test]
fn add_takes_one_value_in() {
    let mut stats = Stats::default();
    stats.add(bits(3.0), &plus);
    assert_eq!(stats, Stats { min: bits(3.0), max: bits(3.0), sum: bits(3.0), count: 1 });
    stats.add(bits(5.0), &plus);
    assert_eq!(stats, Stats { min: bits(3.0), max: bits(5.0), sum: bits(8.0), count: 2 });
    stats.add(bits(-1.5), &plus);
    assert_eq!(stats, Stats { min: bits(-1.5), max: bits(5.0), sum: bits(6.5), count: 3 });
}

#[test]
fn add_keeps_the_first_of_two_equal_numbers() {
    let mut stats = Stats::default();
    stats.add(bits(0.0), &plus);
    stats.add(bits(-0.0), &plus);
    assert_eq!(stats.min, bits(0.0));
    assert_eq!(stats.max, bits(0.0));
    assert_eq!(stats.count, 2);
}

#[test]
fn fold_takes_another_statistic_in() {
    let mut stats = of(&[3.0, 5.0]);
    stats.fold(&of(&[4.0, -2.0, 9.5]), &plus);
    assert_eq!(stats, Stats { min: bits(-2.0), max: bits(9.5), sum: bits(19.5), count: 5 });
}

#[test]
fn fold_into_the_default_gives_the_other() {
    let other = of(&[1.0, 2.0]);
    let mut stats = Stats::default();
    stats.fold(&other, &plus);
    assert_eq!(stats, other);
}

#[test]
fn fold_gives_the_same_in_either_order() {
    let a = of(&[3.0, 5.0, -7.25]);
    let b = of(&[4.0, 12.0]);
    let mut ab = a;
    ab.fold(&b, &plus);
    let mut ba = b;
    ba.fold(&a, &plus);
    assert_eq!((ab.min, ab.max, ab.count), (ba.min, ba.max, ba.count));
    assert_eq!((ab.min, ab.max, ab.count), (bits(-7.25), bits(12.0), 5));
}

#[test]
fn fold_gives_the_same_however_grouped() {
    let a = of(&[3.0]);
    let b = of(&[-4.0, 8.0]);
    let c = of(&[0.5, 100.0, -100.0]);
    let mut left = a;
    left.fold(&b, &plus);
    left.fold(&c, &plus);
    let mut bc = b;
    bc.fold(&c, &plus);
    let mut right = a;
    right.fold(&bc, &plus);
    assert_eq!((left.min, left.max, left.count), (right.min, right.max, right.count));
    assert_eq!((left.min, left.max, left.count), (bits(-100.0), bits(100.0), 6));
}
