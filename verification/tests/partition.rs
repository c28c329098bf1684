use key_stats::partition::partition;

fn check_tiling(data: &[u8], degree: usize) {
    let parts = partition(data, degree);
    assert_eq!(parts.len(), degree);
    assert_eq!(parts[0].0, 0);
    assert_eq!(parts[degree - 1].1, data.len() - 1);
    let mut seen = vec![0u32; data.len()];
    for (i, &(start, end)) in parts.iter().enumerate() {
        assert!(start <= end + 1 && end < data.len());
        if i + 1 < degree {
            assert_eq!(parts[i + 1].0, end + 1);
        }
        for k in start..=end {
            seen[k] += 1;
        }
    }
    assert!(seen.iter().all(|&n| n == 1));
}

#[test]
fn one_range_holds_the_whole_input() {
    let data = b"A;3.0\nB;4.0\nA;5.0\n";
    assert_eq!(partition(data, 1), vec![(0, data.len() - 1)]);
}

#[test]
fn ranges_end_on_terminators() {
    let data = b"abc\ndef";
    assert_eq!(partition(data, 2), vec![(0, 3), (4, 6)]);
    assert_eq!(partition(data, 3), vec![(0, 3), (4, 6), (7, 6)]);
}

#[test]
fn a_range_runs_on_to_the_next_terminator() {
    let data = b"a\nbbbbbbbbbbbb\nc\n";
    assert_eq!(partition(data, 4), vec![(0, 14), (15, 16), (17, 16), (17, 16)]);
}

#[test]
fn every_byte_lies_in_one_range() {
    let data = b"A;3.0\nB;4.0\nA;5.0\nCC;-1.5\nD;0.0\n";
    for degree in 1..=40 {
        check_tiling(data, degree);
    }
    check_tiling(b"x", 1);
    check_tiling(b"x", 7);
    check_tiling(b"\n", 3);
    check_tiling(b"no terminator at all", 5);
}

#[test]
fn boundaries_follow_terminators_in_terminated_input() {
    let data = b"A;3.0\nB;4.0\nA;5.0\nCC;-1.5\nD;0.0\n";
    for degree in 1..=40 {
        for (_, end) in partition(data, degree) {
            assert_eq!(data[end], b'\n');
        }
    }
}

#[test]
fn more_workers_than_bytes_leave_empty_ranges() {
    let data = b"a\nb\n";
    assert_eq!(
        partition(data, 6),
        vec![(0, 1), (2, 3), (4, 3), (4, 3), (4, 3), (4, 3)]
    );
}

#[test]
fn without_a_terminator_a_range_ends_at_its_nominal_end() {
    let data = b"abcdef";
    assert_eq!(partition(data, 2), vec![(0, 3), (4, 5)]);
}
