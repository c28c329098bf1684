//! What holds of merging, and of scanning an input in pieces.

use vstd::prelude::*;
use crate::bytes::{absent, first_at, lemma_first_is_position, lemma_position, position, TERMINATOR};
use crate::chunk::{chunk_of, line_reading, tally, ParseError};
use crate::lines::{after_first_line, first_line, text_lines};
use crate::mapping::{all_sound, counts_fit, merged, no_entries, stats_at};
use crate::partition::{lemma_ranges_tile, lemma_single_range, line_aligned, ranges, tiles};
use crate::pipeline::{aggregated, merged_all};
use crate::reading::{finite, lemma_greater, lemma_lesser, less, same};
use crate::stats::{empty_stats, lemma_fold_commutes, lemma_fold_into_empty, observed, Stats};

verus! {

/// Two statistics have the same minimum, maximum and count.
pub open spec fn alike(a: Stats, b: Stats) -> bool {
    a.min == b.min && a.max == b.max && a.count == b.count
}

/// Two statistics have equal numbers as minimum and as maximum (a zero may
/// differ in its sign) and the same count.
pub open spec fn equal_numbers(a: Stats, b: Stats) -> bool {
    same(a.min, b.min) && same(a.max, b.max) && a.count == b.count
}

/// Two mappings have the same keys, and under each key statistics that are
/// alike.
pub open spec fn entries_alike(a: Map<Seq<u8>, Stats>, b: Map<Seq<u8>, Stats>) -> bool {
    &&& forall|key: Seq<u8>| a.contains_key(key) <==> b.contains_key(key)
    &&& forall|key: Seq<u8>| a.contains_key(key) ==> alike(#[trigger] a[key], b[key])
}

/// Two runs end with the same error, or with mappings that are alike.
pub open spec fn outcomes_alike(
    a: Result<Map<Seq<u8>, Stats>, ParseError>,
    b: Result<Map<Seq<u8>, Stats>, ParseError>,
) -> bool {
    match a {
        Ok(entries) => b is Ok && entries_alike(entries, b->Ok_0),
        Err(error) => b == Err::<Map<Seq<u8>, Stats>, ParseError>(error),
    }
}

/// No key has more values in the three mappings than a count can hold.
pub open spec fn three_fit(
    a: Map<Seq<u8>, Stats>,
    b: Map<Seq<u8>, Stats>,
    c: Map<Seq<u8>, Stats>,
) -> bool {
    forall|key: Seq<u8>|
        (#[trigger] stats_at(a, key)).count + (#[trigger] stats_at(b, key)).count + (#[trigger] stats_at(
            c,
            key,
        )).count <= u64::MAX
}

/// Merging sound mappings gives a sound mapping.
pub proof fn lemma_merged_sound<A: Fn(u64, u64) -> u64>(
    plus: A,
    a: Map<Seq<u8>, Stats>,
    b: Map<Seq<u8>, Stats>,
)
    requires
        all_sound(a),
        all_sound(b),
        counts_fit(a, b),
    ensures
        all_sound(merged(plus, a, b)),
{
}

/// Merging is commutative in minimum, maximum and count: merged in either
/// order, two mappings give the same keys, and under each key equal numbers
/// and the same count. The sums may differ, as addition rounds.
pub proof fn lemma_merge_commutes<A: Fn(u64, u64) -> u64>(
    plus: A,
    a: Map<Seq<u8>, Stats>,
    b: Map<Seq<u8>, Stats>,
)
    requires
        all_sound(a),
        all_sound(b),
    ensures
        forall|key: Seq<u8>| merged(plus, a, b).contains_key(key) <==> merged(plus, b, a).contains_key(key),
        forall|key: Seq<u8>|
            merged(plus, a, b).contains_key(key) ==> equal_numbers(
                #[trigger] merged(plus, a, b)[key],
                merged(plus, b, a)[key],
            ),
{
    assert forall|key: Seq<u8>| merged(plus, a, b).contains_key(key) implies equal_numbers(
        #[trigger] merged(plus, a, b)[key],
        merged(plus, b, a)[key],
    ) by {
        if a.contains_key(key) && b.contains_key(key) {
            lemma_fold_commutes(plus, a[key], b[key]);
        } else if a.contains_key(key) {
            lemma_fold_into_empty(plus, a[key]);
        } else {
            lemma_fold_into_empty(plus, b[key]);
        }
    }
}

/// Merging is associative in minimum, maximum and count: however three
/// mappings are grouped, merging them gives the same keys, and under each
/// key the same minimum, maximum and count.
pub proof fn lemma_merge_associates<A: Fn(u64, u64) -> u64>(
    plus: A,
    a: Map<Seq<u8>, Stats>,
    b: Map<Seq<u8>, Stats>,
    c: Map<Seq<u8>, Stats>,
)
    requires
        all_sound(a),
        all_sound(b),
        all_sound(c),
        three_fit(a, b, c),
    ensures
        entries_alike(merged(plus, merged(plus, a, b), c), merged(plus, a, merged(plus, b, c))),
{
    let left = merged(plus, merged(plus, a, b), c);
    let right = merged(plus, a, merged(plus, b, c));
    assert forall|key: Seq<u8>| left.contains_key(key) implies alike(#[trigger] left[key], right[key]) by {
        let x = stats_at(a, key);
        let y = stats_at(b, key);
        let z = stats_at(c, key);
        assert(x.count + y.count + z.count <= u64::MAX);
        lemma_lesser(x.min, y.min, z.min);
        lemma_greater(x.max, y.max, z.max);
        lemma_lesser(empty_stats().min, y.min, z.min);
        lemma_greater(empty_stats().max, y.max, z.max);
        lemma_lesser(x.min, empty_stats().min, z.min);
        lemma_greater(x.max, empty_stats().max, z.max);
    }
}

/// Lines that can all be read give sound statistics, and no key more
/// values than there are lines.
pub proof fn lemma_tally_sound<P: Fn(&[u8]) -> Option<u64>, A: Fn(u64, u64) -> u64>(
    parse: P,
    plus: A,
    lines: Seq<Seq<u8>>,
)
    requires
        lines.len() <= u64::MAX,
    ensures
        tally(parse, plus, lines) matches Ok(entries) ==> all_sound(entries) && forall|key: Seq<u8>| #[trigger]
            entries.contains_key(key) ==> entries[key].count <= lines.len(),
    decreases lines.len(),
{
    if lines.len() > 0 {
        lemma_tally_sound(parse, plus, lines.drop_last());
    }
}

/// A text that ends with a terminator, or is empty, can be followed by
/// another: the lines of the two together are the lines of the first and
/// then those of the second.
pub proof fn lemma_lines_of_two(a: Seq<u8>, b: Seq<u8>)
    requires
        a.len() == 0 || a.last() == TERMINATOR,
    ensures
        text_lines(a + b) == text_lines(a) + text_lines(b),
    decreases a.len(),
{
    if a.len() == 0 {
        assert(a + b =~= b);
        assert(text_lines(a) + text_lines(b) =~= text_lines(b));
    } else {
        let whole = a + b;
        lemma_position(a, TERMINATOR);
        assert(!absent(a, TERMINATOR)) by {
            assert(a[a.len() - 1] == TERMINATOR);
        }
        let p = position(a, TERMINATOR);
        assert(first_at(whole, TERMINATOR, p)) by {
            assert(whole[p] == a[p]);
            assert forall|j: int| 0 <= j < p implies whole[j] != TERMINATOR by {
                assert(whole[j] == a[j]);
            }
        }
        lemma_first_is_position(whole, TERMINATOR, p);
        assert(whole.subrange(0, p) =~= a.subrange(0, p));
        assert(first_line(whole) == first_line(a));
        let rest = after_first_line(a);
        assert(after_first_line(whole) =~= rest + b);
        assert(rest.len() == 0 || rest.last() == TERMINATOR) by {
            if rest.len() > 0 {
                assert(rest[rest.len() - 1] == a[a.len() - 1]);
            }
        }
        lemma_lines_of_two(rest, b);
        assert(text_lines(whole) =~= text_lines(a) + text_lines(b));
    }
}

/// Folding what follows into a running statistic gives the minimum,
/// maximum and count of folding it into one that is alike.
pub proof fn lemma_merged_alike<A: Fn(u64, u64) -> u64>(
    plus: A,
    a: Map<Seq<u8>, Stats>,
    b: Map<Seq<u8>, Stats>,
    other: Map<Seq<u8>, Stats>,
)
    requires
        entries_alike(a, b),
    ensures
        entries_alike(merged(plus, a, other), merged(plus, b, other)),
{
    assert forall|key: Seq<u8>| merged(plus, a, other).contains_key(key) implies alike(
        #[trigger] merged(plus, a, other)[key],
        merged(plus, b, other)[key],
    ) by {
        if a.contains_key(key) {
            assert(alike(a[key], b[key]));
        }
    }
}

/// Scanning two runs of lines apart and merging gives what one scan of
/// both gives: the same error, or the same keys with the same minimum,
/// maximum and count under each.
pub proof fn lemma_tally_of_two<P: Fn(&[u8]) -> Option<u64>, A: Fn(u64, u64) -> u64>(
    parse: P,
    plus: A,
    first: Seq<Seq<u8>>,
    second: Seq<Seq<u8>>,
)
    requires
        first.len() + second.len() <= u64::MAX,
    ensures
        outcomes_alike(
            tally(parse, plus, first + second),
            match tally(parse, plus, first) {
                Err(error) => Err(error),
                Ok(entries) => match tally(parse, plus, second) {
                    Err(error) => Err(error),
                    Ok(local) => Ok(merged(plus, entries, local)),
                },
            },
        ),
    decreases second.len(),
{
    let both = first + second;
    if second.len() == 0 {
        assert(both =~= first);
        if tally(parse, plus, first) is Ok {
            let entries = tally(parse, plus, first)->Ok_0;
            assert(merged(plus, entries, no_entries()) =~= entries);
        }
    } else {
        let earlier = second.drop_last();
        assert(both.drop_last() =~= first + earlier);
        assert(both.last() == second.last());
        lemma_tally_of_two(parse, plus, first, earlier);
        lemma_tally_sound(parse, plus, first);
        lemma_tally_sound(parse, plus, earlier);
        lemma_tally_sound(parse, plus, first + earlier);
        if tally(parse, plus, first) is Ok && tally(parse, plus, earlier) is Ok && line_reading(
            parse,
            second.last(),
        ) is Ok {
            let entries = tally(parse, plus, first)->Ok_0;
            let local = tally(parse, plus, earlier)->Ok_0;
            let joint = tally(parse, plus, first + earlier)->Ok_0;
            let (key, value) = line_reading(parse, second.last())->Ok_0;
            assert(finite(value));
            let local_after = local.insert(key, observed(plus, stats_at(local, key), value));
            let joint_after = joint.insert(key, observed(plus, stats_at(joint, key), value));
            assert(tally(parse, plus, second) == Ok::<Map<Seq<u8>, Stats>, ParseError>(local_after));
            assert(tally(parse, plus, both) == Ok::<Map<Seq<u8>, Stats>, ParseError>(joint_after));
            let goal = merged(plus, entries, local_after);
            assert(entries_alike(joint, merged(plus, entries, local)));
            assert forall|k: Seq<u8>| joint_after.contains_key(k) <==> goal.contains_key(k) by {
                assert(joint.contains_key(k) <==> merged(plus, entries, local).contains_key(k));
            }
            assert forall|k: Seq<u8>| joint_after.contains_key(k) implies alike(
                #[trigger] joint_after[k],
                goal[k],
            ) by {
                if k == key {
                    let x = stats_at(entries, key);
                    let y = stats_at(local, key);
                    assert(x.count + y.count <= first.len() + earlier.len());
                    lemma_lesser(x.min, y.min, value);
                    lemma_greater(x.max, y.max, value);
                    if joint.contains_key(key) {
                        assert(alike(joint[key], merged(plus, entries, local)[key]));
                    }
                } else {
                    assert(alike(joint[k], merged(plus, entries, local)[k]));
                }
            }
        }
    }
}

/// The bytes of `data` that stand before the `n`-th range of `parts`.
pub open spec fn scanned(parts: Seq<(usize, usize)>, n: int) -> int {
    if n == 0 {
        0
    } else {
        parts[n - 1].1 + 1
    }
}

/// Cutting the input into ranges that split no line does not change the
/// result in minimum, maximum and count: scanned range by range and merged,
/// the input gives the error, or the keys and under each key the minimum,
/// maximum and count, that one scan of the whole input gives. The sums may
/// differ, as addition rounds.
pub proof fn lemma_ranges_do_not_matter<P: Fn(&[u8]) -> Option<u64>, A: Fn(u64, u64) -> u64>(
    parse: P,
    plus: A,
    data: Seq<u8>,
    parts: Seq<(usize, usize)>,
)
    requires
        data.len() <= u64::MAX,
        tiles(parts, data.len() as int),
        line_aligned(data, parts),
    ensures
        outcomes_alike(aggregated(parse, plus, data, parts), tally(parse, plus, text_lines(data))),
{
    lemma_prefix_agrees(parse, plus, data, parts, parts.len() as int);
    assert(parts.take(parts.len() as int) =~= parts);
    assert(data.subrange(0, data.len() as int) =~= data);
}

/// The first `n` ranges, scanned and merged, give what one scan of the
/// bytes before the `n`-th range gives.
proof fn lemma_prefix_agrees<P: Fn(&[u8]) -> Option<u64>, A: Fn(u64, u64) -> u64>(
    parse: P,
    plus: A,
    data: Seq<u8>,
    parts: Seq<(usize, usize)>,
    n: int,
)
    requires
        data.len() <= u64::MAX,
        tiles(parts, data.len() as int),
        line_aligned(data, parts),
        0 <= n <= parts.len(),
    ensures
        0 <= scanned(parts, n) <= data.len(),
        n < parts.len() ==> parts[n].0 == scanned(parts, n),
        outcomes_alike(
            aggregated(parse, plus, data, parts.take(n)),
            tally(parse, plus, text_lines(data.subrange(0, scanned(parts, n)))),
        ),
    decreases n,
{
    if n == 0 {
        assert(parts.take(0) =~= Seq::<(usize, usize)>::empty());
        assert(data.subrange(0, 0) =~= Seq::<u8>::empty());
    } else {
        lemma_prefix_agrees(parse, plus, data, parts, n - 1);
        let range = parts[n - 1];
        let from = scanned(parts, n - 1);
        let to = scanned(parts, n);
        assert(parts[n - 1].0 <= parts[n - 1].1 + 1 <= data.len());
        if n < parts.len() {
            assert(parts[(n - 1) + 1].0 == parts[n - 1].1 + 1);
        }
        let before = data.subrange(0, from);
        let chunk = chunk_of(data, range);
        assert(data.subrange(0, to) =~= before + chunk);
        assert(parts.take(n).drop_last() =~= parts.take(n - 1));
        assert(parts.take(n).last() == range);
        assert(before.len() == 0 || before.last() == TERMINATOR || chunk.len() == 0) by {
            if n - 1 > 0 {
                let earlier = parts[n - 2];
                assert(earlier.1 == data.len() - 1 || data[earlier.1 as int] == TERMINATOR);
                if earlier.1 != data.len() - 1 {
                    assert(before[before.len() - 1] == data[earlier.1 as int]);
                }
            }
        }
        let lines_before = text_lines(before);
        let lines_chunk = text_lines(chunk);
        if chunk.len() == 0 {
            assert(before + chunk =~= before);
            assert(lines_before + lines_chunk =~= lines_before);
        } else {
            lemma_lines_of_two(before, chunk);
        }
        lemma_lines_bounded(before);
        lemma_lines_bounded(chunk);
        lemma_tally_of_two(parse, plus, lines_before, lines_chunk);
        let so_far = aggregated(parse, plus, data, parts.take(n - 1));
        let alone = tally(parse, plus, lines_before);
        if so_far is Ok && tally(parse, plus, lines_chunk) is Ok {
            lemma_merged_alike(plus, so_far->Ok_0, alone->Ok_0, tally(parse, plus, lines_chunk)->Ok_0);
            let mine = merged(plus, so_far->Ok_0, tally(parse, plus, lines_chunk)->Ok_0);
            let theirs = merged(plus, alone->Ok_0, tally(parse, plus, lines_chunk)->Ok_0);
            let whole = tally(parse, plus, lines_before + lines_chunk)->Ok_0;
            assert(entries_alike(whole, theirs));
            assert(entries_alike(mine, theirs));
            assert forall|key: Seq<u8>| mine.contains_key(key) implies alike(#[trigger] mine[key], whole[key]) by {
                assert(alike(mine[key], theirs[key]));
                assert(alike(whole[key], theirs[key]));
            }
        }
    }
}

/// A text has no more lines than bytes.
pub proof fn lemma_lines_bounded(bytes: Seq<u8>)
    ensures
        text_lines(bytes).len() <= bytes.len(),
    decreases bytes.len(),
{
    if bytes.len() > 0 {
        lemma_position(bytes, TERMINATOR);
        lemma_lines_bounded(after_first_line(bytes));
    }
}

/// The degree does not matter to minimum, maximum and count: where the
/// ranges for `degree` workers split no line, they give the error, or the
/// keys and under each key the minimum, maximum and count, that the one
/// range for a single worker gives.
pub proof fn lemma_degree_does_not_matter<P: Fn(&[u8]) -> Option<u64>, A: Fn(u64, u64) -> u64>(
    parse: P,
    plus: A,
    data: Seq<u8>,
    degree: int,
)
    requires
        0 < data.len() <= usize::MAX,
        degree > 0,
        line_aligned(data, ranges(data, degree)),
    ensures
        outcomes_alike(
            aggregated(parse, plus, data, ranges(data, degree)),
            aggregated(parse, plus, data, ranges(data, 1)),
        ),
{
    lemma_ranges_tile(data, degree);
    lemma_ranges_tile(data, 1);
    lemma_single_range(data);
    lemma_ranges_do_not_matter(parse, plus, data, ranges(data, degree));
    lemma_ranges_do_not_matter(parse, plus, data, ranges(data, 1));
    let many = aggregated(parse, plus, data, ranges(data, degree));
    let one = aggregated(parse, plus, data, ranges(data, 1));
    let whole = tally(parse, plus, text_lines(data));
    if many is Ok {
        assert forall|key: Seq<u8>| (many->Ok_0).contains_key(key) implies alike(
            #[trigger] (many->Ok_0)[key],
            (one->Ok_0)[key],
        ) by {
            assert(alike((many->Ok_0)[key], (whole->Ok_0)[key]));
            assert(alike((one->Ok_0)[key], (whole->Ok_0)[key]));
        }
    }
}

/// The values that `lines` give for `key`, in their order.
pub open spec fn values_of<P: Fn(&[u8]) -> Option<u64>>(parse: P, lines: Seq<Seq<u8>>, key: Seq<u8>) -> Seq<
    u64,
>
    decreases lines.len(),
{
    if lines.len() == 0 {
        Seq::empty()
    } else {
        let earlier = values_of(parse, lines.drop_last(), key);
        match line_reading(parse, lines.last()) {
            Ok((found, value)) => if found == key {
                earlier.push(value)
            } else {
                earlier
            },
            Err(_) => earlier,
        }
    }
}

/// What a scan says of a key: the key is in the mapping exactly if a line
/// has it; its count is the number of its values; its minimum and its
/// maximum are among its values, and no value is less than the minimum or
/// greater than the maximum.
pub proof fn lemma_tally_meaning<P: Fn(&[u8]) -> Option<u64>, A: Fn(u64, u64) -> u64>(
    parse: P,
    plus: A,
    lines: Seq<Seq<u8>>,
    key: Seq<u8>,
)
    requires
        lines.len() <= u64::MAX,
        tally(parse, plus, lines) is Ok,
    ensures
        ({
            let entries = tally(parse, plus, lines)->Ok_0;
            let values = values_of(parse, lines, key);
            &&& values.len() <= lines.len()
            &&& entries.contains_key(key) <==> values.len() > 0
            &&& entries.contains_key(key) ==> {
                &&& entries[key].count == values.len()
                &&& values.contains(entries[key].min)
                &&& values.contains(entries[key].max)
                &&& forall|i: int|
                    0 <= i < values.len() ==> finite(#[trigger] values[i]) && !less(
                        values[i],
                        entries[key].min,
                    ) && !less(entries[key].max, values[i])
            }
        }),
    decreases lines.len(),
{
    if lines.len() > 0 {
        let earlier = lines.drop_last();
        lemma_tally_meaning(parse, plus, earlier, key);
        let before = tally(parse, plus, earlier)->Ok_0;
        let entries = tally(parse, plus, lines)->Ok_0;
        let old_values = values_of(parse, earlier, key);
        let values = values_of(parse, lines, key);
        let (found, value) = line_reading(parse, lines.last())->Ok_0;
        if found == key {
            assert(values == old_values.push(value));
            assert(values[values.len() - 1] == value);
            assert forall|i: int| 0 <= i < old_values.len() implies values[i] == old_values[i] by {}
            if before.contains_key(key) {
                let low = before[key].min;
                let high = before[key].max;
                let i = choose|i: int| 0 <= i < old_values.len() && old_values[i] == low;
                let j = choose|j: int| 0 <= j < old_values.len() && old_values[j] == high;
                assert(values[i] == low && values[j] == high);
            }
        }
    }
}

/// Two mappings have the same keys, and under each key equal numbers as
/// minimum and as maximum and the same count.
pub open spec fn entries_equal(a: Map<Seq<u8>, Stats>, b: Map<Seq<u8>, Stats>) -> bool {
    &&& forall|key: Seq<u8>| a.contains_key(key) <==> b.contains_key(key)
    &&& forall|key: Seq<u8>| a.contains_key(key) ==> equal_numbers(#[trigger] a[key], b[key])
}

/// Every mapping of the sequence holds sound statistics only.
pub open spec fn each_sound(maps: Seq<Map<Seq<u8>, Stats>>) -> bool {
    forall|i: int| 0 <= i < maps.len() ==> all_sound(#[trigger] maps[i])
}

/// The number of values that the mappings hold for `key`, all together.
pub open spec fn total_count(maps: Seq<Map<Seq<u8>, Stats>>, key: Seq<u8>) -> int
    decreases maps.len(),
{
    if maps.len() == 0 {
        0
    } else {
        total_count(maps.drop_last(), key) + stats_at(maps.last(), key).count
    }
}

/// No key has more values in all the mappings than a count can hold.
pub open spec fn totals_fit(maps: Seq<Map<Seq<u8>, Stats>>) -> bool {
    forall|key: Seq<u8>| #[trigger] total_count(maps, key) <= u64::MAX
}

/// Merging sound mappings gives sound statistics, and under each key the
/// count of all its values.
pub proof fn lemma_merged_all_sound<A: Fn(u64, u64) -> u64>(plus: A, maps: Seq<Map<Seq<u8>, Stats>>)
    requires
        each_sound(maps),
        totals_fit(maps),
    ensures
        all_sound(merged_all(plus, maps)),
        forall|key: Seq<u8>| (#[trigger] stats_at(merged_all(plus, maps), key)).count == total_count(maps, key),
        forall|key: Seq<u8>| #[trigger]
            merged_all(plus, maps).contains_key(key) <==> exists|i: int|
                0 <= i < maps.len() && (#[trigger] maps[i]).contains_key(key),
    decreases maps.len(),
{
    if maps.len() > 0 {
        let earlier = maps.drop_last();
        assert forall|key: Seq<u8>| #[trigger] total_count(earlier, key) <= u64::MAX by {
            assert(total_count(maps, key) <= u64::MAX);
        }
        assert(each_sound(earlier)) by {
            assert forall|i: int| 0 <= i < earlier.len() implies all_sound(#[trigger] earlier[i]) by {
                assert(earlier[i] == maps[i]);
            }
        }
        lemma_merged_all_sound(plus, earlier);
        let before = merged_all(plus, earlier);
        let last = maps.last();
        assert(all_sound(last)) by {
            assert(last == maps[maps.len() - 1]);
        }
        assert forall|key: Seq<u8>|
            (#[trigger] stats_at(merged_all(plus, maps), key)).count == total_count(maps, key) by {
            assert(stats_at(before, key).count == total_count(earlier, key));
            assert(total_count(maps, key) <= u64::MAX);
        }
        assert forall|key: Seq<u8>| #[trigger] merged_all(plus, maps).contains_key(key) implies {
            &&& merged_all(plus, maps)[key].sound()
            &&& merged_all(plus, maps)[key].count >= 1
        } by {
            assert(stats_at(before, key).count == total_count(earlier, key));
            assert(total_count(maps, key) <= u64::MAX);
        }
        assert forall|key: Seq<u8>| #[trigger]
            merged_all(plus, maps).contains_key(key) <==> exists|i: int|
                0 <= i < maps.len() && (#[trigger] maps[i]).contains_key(key) by {
            if before.contains_key(key) {
                let i = choose|i: int| 0 <= i < earlier.len() && (#[trigger] earlier[i]).contains_key(key);
                assert(maps[i].contains_key(key));
            }
            if last.contains_key(key) {
                assert(maps[maps.len() - 1].contains_key(key));
            }
            if exists|i: int| 0 <= i < maps.len() && (#[trigger] maps[i]).contains_key(key) {
                let i = choose|i: int| 0 <= i < maps.len() && (#[trigger] maps[i]).contains_key(key);
                if i < maps.len() - 1 {
                    assert(earlier[i].contains_key(key));
                }
            }
        }
    }
}

/// Taking one mapping out of a sequence takes its counts out of the
/// totals.
pub proof fn lemma_total_without(maps: Seq<Map<Seq<u8>, Stats>>, j: int, key: Seq<u8>)
    requires
        0 <= j < maps.len(),
    ensures
        total_count(maps, key) == total_count(maps.remove(j), key) + stats_at(maps[j], key).count,
        total_count(maps.remove(j), key) >= 0,
    decreases maps.len(),
{
    lemma_total_not_negative(maps.remove(j), key);
    if j == maps.len() - 1 {
        assert(maps.remove(j) =~= maps.drop_last());
    } else {
        lemma_total_without(maps.drop_last(), j, key);
        assert(maps.remove(j).drop_last() =~= maps.drop_last().remove(j));
        assert(maps.remove(j).last() == maps.last());
    }
}

/// A total is not negative.
pub proof fn lemma_total_not_negative(maps: Seq<Map<Seq<u8>, Stats>>, key: Seq<u8>)
    ensures
        total_count(maps, key) >= 0,
    decreases maps.len(),
{
    if maps.len() > 0 {
        lemma_total_not_negative(maps.drop_last(), key);
    }
}

/// Mappings with equal numbers and counts, merged with the same third, give
/// equal numbers and counts.
pub proof fn lemma_merged_equal<A: Fn(u64, u64) -> u64>(
    plus: A,
    a: Map<Seq<u8>, Stats>,
    b: Map<Seq<u8>, Stats>,
    other: Map<Seq<u8>, Stats>,
)
    requires
        entries_equal(a, b),
        all_sound(other),
    ensures
        entries_equal(merged(plus, a, other), merged(plus, b, other)),
{
    assert forall|key: Seq<u8>| merged(plus, a, other).contains_key(key) implies equal_numbers(
        #[trigger] merged(plus, a, other)[key],
        merged(plus, b, other)[key],
    ) by {
        if a.contains_key(key) {
            assert(equal_numbers(a[key], b[key]));
        }
    }
}

/// Two mappings merged into a third, in either order, give equal numbers
/// and counts.
pub proof fn lemma_merge_swaps<A: Fn(u64, u64) -> u64>(
    plus: A,
    into: Map<Seq<u8>, Stats>,
    a: Map<Seq<u8>, Stats>,
    b: Map<Seq<u8>, Stats>,
)
    requires
        all_sound(into),
        all_sound(a),
        all_sound(b),
        three_fit(into, a, b),
    ensures
        entries_equal(merged(plus, merged(plus, into, a), b), merged(plus, merged(plus, into, b), a)),
{
    let left = merged(plus, merged(plus, into, a), b);
    let right = merged(plus, merged(plus, into, b), a);
    assert forall|key: Seq<u8>| left.contains_key(key) implies equal_numbers(
        #[trigger] left[key],
        right[key],
    ) by {
        let x = stats_at(into, key);
        let y = stats_at(a, key);
        let z = stats_at(b, key);
        assert(x.count + y.count + z.count <= u64::MAX);
        lemma_lesser(x.min, y.min, z.min);
        lemma_greater(x.max, y.max, z.max);
        lemma_lesser(x.min, z.min, y.min);
        lemma_greater(x.max, z.max, y.max);
    }
}

/// Equal numbers and counts are passed on: if `a` has those of `b`, and `b`
/// those of `c`, then `a` has those of `c`.
pub proof fn lemma_entries_equal_chain(
    a: Map<Seq<u8>, Stats>,
    b: Map<Seq<u8>, Stats>,
    c: Map<Seq<u8>, Stats>,
)
    requires
        entries_equal(a, b),
        entries_equal(b, c),
    ensures
        entries_equal(a, c),
{
    assert forall|key: Seq<u8>| a.contains_key(key) implies equal_numbers(#[trigger] a[key], c[key]) by {
        assert(equal_numbers(a[key], b[key]));
        assert(equal_numbers(b[key], c[key]));
    }
}

/// Equal numbers and counts hold both ways.
pub proof fn lemma_entries_equal_flip(a: Map<Seq<u8>, Stats>, b: Map<Seq<u8>, Stats>)
    requires
        entries_equal(a, b),
    ensures
        entries_equal(b, a),
{
    assert forall|key: Seq<u8>| b.contains_key(key) implies equal_numbers(#[trigger] b[key], a[key]) by {
        assert(equal_numbers(a[key], b[key]));
    }
}

/// A mapping may be merged last instead of in its place.
pub proof fn lemma_merge_last<A: Fn(u64, u64) -> u64>(plus: A, maps: Seq<Map<Seq<u8>, Stats>>, j: int)
    requires
        each_sound(maps),
        totals_fit(maps),
        0 <= j < maps.len(),
    ensures
        entries_equal(merged_all(plus, maps), merged(plus, merged_all(plus, maps.remove(j)), maps[j])),
    decreases maps.len(),
{
    let chosen = maps[j];
    assert(all_sound(chosen));
    lemma_merged_all_sound(plus, maps);
    if j == maps.len() - 1 {
        assert(maps.remove(j) =~= maps.drop_last());
        lemma_all_sound_equal(merged_all(plus, maps));
    } else {
        let earlier = maps.drop_last();
        let last = maps.last();
        assert(all_sound(last)) by {
            assert(last == maps[maps.len() - 1]);
        }
        lemma_shorter_fits(maps, maps.len() - 1);
        assert(maps.remove(maps.len() - 1) =~= earlier);
        assert(earlier[j] == chosen);
        lemma_merge_last(plus, earlier, j);
        let rest = earlier.remove(j);
        lemma_shorter_fits(earlier, j);
        lemma_merged_all_sound(plus, rest);
        lemma_merged_all_sound(plus, earlier);
        let base = merged_all(plus, rest);
        // merged_all(earlier) has the numbers of merged(base, chosen)
        lemma_merged_equal(plus, merged_all(plus, earlier), merged(plus, base, chosen), last);
        assert forall|key: Seq<u8>|
            (#[trigger] stats_at(base, key)).count + (#[trigger] stats_at(chosen, key)).count + (
            #[trigger] stats_at(last, key)).count <= u64::MAX by {
            lemma_total_without(earlier, j, key);
            assert(total_count(maps, key) <= u64::MAX);
            assert(stats_at(base, key).count == total_count(rest, key));
        }
        lemma_merge_swaps(plus, base, chosen, last);
        assert(maps.remove(j).drop_last() =~= rest);
        assert(maps.remove(j).last() == last);
        lemma_entries_equal_chain(
            merged_all(plus, maps),
            merged(plus, merged(plus, base, chosen), last),
            merged(plus, merged(plus, base, last), chosen),
        );
    }
}

/// Sound statistics have equal numbers with themselves.
proof fn lemma_all_sound_equal(entries: Map<Seq<u8>, Stats>)
    requires
        all_sound(entries),
    ensures
        entries_equal(entries, entries),
{
}

/// Without one of its mappings a sequence still holds sound statistics
/// only, and its totals still fit.
proof fn lemma_shorter_fits(maps: Seq<Map<Seq<u8>, Stats>>, j: int)
    requires
        each_sound(maps),
        totals_fit(maps),
        0 <= j < maps.len(),
    ensures
        each_sound(maps.remove(j)),
        totals_fit(maps.remove(j)),
{
    assert forall|i: int| 0 <= i < maps.remove(j).len() implies all_sound(#[trigger] maps.remove(j)[i]) by {
        if i < j {
            assert(maps.remove(j)[i] == maps[i]);
        } else {
            assert(maps.remove(j)[i] == maps[i + 1]);
        }
    }
    assert forall|key: Seq<u8>| #[trigger] total_count(maps.remove(j), key) <= u64::MAX by {
        lemma_total_without(maps, j, key);
        assert(total_count(maps, key) <= u64::MAX);
    }
}

/// The order of merging does not matter to minimum, maximum and count: the
/// same mappings, merged in any two orders, give the same keys, and under
/// each key equal numbers as minimum and as maximum (a zero may differ in
/// its sign) and the same count. The sums may differ, as addition rounds.
pub proof fn lemma_merge_order<A: Fn(u64, u64) -> u64>(
    plus: A,
    maps: Seq<Map<Seq<u8>, Stats>>,
    other: Seq<Map<Seq<u8>, Stats>>,
)
    requires
        maps.to_multiset() == other.to_multiset(),
        each_sound(maps),
        totals_fit(maps),
    ensures
        each_sound(other),
        totals_fit(other),
        entries_equal(merged_all(plus, maps), merged_all(plus, other)),
    decreases maps.len(),
{
    broadcast use vstd::seq_lib::group_to_multiset_ensures;

    maps.to_multiset_ensures();
    other.to_multiset_ensures();
    assert(maps.len() == other.len());
    if maps.len() == 0 {
        assert(other =~= maps);
        lemma_all_sound_equal(merged_all(plus, maps));
    } else {
        let last = maps.last();
        let earlier = maps.drop_last();
        assert(maps.contains(last)) by {
            assert(maps[maps.len() - 1] == last);
        }
        assert(other.to_multiset().count(last) > 0);
        assert(other.contains(last));
        let j = choose|j: int| 0 <= j < other.len() && other[j] == last;
        let rest = other.remove(j);
        assert(maps.remove(maps.len() - 1) =~= earlier);
        assert(earlier.to_multiset() =~= maps.to_multiset().remove(last));
        assert(rest.to_multiset() =~= other.to_multiset().remove(last));
        lemma_shorter_fits(maps, maps.len() - 1);
        lemma_merge_order(plus, earlier, rest);
        assert(each_sound(other)) by {
            assert forall|i: int| 0 <= i < other.len() implies all_sound(#[trigger] other[i]) by {
                if i < j {
                    assert(rest[i] == other[i]);
                } else if i > j {
                    assert(rest[i - 1] == other[i]);
                } else {
                    assert(all_sound(maps[maps.len() - 1]));
                }
            }
        }
        assert forall|key: Seq<u8>| #[trigger] total_count(other, key) <= u64::MAX by {
            lemma_total_without(other, j, key);
            lemma_total_without(maps, maps.len() - 1, key);
            lemma_merged_all_sound(plus, earlier);
            lemma_merged_all_sound(plus, rest);
            assert(stats_at(merged_all(plus, earlier), key).count == total_count(earlier, key));
            assert(stats_at(merged_all(plus, rest), key).count == total_count(rest, key));
            lemma_counts_equal(merged_all(plus, earlier), merged_all(plus, rest), key);
            assert(total_count(maps, key) <= u64::MAX);
        }
        assert(all_sound(last)) by {
            assert(all_sound(maps[maps.len() - 1]));
        }
        lemma_merged_equal(plus, merged_all(plus, earlier), merged_all(plus, rest), last);
        lemma_merge_last(plus, other, j);
        lemma_entries_equal_flip(merged_all(plus, other), merged(plus, merged_all(plus, rest), last));
        lemma_entries_equal_chain(
            merged_all(plus, maps),
            merged(plus, merged_all(plus, rest), last),
            merged_all(plus, other),
        );
    }
}

/// Mappings with equal numbers and counts have the same count under every
/// key, present or not.
proof fn lemma_counts_equal(a: Map<Seq<u8>, Stats>, b: Map<Seq<u8>, Stats>, key: Seq<u8>)
    requires
        entries_equal(a, b),
    ensures
        stats_at(a, key).count == stats_at(b, key).count,
{
    if a.contains_key(key) {
        assert(equal_numbers(a[key], b[key]));
    }
}

} // verus!
