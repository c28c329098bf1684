//! Cutting the input into line-aligned ranges.

use vstd::prelude::*;
use vstd::slice::slice_subrange;
use crate::bytes::{absent, find_byte, first_at, lemma_first_is_position, lemma_position, position, TERMINATOR};

verus! {

/// Where a range that starts at `start` ends before it is moved to a line
/// end: `size` bytes on, or at the last byte of the input if that is nearer.
pub open spec fn nominal_end(len: int, size: int, start: int) -> int {
    if start + size < len - 1 {
        start + size
    } else {
        len - 1
    }
}

/// The first terminator at or after `from`, or `from` itself where no
/// terminator follows.
pub open spec fn aligned_end(data: Seq<u8>, from: int) -> int {
    let tail = data.subrange(from, data.len() as int);
    if absent(tail, TERMINATOR) {
        from
    } else {
        from + position(tail, TERMINATOR)
    }
}

/// `count` ranges of nominal length `size`, the first of which starts at
/// `start`; each of the others starts one past the end of the one before.
pub open spec fn ranges_from(data: Seq<u8>, size: int, start: int, count: nat) -> Seq<(usize, usize)>
    decreases count,
{
    if count == 0 {
        Seq::empty()
    } else {
        let end = aligned_end(data, nominal_end(data.len() as int, size, start));
        seq![(start as usize, end as usize)] + ranges_from(data, size, end + 1, (count - 1) as nat)
    }
}

/// The ranges into which `data` is cut for `degree` workers.
pub open spec fn ranges(data: Seq<u8>, degree: int) -> Seq<(usize, usize)> {
    ranges_from(data, data.len() as int / degree, 0, degree as nat)
}

/// Byte `k` lies in the range `part`, whose two offsets are inclusive.
pub open spec fn within(part: (usize, usize), k: int) -> bool {
    part.0 <= k <= part.1
}

/// The ranges follow one another from the first byte of an input of `len`
/// bytes to its last. A range whose start is one past its end is empty.
pub open spec fn tiles(parts: Seq<(usize, usize)>, len: int) -> bool {
    &&& parts.len() > 0
    &&& parts[0].0 == 0
    &&& parts.last().1 == len - 1
    &&& forall|i: int| 0 <= i < parts.len() ==> (#[trigger] parts[i]).0 <= parts[i].1 + 1 <= len
    &&& forall|i: int| 0 <= i < parts.len() - 1 ==> (#[trigger] parts[i + 1]).0 == parts[i].1 + 1
}

/// Every range ends on a terminator or on the last byte of the input, so
/// that no line lies in two ranges.
pub open spec fn line_aligned(data: Seq<u8>, parts: Seq<(usize, usize)>) -> bool {
    forall|i: int|
        0 <= i < parts.len() ==> {
            ||| (#[trigger] parts[i]).1 == data.len() - 1
            ||| (0 <= parts[i].1 < data.len() && data[parts[i].1 as int] == TERMINATOR)
        }
}

/// A terminator follows every nominal end that is not the last byte.
pub open spec fn terminator_follows(data: Seq<u8>, degree: int, parts: Seq<(usize, usize)>) -> bool {
    forall|i: int|
        0 <= i < parts.len() ==> {
            let from = nominal_end(data.len() as int, data.len() as int / degree, (#[trigger] parts[i]).0 as int);
            from == data.len() - 1 || !absent(data.subrange(from, data.len() as int), TERMINATOR)
        }
}

/// Cuts `data` into `degree` ranges of about `data.len() / degree` bytes.
/// Each range starts where the one before it ended and runs to the first
/// terminator at or after its nominal end.
pub fn partition(data: &[u8], degree: usize) -> (parts: Vec<(usize, usize)>)
    requires
        data.len() > 0,
        degree > 0,
    ensures
        parts@ == ranges(data@, degree as int),
        parts.len() == degree,
        tiles(parts@, data.len() as int),
        forall|i: int|
            0 <= i < degree ==> (#[trigger] parts[i]).1 == aligned_end(
                data@,
                nominal_end(data.len() as int, data.len() as int / degree as int, parts[i].0 as int),
            ),
        terminator_follows(data@, degree as int, parts@) <==> line_aligned(data@, parts@),
{
    let len = data.len();
    let size = len / degree;
    let mut parts: Vec<(usize, usize)> = Vec::new();
    let mut start: usize = 0;
    let mut i: usize = 0;
    while i < degree
        invariant
            len == data.len(),
            len > 0,
            size == len as int / degree as int,
            i <= degree,
            parts.len() == i,
            parts@ + ranges_from(data@, size as int, start as int, (degree - i) as nat) == ranges(
                data@,
                degree as int,
            ),
            start <= len,
            forall|j: int|
                0 <= j < i ==> (#[trigger] parts[j]).1 == aligned_end(
                    data@,
                    nominal_end(len as int, size as int, parts[j].0 as int),
                ),
        decreases degree - i,
    {
        let nominal = if start < len - 1 && size < len - 1 - start {
            start + size
        } else {
            len - 1
        };
        let tail = slice_subrange(data, nominal, len);
        let end = match find_byte(TERMINATOR, tail) {
            Some(n) => {
                proof {
                    lemma_first_is_position(tail@, TERMINATOR, n as int);
                }
                nominal + n
            },
            None => nominal,
        };
        proof {
            assert(nominal == nominal_end(len as int, size as int, start as int));
            assert(end == aligned_end(data@, nominal as int));
        }
        let ghost before = parts@;
        parts.push((start, end));
        proof {
            assert(forall|j: int| 0 <= j < i ==> parts[j] == before[j]);
            assert(before.push((start, end)) + ranges_from(
                data@,
                size as int,
                end + 1,
                (degree - i - 1) as nat,
            ) =~= before + ranges_from(data@, size as int, start as int, (degree - i) as nat));
        }
        start = end + 1;
        i += 1;
    }
    proof {
        assert(parts@ + ranges_from(data@, size as int, start as int, 0) =~= parts@);
        lemma_ranges_tile(data@, degree as int);
        lemma_alignment(data@, degree as int, parts@);
    }
    parts
}

/// Ranges that end as `partition` ends them split no line exactly where a
/// terminator follows every nominal end short of the last byte.
proof fn lemma_alignment(data: Seq<u8>, degree: int, parts: Seq<(usize, usize)>)
    requires
        data.len() > 0,
        degree > 0,
        forall|i: int| 0 <= i < parts.len() ==> (#[trigger] parts[i]).0 <= data.len(),
        forall|i: int|
            0 <= i < parts.len() ==> (#[trigger] parts[i]).1 == aligned_end(
                data,
                nominal_end(data.len() as int, data.len() as int / degree, parts[i].0 as int),
            ),
    ensures
        terminator_follows(data, degree, parts) <==> line_aligned(data, parts),
{
    let len = data.len() as int;
    assert forall|i: int| 0 <= i < parts.len() implies ({
        let from = nominal_end(len, len / degree, (#[trigger] parts[i]).0 as int);
        (from == len - 1 || !absent(data.subrange(from, len), TERMINATOR)) <==> (parts[i].1 == len - 1
            || (0 <= parts[i].1 < len && data[parts[i].1 as int] == TERMINATOR))
    }) by {
        let from = nominal_end(len, len / degree, parts[i].0 as int);
        let tail = data.subrange(from, len);
        assert(0 <= len / degree) by (nonlinear_arith)
            requires
                len >= 0,
                degree > 0,
        ;
        assert(0 <= from < len);
        lemma_position(tail, TERMINATOR);
        if !absent(tail, TERMINATOR) {
            let p = position(tail, TERMINATOR);
            assert(first_at(tail, TERMINATOR, p));
            assert(tail[p] == data[from + p]);
        } else if from < len - 1 {
            assert(parts[i].1 == from);
            assert(tail[0] == data[from]);
        }
    }
}

/// Ranges that tile an input hold each of its bytes exactly once.
pub proof fn lemma_tiles_cover_once(parts: Seq<(usize, usize)>, len: int, k: int)
    requires
        tiles(parts, len),
        0 <= k < len,
    ensures
        exists|i: int| 0 <= i < parts.len() && within(#[trigger] parts[i], k),
        forall|i: int, j: int|
            0 <= i < parts.len() && 0 <= j < parts.len() && within(#[trigger] parts[i], k) && within(
                #[trigger] parts[j],
                k,
            ) ==> i == j,
{
    lemma_covered_up_to(parts, len, k, parts.len() - 1);
    assert forall|i: int, j: int|
        0 <= i < parts.len() && 0 <= j < parts.len() && within(#[trigger] parts[i], k) && within(
            #[trigger] parts[j],
            k,
        ) implies i == j by {
        if i < j {
            lemma_starts_ascend(parts, len, i + 1, j);
        } else if j < i {
            lemma_starts_ascend(parts, len, j + 1, i);
        }
    }
}

/// A later range starts no earlier than an earlier one.
proof fn lemma_starts_ascend(parts: Seq<(usize, usize)>, len: int, i: int, j: int)
    requires
        tiles(parts, len),
        0 <= i <= j < parts.len(),
    ensures
        parts[i].0 <= parts[j].0,
    decreases j - i,
{
    if i < j {
        lemma_starts_ascend(parts, len, i, j - 1);
        assert(parts[j - 1 + 1].0 == parts[j - 1].1 + 1);
    }
}

/// The ranges up to the `n`-th hold every byte up to the end of the `n`-th.
proof fn lemma_covered_up_to(parts: Seq<(usize, usize)>, len: int, k: int, n: int)
    requires
        tiles(parts, len),
        0 <= n < parts.len(),
        0 <= k <= parts[n].1,
    ensures
        exists|i: int| 0 <= i <= n && within(#[trigger] parts[i], k),
    decreases n,
{
    if parts[n].0 <= k {
        assert(within(parts[n], k));
    } else {
        assert(n > 0);
        assert(parts[n - 1 + 1].0 == parts[n - 1].1 + 1);
        lemma_covered_up_to(parts, len, k, n - 1);
    }
}

/// A range ends at or after its nominal end, and within the input.
proof fn lemma_aligned_end(data: Seq<u8>, from: int)
    requires
        0 <= from < data.len(),
    ensures
        from <= aligned_end(data, from) < data.len(),
{
    lemma_position(data.subrange(from, data.len() as int), TERMINATOR);
}

/// What holds of `count` ranges from `start` on: each lies within the
/// input, each starts where the one before it ended, and the last ends at
/// the last byte of the input or `count` nominal lengths after `start`.
proof fn lemma_ranges_from(data: Seq<u8>, size: int, start: int, count: nat)
    requires
        0 < data.len() <= usize::MAX,
        size >= 0,
        0 <= start <= data.len(),
        count > 0,
    ensures
        ranges_from(data, size, start, count).len() == count,
        ranges_from(data, size, start, count)[0].0 == start,
        forall|i: int|
            0 <= i < count ==> (#[trigger] ranges_from(data, size, start, count)[i]).0 <= ranges_from(
                data,
                size,
                start,
                count,
            )[i].1 + 1 <= data.len(),
        forall|i: int|
            0 <= i < count - 1 ==> (#[trigger] ranges_from(data, size, start, count)[i + 1]).0
                == ranges_from(data, size, start, count)[i].1 + 1,
        ranges_from(data, size, start, count).last().1 + 1 == data.len() || ranges_from(
            data,
            size,
            start,
            count,
        ).last().1 + 1 >= start + count * (size + 1),
    decreases count,
{
    let len = data.len() as int;
    let from = nominal_end(len, size, start);
    lemma_aligned_end(data, from);
    let end = aligned_end(data, from);
    let all = ranges_from(data, size, start, count);
    if count == 1 {
        assert(ranges_from(data, size, end + 1, 0) =~= Seq::<(usize, usize)>::empty());
        assert(all =~= seq![(start as usize, end as usize)]);
        assert(1 * (size + 1) == size + 1) by (nonlinear_arith);
    } else {
        let rest = ranges_from(data, size, end + 1, (count - 1) as nat);
        lemma_ranges_from(data, size, end + 1, (count - 1) as nat);
        assert(all =~= seq![(start as usize, end as usize)] + rest);
        assert forall|i: int| 0 <= i < count implies (#[trigger] all[i]).0 <= all[i].1 + 1 <= len by {
            if i > 0 {
                assert(all[i] == rest[i - 1]);
            }
        }
        assert forall|i: int| 0 <= i < count - 1 implies (#[trigger] all[i + 1]).0 == all[i].1 + 1 by {
            assert(all[i + 1] == rest[i]);
            if i > 0 {
                assert(all[i] == rest[i - 1]);
                assert(rest[(i - 1) + 1].0 == rest[i - 1].1 + 1);
            }
        }
        assert(all.last() == rest.last());
        assert(count * (size + 1) == (count - 1) * (size + 1) + size + 1) by (nonlinear_arith);
    }
}

/// The ranges into which an input is cut tile it, whatever the degree.
pub proof fn lemma_ranges_tile(data: Seq<u8>, degree: int)
    requires
        0 < data.len() <= usize::MAX,
        degree > 0,
    ensures
        ranges(data, degree).len() == degree,
        tiles(ranges(data, degree), data.len() as int),
{
    let len = data.len() as int;
    assert(0 <= len / degree && degree * (len / degree + 1) > len) by (nonlinear_arith)
        requires
            degree > 0,
            len >= 0,
    ;
    lemma_ranges_from(data, len / degree, 0, degree as nat);
}

/// For one worker the input is one range, which splits no line.
pub proof fn lemma_single_range(data: Seq<u8>)
    requires
        0 < data.len() <= usize::MAX,
    ensures
        ranges(data, 1) == seq![(0usize, (data.len() - 1) as usize)],
        line_aligned(data, ranges(data, 1)),
{
    lemma_ranges_tile(data, 1);
    let all = ranges(data, 1);
    assert(all[0].0 == 0 && all.last().1 == data.len() - 1);
    assert(all =~= seq![(0usize, (data.len() - 1) as usize)]);
}

} // verus!
