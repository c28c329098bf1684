//! From the input to the merged mapping and the rendered line.

use vstd::prelude::*;
use crate::chunk::{chunk_of, compute, outcome_of, tally, ParseError};
use crate::lines::text_lines;
use crate::mapping::{counts_fit, merged, no_entries, reduce, stats_at, Mapping};
use crate::ops::{adds, means, parses, shows};
use crate::laws::{lemma_ranges_do_not_matter, outcomes_alike};
use crate::partition::{line_aligned, partition, ranges, tiles};
use crate::report::{render, rendered};
use crate::stats::Stats;

verus! {

/// The entries of each mapping.
pub open spec fn entries_of(maps: Seq<Mapping>) -> Seq<Map<Seq<u8>, Stats>> {
    Seq::new(maps.len(), |i: int| maps[i]@)
}

/// All of `maps` merged, from first to last, into a mapping without keys.
pub open spec fn merged_all<A: Fn(u64, u64) -> u64>(plus: A, maps: Seq<Map<Seq<u8>, Stats>>) -> Map<
    Seq<u8>,
    Stats,
>
    decreases maps.len(),
{
    if maps.len() == 0 {
        no_entries()
    } else {
        merged(plus, merged_all(plus, maps.drop_last()), maps.last())
    }
}

/// At no step of merging `maps` has a key more values than a count can
/// hold.
pub open spec fn all_counts_fit<A: Fn(u64, u64) -> u64>(plus: A, maps: Seq<Map<Seq<u8>, Stats>>) -> bool {
    forall|n: int| 0 <= n < maps.len() ==> counts_fit(merged_all(plus, maps.take(n)), #[trigger] maps[n])
}

/// Merges the mappings of all ranges into one.
pub fn merge<'a, A: Fn(u64, u64) -> u64>(maps: &Vec<Mapping<'a>>, plus: &A) -> (answer: Mapping<'a>)
    requires
        adds(*plus),
        all_counts_fit(*plus, entries_of(maps@)),
    ensures
        answer@ == merged_all(*plus, entries_of(maps@)),
{
    let mut answer = Mapping::new();
    let ghost all = entries_of(maps@);
    let mut i: usize = 0;
    proof {
        assert(all.take(0) =~= Seq::<Map<Seq<u8>, Stats>>::empty());
    }
    while i < maps.len()
        invariant
            adds(*plus),
            all == entries_of(maps@),
            all_counts_fit(*plus, all),
            i <= maps.len(),
            answer@ == merged_all(*plus, all.take(i as int)),
        decreases maps.len() - i,
    {
        proof {
            assert(all.take(i + 1).drop_last() =~= all.take(i as int));
            assert(all.take(i + 1).last() == maps[i as int]@);
            assert(counts_fit(merged_all(*plus, all.take(i as int)), all[i as int]));
        }
        reduce(&mut answer, &maps[i], plus);
        i += 1;
    }
    proof {
        assert(all.take(i as int) =~= all);
    }
    answer
}

/// The mapping of `data` cut into `parts`: each range scanned, and the
/// mappings merged in the order of the ranges; or the error of the first
/// line, in that order, that cannot be read.
pub open spec fn aggregated<P: Fn(&[u8]) -> Option<u64>, A: Fn(u64, u64) -> u64>(
    parse: P,
    plus: A,
    data: Seq<u8>,
    parts: Seq<(usize, usize)>,
) -> Result<Map<Seq<u8>, Stats>, ParseError>
    decreases parts.len(),
{
    if parts.len() == 0 {
        Ok(no_entries())
    } else {
        match aggregated(parse, plus, data, parts.drop_last()) {
            Err(error) => Err(error),
            Ok(entries) => match tally(parse, plus, text_lines(chunk_of(data, parts.last()))) {
                Err(error) => Err(error),
                Ok(local) => Ok(merged(plus, entries, local)),
            },
        }
    }
}

/// An error among the first ranges is the error of all.
pub proof fn lemma_aggregated_stops<P: Fn(&[u8]) -> Option<u64>, A: Fn(u64, u64) -> u64>(
    parse: P,
    plus: A,
    data: Seq<u8>,
    parts: Seq<(usize, usize)>,
    n: int,
)
    requires
        0 <= n <= parts.len(),
        aggregated(parse, plus, data, parts.take(n)) is Err,
    ensures
        aggregated(parse, plus, data, parts) == aggregated(parse, plus, data, parts.take(n)),
    decreases parts.len() - n,
{
    if n < parts.len() {
        assert(parts.take(n + 1).drop_last() =~= parts.take(n));
        lemma_aggregated_stops(parse, plus, data, parts, n + 1);
    } else {
        assert(parts.take(n) =~= parts);
    }
}

/// Cuts `data` into `degree` ranges, scans them in order and merges what
/// they give. The first line that cannot be read ends the run with its
/// error.
pub fn aggregate<'a, P: Fn(&[u8]) -> Option<u64>, A: Fn(u64, u64) -> u64>(
    data: &'a [u8],
    degree: usize,
    parse: &P,
    plus: &A,
) -> (result: Result<Mapping<'a>, ParseError>)
    requires
        parses(*parse),
        adds(*plus),
        data.len() > 0,
        degree > 0,
    ensures
        outcome_of(result) == aggregated(*parse, *plus, data@, ranges(data@, degree as int)),
        line_aligned(data@, ranges(data@, degree as int)) ==> outcomes_alike(
            outcome_of(result),
            tally(*parse, *plus, text_lines(data@)),
        ),
{
    let parts = partition(data, degree);
    proof {
        if line_aligned(data@, parts@) {
            lemma_ranges_do_not_matter(*parse, *plus, data@, parts@);
        }
    }
    let mut answer = Mapping::new();
    let mut i: usize = 0;
    proof {
        assert(parts@.take(0) =~= Seq::<(usize, usize)>::empty());
    }
    while i < parts.len()
        invariant
            parses(*parse),
            adds(*plus),
            parts@ == ranges(data@, degree as int),
            tiles(parts@, data.len() as int),
            line_aligned(data@, parts@) ==> outcomes_alike(
                aggregated(*parse, *plus, data@, parts@),
                tally(*parse, *plus, text_lines(data@)),
            ),
            i <= parts.len(),
            aggregated(*parse, *plus, data@, parts@.take(i as int)) == Ok::<
                Map<Seq<u8>, Stats>,
                ParseError,
            >(answer@),
            forall|key: Seq<u8>| #[trigger]
                answer@.contains_key(key) ==> answer@[key].count <= (if i == 0 {
                    0
                } else {
                    parts[i - 1].1 + 1
                }),
        decreases parts.len() - i,
    {
        let range = parts[i];
        proof {
            assert(parts@.take(i + 1).drop_last() =~= parts@.take(i as int));
            assert(parts@.take(i + 1).last() == range);
            assert(range.0 <= range.1 + 1 <= data.len());
            if i > 0 {
                assert(parts[(i - 1) + 1].0 == parts[i - 1].1 + 1);
            }
        }
        let local = match compute(range, data, parse, plus) {
            Ok(local) => local,
            Err(error) => {
                proof {
                    lemma_aggregated_stops(*parse, *plus, data@, parts@, i + 1);
                }
                return Err(error);
            },
        };
        let ghost before = answer@;
        proof {
            assert forall|key: Seq<u8>| #[trigger] local@.contains_key(key) implies stats_at(
                before,
                key,
            ).count + local@[key].count <= u64::MAX by {
                assert(local@[key].count <= range.1 + 1 - range.0);
            }
        }
        reduce(&mut answer, &local, plus);
        proof {
            assert forall|key: Seq<u8>| #[trigger] answer@.contains_key(key) implies answer@[key].count
                <= range.1 + 1 by {
                if local@.contains_key(key) {
                    assert(local@[key].count <= range.1 + 1 - range.0);
                } else {
                    assert(before.contains_key(key));
                }
            }
        }
        i += 1;
    }
    proof {
        assert(parts@.take(i as int) =~= parts@);
    }
    Ok(answer)
}

/// The line for `data`, or the error that ends the run.
pub open spec fn summary<
    P: Fn(&[u8]) -> Option<u64>,
    A: Fn(u64, u64) -> u64,
    M: Fn(u64, u64) -> u64,
    S: Fn(u64) -> Vec<u8>,
>(parse: P, plus: A, mean: M, show: S, data: Seq<u8>, degree: int) -> Result<Seq<u8>, ParseError> {
    match aggregated(parse, plus, data, ranges(data, degree)) {
        Ok(entries) => Ok(rendered(mean, show, entries)),
        Err(error) => Err(error),
    }
}

/// Runs the whole pipeline on `data`: cut, scan, merge, render. What it
/// returns is a function of its arguments, so a second run on the same
/// input returns the same bytes.
pub fn summarize<
    P: Fn(&[u8]) -> Option<u64>,
    A: Fn(u64, u64) -> u64,
    M: Fn(u64, u64) -> u64,
    S: Fn(u64) -> Vec<u8>,
>(data: &[u8], degree: usize, parse: &P, plus: &A, mean: &M, show: &S) -> (result: Result<
    Vec<u8>,
    ParseError,
>)
    requires
        parses(*parse),
        adds(*plus),
        means(*mean),
        shows(*show),
        data.len() > 0,
        degree > 0,
    ensures
        match result {
            Ok(line) => summary(*parse, *plus, *mean, *show, data@, degree as int) == Ok::<
                Seq<u8>,
                ParseError,
            >(line@),
            Err(error) => summary(*parse, *plus, *mean, *show, data@, degree as int) == Err::<
                Seq<u8>,
                ParseError,
            >(error),
        },
{
    match aggregate(data, degree, parse, plus) {
        Ok(answer) => Ok(render(&answer, mean, show)),
        Err(error) => Err(error),
    }
}

} // verus!
