//! Scanning one range of the input into a mapping.

use vstd::prelude::*;
use vstd::slice::slice_subrange;
use crate::bytes::{absent, lemma_first_is_position, lemma_position, position, DELIMITER, TERMINATOR};
use crate::lines::{after_first_line, first_line, lines_of, next_line, split_field, text_lines, unread};
use crate::laws::{lemma_lines_bounded, lemma_tally_sound};
use crate::mapping::{all_sound, no_entries, stats_at, Mapping};
use crate::ops::{adds, parse_text, parsed, parses};
use crate::reading::{finite, is_finite};
use crate::stats::{observed, Stats};

verus! {

/// Why a line cannot be read.
#[derive(Clone, Copy, Debug, PartialEq, Eq, Structural)]
pub enum ParseError {
    /// The line has no delimiter.
    MalformedLine,
    /// What follows the delimiter is not the literal of a finite number.
    InvalidNumber,
}

impl ParseError {
    /// The error in words.
    pub fn message(&self) -> (text: &'static str)
        ensures
            text@ == match *self {
                ParseError::MalformedLine => "malformed line: missing delimiter"@,
                ParseError::InvalidNumber => "invalid numeric literal"@,
            },
    {
        match self {
            ParseError::MalformedLine => "malformed line: missing delimiter",
            ParseError::InvalidNumber => "invalid numeric literal",
        }
    }
}

/// The key of `line`: what stands before its first delimiter.
pub open spec fn key_of(line: Seq<u8>) -> Seq<u8> {
    line.subrange(0, position(line, DELIMITER))
}

/// The value text of `line`: what stands after its first delimiter.
pub open spec fn value_text_of(line: Seq<u8>) -> Seq<u8> {
    line.subrange(position(line, DELIMITER) + 1, line.len() as int)
}

/// What `line` says: its key and its value, or why it cannot be read. A
/// value that is infinite or not a number is refused.
pub open spec fn line_reading<P: Fn(&[u8]) -> Option<u64>>(parse: P, line: Seq<u8>) -> Result<
    (Seq<u8>, u64),
    ParseError,
> {
    if absent(line, DELIMITER) {
        Err(ParseError::MalformedLine)
    } else {
        match parsed(parse, value_text_of(line)) {
            Some(value) => if finite(value) {
                Ok((key_of(line), value))
            } else {
                Err(ParseError::InvalidNumber)
            },
            None => Err(ParseError::InvalidNumber),
        }
    }
}

/// The mapping that `lines` give, taken in from first to last, or the error
/// of the first line that cannot be read.
pub open spec fn tally<P: Fn(&[u8]) -> Option<u64>, A: Fn(u64, u64) -> u64>(
    parse: P,
    plus: A,
    lines: Seq<Seq<u8>>,
) -> Result<Map<Seq<u8>, Stats>, ParseError>
    decreases lines.len(),
{
    if lines.len() == 0 {
        Ok(no_entries())
    } else {
        match tally(parse, plus, lines.drop_last()) {
            Err(error) => Err(error),
            Ok(entries) => match line_reading(parse, lines.last()) {
                Err(error) => Err(error),
                Ok((key, value)) => Ok(
                    entries.insert(key, observed(plus, stats_at(entries, key), value)),
                ),
            },
        }
    }
}

/// The bytes of `data` from offset `range.0` to offset `range.1`, both
/// included.
pub open spec fn chunk_of(data: Seq<u8>, range: (usize, usize)) -> Seq<u8> {
    data.subrange(range.0 as int, range.1 + 1)
}

/// What a scan or a merge returns, with the mapping as its entries.
pub open spec fn outcome_of(result: Result<Mapping, ParseError>) -> Result<Map<Seq<u8>, Stats>, ParseError> {
    match result {
        Ok(mapping) => Ok(mapping@),
        Err(error) => Err(error),
    }
}

/// Scans the lines of one range of `data` into a mapping: every line is
/// split at its first delimiter, what follows is parsed, and the value is
/// taken into the statistic of the key. The first line that cannot be read
/// ends the scan with its error.
pub fn compute<'a, P: Fn(&[u8]) -> Option<u64>, A: Fn(u64, u64) -> u64>(
    range: (usize, usize),
    data: &'a [u8],
    parse: &P,
    plus: &A,
) -> (result: Result<Mapping<'a>, ParseError>)
    requires
        parses(*parse),
        adds(*plus),
        range.0 <= range.1 + 1 <= data.len(),
    ensures
        outcome_of(result) == tally(*parse, *plus, text_lines(chunk_of(data@, range))),
        result matches Ok(mapping) ==> all_sound(mapping@) && forall|key: Seq<u8>| #[trigger]
            mapping@.contains_key(key) ==> mapping@[key].count <= range.1 + 1 - range.0,
{
    let chunk = slice_subrange(data, range.0, range.1 + 1);
    let mut lines = lines_of(chunk);
    let mut mapping = Mapping::new();
    let ghost all = text_lines(chunk@);
    let ghost mut done: Seq<Seq<u8>> = Seq::empty();
    proof {
        assert(done + text_lines(unread(lines)) =~= all);
        assert(chunk@.len() == range.1 + 1 - range.0);
    }
    loop
        invariant
            parses(*parse),
            adds(*plus),
            chunk@ == chunk_of(data@, range),
            chunk@.len() <= usize::MAX,
            all == text_lines(chunk@),
            done + text_lines(unread(lines)) == all,
            done.len() + unread(lines).len() <= chunk@.len(),
            tally(*parse, *plus, done) == Ok::<Map<Seq<u8>, Stats>, ParseError>(mapping@),
            forall|key: Seq<u8>| #[trigger]
                mapping@.contains_key(key) ==> 1 <= mapping@[key].count <= done.len(),
        ensures
            done == all,
            tally(*parse, *plus, done) == Ok::<Map<Seq<u8>, Stats>, ParseError>(mapping@),
            forall|key: Seq<u8>| #[trigger]
                mapping@.contains_key(key) ==> 1 <= mapping@[key].count <= chunk@.len(),
        decreases unread(lines).len(),
    {
        let ghost rest = unread(lines);
        let line = match next_line(&mut lines) {
            Some(line) => line,
            None => {
                proof {
                    assert(text_lines(rest) =~= Seq::<Seq<u8>>::empty());
                    assert(done + text_lines(rest) =~= done);
                }
                break ;
            },
        };
        proof {
            lemma_position(rest, TERMINATOR);
            assert(text_lines(rest) == seq![first_line(rest)] + text_lines(after_first_line(rest)));
            assert(done.push(line@) + text_lines(unread(lines)) =~= all);
            assert(all.take(done.len() as int + 1) =~= done.push(line@));
            assert(done.push(line@).drop_last() =~= done);
            assert(unread(lines).len() < rest.len());
            assert(done.len() < usize::MAX);
        }
        let (key, text) = match split_field(line, DELIMITER) {
            Some(fields) => fields,
            None => {
                proof {
                    assert(line_reading(*parse, line@) == Err::<(Seq<u8>, u64), ParseError>(
                        ParseError::MalformedLine,
                    ));
                    assert(tally(*parse, *plus, done.push(line@)) is Err);
                    lemma_tally_stops(*parse, *plus, all, done.len() as int + 1);
                }
                return Err(ParseError::MalformedLine);
            },
        };
        proof {
            lemma_first_is_position(line@, DELIMITER, key@.len() as int);
        }
        let value = match parse_text(parse, text) {
            Some(value) => value,
            None => {
                proof {
                    assert(line_reading(*parse, line@) == Err::<(Seq<u8>, u64), ParseError>(
                        ParseError::InvalidNumber,
                    ));
                    assert(tally(*parse, *plus, done.push(line@)) is Err);
                    lemma_tally_stops(*parse, *plus, all, done.len() as int + 1);
                }
                return Err(ParseError::InvalidNumber);
            },
        };
        if !is_finite(value) {
            proof {
                assert(line_reading(*parse, line@) == Err::<(Seq<u8>, u64), ParseError>(
                    ParseError::InvalidNumber,
                ));
                assert(tally(*parse, *plus, done.push(line@)) is Err);
                lemma_tally_stops(*parse, *plus, all, done.len() as int + 1);
            }
            return Err(ParseError::InvalidNumber);
        }
        let ghost before = mapping@;
        assert(stats_at(before, key@).count <= done.len());
        mapping.record(key, value, plus);
        proof {
            assert forall|k: Seq<u8>| #[trigger] mapping@.contains_key(k) implies 1 <= mapping@[k].count
                <= done.len() + 1 by {
                if k != key@ {
                    assert(before.contains_key(k));
                }
            }
            assert(line_reading(*parse, line@) == Ok::<(Seq<u8>, u64), ParseError>((key@, value)));
            done = done.push(line@);
        }
    }
    proof {
        lemma_lines_bounded(chunk@);
        lemma_tally_sound(*parse, *plus, all);
    }
    Ok(mapping)
}

/// Once a line cannot be read, the lines after it change nothing: the
/// error of a prefix is the error of the whole.
pub proof fn lemma_tally_stops<P: Fn(&[u8]) -> Option<u64>, A: Fn(u64, u64) -> u64>(
    parse: P,
    plus: A,
    lines: Seq<Seq<u8>>,
    n: int,
)
    requires
        0 <= n <= lines.len(),
        tally(parse, plus, lines.take(n)) is Err,
    ensures
        tally(parse, plus, lines) == tally(parse, plus, lines.take(n)),
    decreases lines.len() - n,
{
    if n < lines.len() {
        assert(lines.take(n + 1).drop_last() =~= lines.take(n));
        lemma_tally_stops(parse, plus, lines, n + 1);
    } else {
        assert(lines.take(n) =~= lines);
    }
}

} // verus!
