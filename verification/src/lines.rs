//! Lines and their two fields.

use vstd::prelude::*;
use bstr::ByteSlice;
use crate::bytes::{absent, first_at, position, TERMINATOR};

verus! {

/// The byte that a line may carry before its terminator.
pub const RETURN: u8 = 13;

/// `line` without a carriage return at its end.
pub open spec fn without_return(line: Seq<u8>) -> Seq<u8> {
    if line.len() > 0 && line.last() == RETURN {
        line.drop_last()
    } else {
        line
    }
}

/// The first line of `bytes`, without its terminator. A line ends with a
/// terminator, which a carriage return may precede, or with the input.
pub open spec fn first_line(bytes: Seq<u8>) -> Seq<u8> {
    if absent(bytes, TERMINATOR) {
        bytes
    } else {
        without_return(bytes.subrange(0, position(bytes, TERMINATOR)))
    }
}

/// What follows the first line of `bytes` and its terminator.
pub open spec fn after_first_line(bytes: Seq<u8>) -> Seq<u8> {
    if absent(bytes, TERMINATOR) {
        Seq::empty()
    } else {
        bytes.subrange(position(bytes, TERMINATOR) + 1, bytes.len() as int)
    }
}

/// The lines of `bytes`, each without its terminator. No line follows a
/// terminator that ends the input.
pub open spec fn text_lines(bytes: Seq<u8>) -> Seq<Seq<u8>>
    decreases bytes.len(),
    via text_lines_ends
{
    if bytes.len() == 0 {
        Seq::empty()
    } else {
        seq![first_line(bytes)] + text_lines(after_first_line(bytes))
    }
}

#[via_fn]
proof fn text_lines_ends(bytes: Seq<u8>) {
    crate::bytes::lemma_position(bytes, TERMINATOR);
}

/// The line iterator of the crate `bstr`.
#[verifier::external_type_specification]
#[verifier::external_body]
pub struct ExLines<'a>(bstr::Lines<'a>);

/// The bytes that a line iterator has not yet handed out.
pub uninterp spec fn unread(lines: bstr::Lines) -> Seq<u8>;

/// Calls `bstr::ByteSlice::lines`, which returns an iterator that has all
/// of `bytes` before it.
#[verifier::external_body]
pub(crate) fn lines_of<'a>(bytes: &'a [u8]) -> (lines: bstr::Lines<'a>)
    ensures
        unread(lines) == bytes@,
{
    bytes.lines()
}

/// Calls `next` on a line iterator of `bstr`. With nothing unread it
/// returns `None`. Else it returns the unread bytes up to the first
/// terminator, without that terminator and without a carriage return just
/// before it, or all of them where there is no terminator, and leaves
/// unread what follows the terminator.
#[verifier::external_body]
pub(crate) fn next_line<'a>(lines: &mut bstr::Lines<'a>) -> (line: Option<&'a [u8]>)
    ensures
        unread(*old(lines)).len() == 0 ==> line is None && unread(*final(lines)) == unread(*old(lines)),
        unread(*old(lines)).len() > 0 ==> line is Some && line->0@ == first_line(unread(*old(lines)))
            && unread(*final(lines)) == after_first_line(unread(*old(lines))),
{
    lines.next()
}

/// Calls `bstr::ByteSlice::split_once_str` with the one byte `delimiter` as
/// the splitter. It returns what stands before and what stands after the
/// first occurrence of `delimiter` in `line`, or `None` where there is no
/// occurrence.
#[verifier::external_body]
pub(crate) fn split_field<'a>(line: &'a [u8], delimiter: u8) -> (fields: Option<(&'a [u8], &'a [u8])>)
    ensures
        match fields {
            Some((before, after)) => {
                &&& first_at(line@, delimiter, before@.len() as int)
                &&& before@ == line@.subrange(0, before@.len() as int)
                &&& after@ == line@.subrange(before@.len() as int + 1, line@.len() as int)
            },
            None => absent(line@, delimiter),
        },
{
    line.split_once_str(&[delimiter])
}

} // verus!
