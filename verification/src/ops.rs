//! What the library asks of the operations that its caller hands in.
//!
//! Parsing a decimal literal, adding two values and formatting a value all
//! round, so the library takes them as functions on bit patterns and text.

use vstd::prelude::*;

verus! {

/// `plus` accepts any two bit patterns and returns one result for them.
pub open spec fn adds<A: Fn(u64, u64) -> u64>(plus: A) -> bool {
    &&& forall|a: u64, b: u64| call_requires(plus, (a, b))
    &&& forall|a: u64, b: u64, r1: u64, r2: u64|
        call_ensures(plus, (a, b), r1) && call_ensures(plus, (a, b), r2) ==> r1 == r2
}

/// What `plus` returns for `a` and `b`.
pub open spec fn summed<A: Fn(u64, u64) -> u64>(plus: A, a: u64, b: u64) -> u64 {
    choose|r: u64| call_ensures(plus, (a, b), r)
}

/// `parse` accepts any text and returns one result for it.
pub open spec fn parses<P: Fn(&[u8]) -> Option<u64>>(parse: P) -> bool {
    &&& forall|text: &[u8]| call_requires(parse, (text,))
    &&& forall|text: &[u8], other: &[u8], r1: Option<u64>, r2: Option<u64>|
        text@ == other@ && call_ensures(parse, (text,), r1) && call_ensures(parse, (other,), r2)
            ==> r1 == r2
}

/// `parse` may return `r` for `text`.
pub open spec fn may_parse<P: Fn(&[u8]) -> Option<u64>>(
    parse: P,
    text: Seq<u8>,
    r: Option<u64>,
) -> bool {
    exists|given: &[u8]| given@ == text && #[trigger] call_ensures(parse, (given,), r)
}

/// What `parse` returns for `text`.
pub open spec fn parsed<P: Fn(&[u8]) -> Option<u64>>(parse: P, text: Seq<u8>) -> Option<u64> {
    choose|r: Option<u64>| may_parse(parse, text, r)
}

/// `mean` accepts any sum and count and returns one result for them.
pub open spec fn means<M: Fn(u64, u64) -> u64>(mean: M) -> bool {
    &&& forall|sum: u64, count: u64| call_requires(mean, (sum, count))
    &&& forall|sum: u64, count: u64, r1: u64, r2: u64|
        call_ensures(mean, (sum, count), r1) && call_ensures(mean, (sum, count), r2) ==> r1 == r2
}

/// What `mean` returns for `sum` and `count`.
pub open spec fn mean_of<M: Fn(u64, u64) -> u64>(mean: M, sum: u64, count: u64) -> u64 {
    choose|r: u64| call_ensures(mean, (sum, count), r)
}

/// `show` accepts any bit pattern and returns one text for it.
pub open spec fn shows<S: Fn(u64) -> Vec<u8>>(show: S) -> bool {
    &&& forall|value: u64| call_requires(show, (value,))
    &&& forall|value: u64, r1: Vec<u8>, r2: Vec<u8>|
        call_ensures(show, (value,), r1) && call_ensures(show, (value,), r2) ==> r1@ == r2@
}

/// The text that `show` returns for `value`.
pub open spec fn shown<S: Fn(u64) -> Vec<u8>>(show: S, value: u64) -> Seq<u8> {
    (choose|r: Vec<u8>| call_ensures(show, (value,), r))@
}

/// Calls `plus`.
pub(crate) fn sum_of<A: Fn(u64, u64) -> u64>(plus: &A, a: u64, b: u64) -> (r: u64)
    requires
        adds(*plus),
    ensures
        r == summed(*plus, a, b),
{
    plus(a, b)
}

/// Calls `parse`.
pub(crate) fn parse_text<P: Fn(&[u8]) -> Option<u64>>(parse: &P, text: &[u8]) -> (r: Option<u64>)
    requires
        parses(*parse),
    ensures
        r == parsed(*parse, text@),
{
    let r = parse(text);
    proof {
        let chosen = parsed(*parse, text@);
        assert(may_parse(*parse, text@, r));
        let given = choose|given: &[u8]|
            given@ == text@ && #[trigger] call_ensures(*parse, (given,), chosen);
        assert(call_ensures(*parse, (given,), chosen));
    }
    r
}

/// Calls `mean`.
pub(crate) fn mean_value<M: Fn(u64, u64) -> u64>(mean: &M, sum: u64, count: u64) -> (r: u64)
    requires
        means(*mean),
    ensures
        r == mean_of(*mean, sum, count),
{
    mean(sum, count)
}

/// Calls `show`.
pub(crate) fn show_value<S: Fn(u64) -> Vec<u8>>(show: &S, value: u64) -> (text: Vec<u8>)
    requires
        shows(*show),
    ensures
        text@ == shown(*show, value),
{
    show(value)
}

} // verus!
