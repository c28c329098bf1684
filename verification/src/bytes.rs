//! Searching byte strings.

use vstd::prelude::*;

verus! {

/// The byte that ends a line.
pub const TERMINATOR: u8 = 10;

/// The byte that separates a key from its value.
pub const DELIMITER: u8 = 59;

/// `needle` does not occur in `hay`.
pub open spec fn absent(hay: Seq<u8>, needle: u8) -> bool {
    forall|j: int| 0 <= j < hay.len() ==> hay[j] != needle
}

/// `i` is the index of the first occurrence of `needle` in `hay`.
pub open spec fn first_at(hay: Seq<u8>, needle: u8, i: int) -> bool {
    &&& 0 <= i < hay.len()
    &&& hay[i] == needle
    &&& forall|j: int| 0 <= j < i ==> hay[j] != needle
}

/// The index of the first occurrence of `needle` in `hay`, or the length of
/// `hay` where there is none.
pub open spec fn position(hay: Seq<u8>, needle: u8) -> int {
    if absent(hay, needle) {
        hay.len() as int
    } else {
        choose|i: int| first_at(hay, needle, i)
    }
}

/// `position` is the first occurrence where there is one.
pub proof fn lemma_position(hay: Seq<u8>, needle: u8)
    ensures
        0 <= position(hay, needle) <= hay.len(),
        absent(hay, needle) <==> position(hay, needle) == hay.len(),
        !absent(hay, needle) ==> first_at(hay, needle, position(hay, needle)),
        forall|j: int| 0 <= j < position(hay, needle) ==> hay[j] != needle,
{
    if !absent(hay, needle) {
        let j = choose|j: int| 0 <= j < hay.len() && hay[j] == needle;
        lemma_some_first(hay, needle, j);
    }
}

/// An occurrence at `j` means that there is a first occurrence at or before `j`.
proof fn lemma_some_first(hay: Seq<u8>, needle: u8, j: int)
    requires
        0 <= j < hay.len(),
        hay[j] == needle,
    ensures
        exists|i: int| first_at(hay, needle, i) && i <= j,
    decreases j,
{
    if exists|k: int| 0 <= k < j && hay[k] == needle {
        let k = choose|k: int| 0 <= k < j && hay[k] == needle;
        lemma_some_first(hay, needle, k);
    } else {
        assert(first_at(hay, needle, j));
    }
}

/// A first occurrence is the position.
pub proof fn lemma_first_is_position(hay: Seq<u8>, needle: u8, i: int)
    requires
        first_at(hay, needle, i),
    ensures
        position(hay, needle) == i,
{
    lemma_position(hay, needle);
}

/// Appends `bytes` to `out`.
pub(crate) fn append(out: &mut Vec<u8>, bytes: &[u8])
    ensures
        final(out)@ == old(out)@ + bytes@,
{
    let mut i: usize = 0;
    while i < bytes.len()
        invariant
            i <= bytes.len(),
            out@ == old(out)@ + bytes@.take(i as int),
        decreases bytes.len() - i,
    {
        out.push(bytes[i]);
        proof {
            assert(bytes@.take(i + 1) =~= bytes@.take(i as int).push(bytes@[i as int]));
        }
        i += 1;
    }
    proof {
        assert(bytes@.take(i as int) =~= bytes@);
    }
}

/// Calls `memchr::memchr`, which returns the index of the first occurrence
/// of `needle` in `hay`, or `None` where `needle` does not occur.
#[verifier::external_body]
pub(crate) fn find_byte(needle: u8, hay: &[u8]) -> (found: Option<usize>)
    ensures
        match found {
            Some(i) => first_at(hay@, needle, i as int),
            None => absent(hay@, needle),
        },
{
    memchr::memchr(needle, hay)
}

} // verus!
