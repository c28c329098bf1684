//! Rendering a mapping as one line of text.

use vstd::prelude::*;
use crate::bytes::append;
use crate::mapping::Mapping;
use crate::ops::{means, shows};
use crate::order::{ascending, key_order, lemma_distinct_ascending, lemma_key_order};
use crate::stats::{numbers, Stats};

verus! {

/// `{`, which opens the line.
pub const OPEN: u8 = 123;

/// `}`, which closes the line.
pub const CLOSE: u8 = 125;

/// `=`, which stands between a key and its numbers.
pub const EQUALS: u8 = 61;

/// `,`, which with a space stands between two entries.
pub const COMMA: u8 = 44;

/// The space after a comma.
pub const SPACE: u8 = 32;

/// The bytes of each key.
pub open spec fn key_bytes(keys: Seq<&[u8]>) -> Seq<Seq<u8>> {
    Seq::new(keys.len(), |i: int| keys[i]@)
}

/// Calls `sort` of std on the keys, which puts them in ascending order.
/// Byte strings are ordered lexicographically, byte by byte. The keys
/// after the call are those before it, each as often as before.
#[verifier::external_body]
fn sort_keys(keys: &mut Vec<&[u8]>)
    ensures
        ascending(key_bytes(final(keys)@)),
        key_bytes(final(keys)@).to_multiset() == key_bytes(old(keys)@).to_multiset(),
{
    keys.sort();
}

/// One entry: `key=min/mean/max`.
pub open spec fn entry<M: Fn(u64, u64) -> u64, S: Fn(u64) -> Vec<u8>>(
    mean: M,
    show: S,
    key: Seq<u8>,
    stats: Stats,
) -> Seq<u8> {
    key + seq![EQUALS] + numbers(mean, show, stats)
}

/// The entries of `keys` in their order, with a comma and a space between
/// two of them.
pub open spec fn listed<M: Fn(u64, u64) -> u64, S: Fn(u64) -> Vec<u8>>(
    mean: M,
    show: S,
    entries: Map<Seq<u8>, Stats>,
    keys: Seq<Seq<u8>>,
) -> Seq<u8>
    decreases keys.len(),
{
    if keys.len() == 0 {
        Seq::empty()
    } else if keys.len() == 1 {
        entry(mean, show, keys[0], entries[keys[0]])
    } else {
        listed(mean, show, entries, keys.drop_last()) + seq![COMMA, SPACE] + entry(
            mean,
            show,
            keys.last(),
            entries[keys.last()],
        )
    }
}

/// The line for `entries`: its keys in ascending order, each with its
/// numbers, in braces.
pub open spec fn rendered<M: Fn(u64, u64) -> u64, S: Fn(u64) -> Vec<u8>>(
    mean: M,
    show: S,
    entries: Map<Seq<u8>, Stats>,
) -> Seq<u8> {
    seq![OPEN] + listed(mean, show, entries, key_order(entries.dom())) + seq![CLOSE]
}

/// Renders `answer` as `{key=min/mean/max, ...}`, the keys in ascending
/// lexicographic byte order. `mean` gives the mean for a sum and a count,
/// `show` the text of a number.
pub fn render<'a, M: Fn(u64, u64) -> u64, S: Fn(u64) -> Vec<u8>>(
    answer: &Mapping<'a>,
    mean: &M,
    show: &S,
) -> (out: Vec<u8>)
    requires
        means(*mean),
        shows(*show),
    ensures
        out@ == rendered(*mean, *show, answer@),
{
    let mut names = answer.keys();
    let ghost found = names@;
    let ghost unsorted = key_bytes(found);
    sort_keys(&mut names);
    let ghost keys = key_bytes(names@);
    proof {
        assert(unsorted.no_duplicates());
        unsorted.lemma_multiset_has_no_duplicates();
        keys.lemma_multiset_has_no_duplicates_conv();
        lemma_distinct_ascending(keys);
        assert forall|key: Seq<u8>| keys.to_set().contains(key) <==> answer@.dom().contains(key) by {
            broadcast use vstd::seq_lib::to_multiset_contains;

            assert(keys.contains(key) <==> keys.to_multiset().count(key) > 0);
            assert(unsorted.contains(key) <==> unsorted.to_multiset().count(key) > 0);
            if unsorted.contains(key) {
                let n = choose|n: int| 0 <= n < unsorted.len() && unsorted[n] == key;
                assert(answer@.contains_key(found[n]@));
            }
            if answer@.contains_key(key) {
                let n = choose|n: int| 0 <= n < found.len() && #[trigger] found[n]@ == key;
                assert(unsorted[n] == key);
            }
        }
        assert(keys.to_set() =~= answer@.dom());
        lemma_key_order(keys);
    }
    let mut out: Vec<u8> = Vec::new();
    out.push(OPEN);
    let mut i: usize = 0;
    while i < names.len()
        invariant
            means(*mean),
            shows(*show),
            i <= names.len(),
            keys == key_bytes(names@),
            forall|n: int| 0 <= n < keys.len() ==> answer@.contains_key(#[trigger] keys[n]),
            out@ == seq![OPEN] + listed(*mean, *show, answer@, keys.take(i as int)),
        decreases names.len() - i,
    {
        if i > 0 {
            out.push(COMMA);
            out.push(SPACE);
        }
        let key = names[i];
        assert(key@ == keys[i as int]);
        append(&mut out, key);
        out.push(EQUALS);
        let stats = match answer.get(key) {
            Some(stats) => stats,
            None => Stats::default(),
        };
        let cell = stats.text(mean, show);
        append(&mut out, cell.as_slice());
        proof {
            let before = keys.take(i as int);
            let now = keys.take(i + 1);
            assert(now.drop_last() =~= before);
            assert(now.last() == key@);
            assert(stats == answer@[key@]);
            let item = entry(*mean, *show, key@, stats);
            assert(item == key@ + seq![EQUALS] + cell@);
            if i == 0 {
                assert(before =~= Seq::<Seq<u8>>::empty());
                assert(listed(*mean, *show, answer@, before) =~= Seq::<u8>::empty());
                assert(now[0] == key@);
                assert(out@ =~= seq![OPEN] + item);
            } else {
                assert(out@ =~= seq![OPEN] + listed(*mean, *show, answer@, before) + seq![COMMA, SPACE]
                    + item);
                assert(out@ =~= seq![OPEN] + (listed(*mean, *show, answer@, before) + seq![COMMA, SPACE]
                    + item));
            }
        }
        i += 1;
    }
    out.push(CLOSE);
    proof {
        assert(keys.take(i as int) =~= keys);
    }
    out
}

} // verus!
