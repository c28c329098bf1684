//! The order of keys: byte strings compared byte by byte.

use vstd::prelude::*;

verus! {

/// `a` and `b` agree on their first `i` bytes, and there `a` ends before
/// `b` does or has the smaller byte.
pub open spec fn ahead_at(a: Seq<u8>, b: Seq<u8>, i: int) -> bool {
    &&& 0 <= i <= a.len()
    &&& i < b.len()
    &&& forall|n: int| 0 <= n < i ==> a[n] == b[n]
    &&& i < a.len() ==> a[i] < b[i]
}

/// `a` comes before `b` in lexicographic byte order.
pub open spec fn precedes(a: Seq<u8>, b: Seq<u8>) -> bool {
    exists|i: int| ahead_at(a, b, i)
}

/// No key comes before one that stands earlier in `keys`.
pub open spec fn ascending(keys: Seq<Seq<u8>>) -> bool {
    forall|i: int, j: int| 0 <= i < j < keys.len() ==> !precedes(#[trigger] keys[j], #[trigger] keys[i])
}

/// Every key comes before those that stand later in `keys`.
pub open spec fn strictly_ascending(keys: Seq<Seq<u8>>) -> bool {
    forall|i: int, j: int| 0 <= i < j < keys.len() ==> precedes(#[trigger] keys[i], #[trigger] keys[j])
}

/// The keys of `domain` from first to last.
pub open spec fn key_order(domain: Set<Seq<u8>>) -> Seq<Seq<u8>> {
    choose|keys: Seq<Seq<u8>>| strictly_ascending(keys) && keys.to_set() == domain
}

/// No key comes before itself.
pub proof fn lemma_precedes_irreflexive(a: Seq<u8>)
    ensures
        !precedes(a, a),
{
}

/// The order is transitive.
pub proof fn lemma_precedes_transitive(a: Seq<u8>, b: Seq<u8>, c: Seq<u8>)
    requires
        precedes(a, b),
        precedes(b, c),
    ensures
        precedes(a, c),
{
    let i = choose|i: int| ahead_at(a, b, i);
    let j = choose|j: int| ahead_at(b, c, j);
    if i < j {
        assert(ahead_at(a, c, i));
    } else {
        assert(ahead_at(a, c, j));
    }
}

/// Of two different keys one comes before the other.
pub proof fn lemma_precedes_total(a: Seq<u8>, b: Seq<u8>)
    requires
        a != b,
    ensures
        precedes(a, b) || precedes(b, a),
{
    lemma_differ_from(a, b, 0);
}

/// Two different keys that agree on their first `n` bytes are ordered.
proof fn lemma_differ_from(a: Seq<u8>, b: Seq<u8>, n: int)
    requires
        a != b,
        0 <= n <= a.len(),
        n <= b.len(),
        forall|m: int| 0 <= m < n ==> a[m] == b[m],
    ensures
        precedes(a, b) || precedes(b, a),
    decreases a.len() - n,
{
    if n == a.len() {
        if n == b.len() {
            assert(a =~= b);
        } else {
            assert(ahead_at(a, b, n));
        }
    } else if n == b.len() {
        assert(ahead_at(b, a, n));
    } else if a[n] < b[n] {
        assert(ahead_at(a, b, n));
    } else if b[n] < a[n] {
        assert(ahead_at(b, a, n));
    } else {
        lemma_differ_from(a, b, n + 1);
    }
}

/// Keys that ascend and differ from one another ascend strictly.
pub proof fn lemma_distinct_ascending(keys: Seq<Seq<u8>>)
    requires
        ascending(keys),
        keys.no_duplicates(),
    ensures
        strictly_ascending(keys),
{
    assert forall|i: int, j: int| 0 <= i < j < keys.len() implies precedes(
        #[trigger] keys[i],
        #[trigger] keys[j],
    ) by {
        lemma_precedes_total(keys[i], keys[j]);
    }
}

/// A set of keys has one order: two strictly ascending sequences of the
/// same keys are the same sequence.
pub proof fn lemma_order_unique(a: Seq<Seq<u8>>, b: Seq<Seq<u8>>)
    requires
        strictly_ascending(a),
        strictly_ascending(b),
        a.to_set() == b.to_set(),
    ensures
        a == b,
    decreases a.len(),
{
    lemma_strict_no_duplicates(a);
    lemma_strict_no_duplicates(b);
    a.unique_seq_to_set();
    b.unique_seq_to_set();
    if a.len() == 0 {
        assert(a =~= b);
    } else {
        let x = a.last();
        let y = b.last();
        assert(a.to_set().contains(x)) by {
            assert(a[a.len() - 1] == x);
        }
        assert(b.to_set().contains(y)) by {
            assert(b[b.len() - 1] == y);
        }
        let i = choose|i: int| 0 <= i < b.len() && b[i] == x;
        let j = choose|j: int| 0 <= j < a.len() && a[j] == y;
        if x != y {
            assert(precedes(b[i], b[b.len() - 1]));
            assert(precedes(a[j], a[a.len() - 1]));
            lemma_precedes_transitive(x, y, x);
            lemma_precedes_irreflexive(x);
        }
        let a0 = a.drop_last();
        let b0 = b.drop_last();
        assert forall|k: Seq<u8>| a0.to_set().contains(k) <==> b0.to_set().contains(k) by {
            if a0.contains(k) {
                let n = choose|n: int| 0 <= n < a0.len() && a0[n] == k;
                assert(a[n] == k && k != x);
                assert(a.to_set().contains(k));
                let m = choose|m: int| 0 <= m < b.len() && b[m] == k;
                assert(b0[m] == k);
            }
            if b0.contains(k) {
                let n = choose|n: int| 0 <= n < b0.len() && b0[n] == k;
                assert(b[n] == k && k != y);
                assert(b.to_set().contains(k));
                let m = choose|m: int| 0 <= m < a.len() && a[m] == k;
                assert(a0[m] == k);
            }
        }
        assert(a0.to_set() =~= b0.to_set());
        assert(strictly_ascending(a0)) by {
            assert forall|i: int, j: int| 0 <= i < j < a0.len() implies precedes(
                #[trigger] a0[i],
                #[trigger] a0[j],
            ) by {
                assert(precedes(a[i], a[j]));
            }
        }
        assert(strictly_ascending(b0)) by {
            assert forall|i: int, j: int| 0 <= i < j < b0.len() implies precedes(
                #[trigger] b0[i],
                #[trigger] b0[j],
            ) by {
                assert(precedes(b[i], b[j]));
            }
        }
        lemma_order_unique(a0, b0);
        assert(a =~= a0.push(x));
        assert(b =~= b0.push(y));
    }
}

/// Keys that ascend strictly differ from one another.
pub proof fn lemma_strict_no_duplicates(keys: Seq<Seq<u8>>)
    requires
        strictly_ascending(keys),
    ensures
        keys.no_duplicates(),
{
    assert forall|i: int, j: int| 0 <= i < keys.len() && 0 <= j < keys.len() && i != j implies keys[i]
        != keys[j] by {
        if i < j {
            assert(precedes(keys[i], keys[j]));
        } else {
            assert(precedes(keys[j], keys[i]));
        }
    }
}

/// The order of a finite set of keys is the sequence that holds them from
/// first to last.
pub proof fn lemma_key_order(keys: Seq<Seq<u8>>)
    requires
        strictly_ascending(keys),
    ensures
        key_order(keys.to_set()) == keys,
{
    let chosen = key_order(keys.to_set());
    assert(strictly_ascending(chosen) && chosen.to_set() == keys.to_set());
    lemma_order_unique(chosen, keys);
}

} // verus!
