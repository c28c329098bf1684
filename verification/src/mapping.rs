//! The mapping from key to statistic.

use vstd::prelude::*;
use std::collections::HashMap;
use rustc_hash::FxBuildHasher;
use crate::ops::adds;
use crate::stats::{empty_stats, folded, observed, Stats};

verus! {

/// The hasher builder of the crate `rustc_hash`.
#[verifier::external_type_specification]
#[verifier::external_body]
pub struct ExFxBuildHasher(FxBuildHasher);

/// The entries of a hash table keyed by byte strings: each key's bytes and
/// the statistic stored under them.
pub uninterp spec fn table_entries(table: HashMap<&[u8], Stats, FxBuildHasher>) -> Map<
    Seq<u8>,
    Stats,
>;

/// Calls `HashMap::default` with the hasher of `rustc_hash`, which returns
/// a table without entries.
#[verifier::external_body]
fn table_new<'a>() -> (table: HashMap<&'a [u8], Stats, FxBuildHasher>)
    ensures
        table_entries(table) == no_entries(),
{
    HashMap::default()
}

/// Calls `HashMap::get`, which returns the statistic stored under the bytes
/// of `key`, or `None` where the table has no such key.
#[verifier::external_body]
fn table_get(table: &HashMap<&[u8], Stats, FxBuildHasher>, key: &[u8]) -> (found: Option<Stats>)
    ensures
        found == if table_entries(*table).contains_key(key@) {
            Some(table_entries(*table)[key@])
        } else {
            None
        },
{
    match table.get(key) {
        Some(stats) => Some(*stats),
        None => None,
    }
}

/// Calls `HashMap::insert`, which stores `stats` under the bytes of `key`,
/// in place of what was stored under them, and leaves the other entries.
#[verifier::external_body]
fn table_insert<'a>(table: &mut HashMap<&'a [u8], Stats, FxBuildHasher>, key: &'a [u8], stats: Stats)
    ensures
        table_entries(*final(table)) == table_entries(*old(table)).insert(key@, stats),
{
    table.insert(key, stats);
}

/// Calls `HashMap::keys` and collects what it yields: every key of the
/// table once, in an order that is not stated.
#[verifier::external_body]
fn table_keys<'a>(table: &HashMap<&'a [u8], Stats, FxBuildHasher>) -> (keys: Vec<&'a [u8]>)
    ensures
        forall|i: int| 0 <= i < keys.len() ==> table_entries(*table).contains_key(#[trigger] keys[i]@),
        forall|i: int, j: int| 0 <= i < j < keys.len() ==> #[trigger] keys[i]@ != #[trigger] keys[j]@,
        forall|key: Seq<u8>| #[trigger]
            table_entries(*table).contains_key(key) ==> exists|i: int|
                0 <= i < keys.len() && #[trigger] keys[i]@ == key,
{
    table.keys().copied().collect()
}

/// The entries of a mapping without keys.
pub open spec fn no_entries() -> Map<Seq<u8>, Stats> {
    Map::empty()
}

/// The statistic under `key`, or that of no values where `entries` has no
/// such key.
pub open spec fn stats_at(entries: Map<Seq<u8>, Stats>, key: Seq<u8>) -> Stats {
    if entries.contains_key(key) {
        entries[key]
    } else {
        empty_stats()
    }
}

/// Every statistic of the mapping is sound and has seen a value.
pub open spec fn all_sound(entries: Map<Seq<u8>, Stats>) -> bool {
    forall|key: Seq<u8>| #[trigger]
        entries.contains_key(key) ==> entries[key].sound() && entries[key].count >= 1
}

/// `entries` with the statistics of `other` folded in, key by key.
pub open spec fn merged<A: Fn(u64, u64) -> u64>(
    plus: A,
    entries: Map<Seq<u8>, Stats>,
    other: Map<Seq<u8>, Stats>,
) -> Map<Seq<u8>, Stats> {
    Map::new(
        |key: Seq<u8>| entries.contains_key(key) || other.contains_key(key),
        |key: Seq<u8>|
            if other.contains_key(key) {
                folded(plus, stats_at(entries, key), other[key])
            } else {
                entries[key]
            },
    )
}

/// No key of `entries` and `other` has more values in both than a count
/// can hold.
pub open spec fn counts_fit(entries: Map<Seq<u8>, Stats>, other: Map<Seq<u8>, Stats>) -> bool {
    forall|key: Seq<u8>| #[trigger]
        other.contains_key(key) ==> stats_at(entries, key).count + other[key].count <= u64::MAX
}

/// A mapping from keys to statistics. A key is a byte string that the
/// mapping borrows.
pub struct Mapping<'a> {
    table: HashMap<&'a [u8], Stats, FxBuildHasher>,
}

impl<'a> View for Mapping<'a> {
    type V = Map<Seq<u8>, Stats>;

    closed spec fn view(&self) -> Map<Seq<u8>, Stats> {
        table_entries(self.table)
    }
}

impl<'a> Mapping<'a> {
    /// A mapping without keys.
    pub fn new() -> (mapping: Mapping<'a>)
        ensures
            mapping@ == no_entries(),
    {
        Mapping { table: table_new() }
    }

    /// The statistic of `key`, if the mapping has that key.
    pub fn get(&self, key: &[u8]) -> (found: Option<Stats>)
        ensures
            found == if self@.contains_key(key@) {
                Some(self@[key@])
            } else {
                None
            },
    {
        table_get(&self.table, key)
    }

    /// The keys of the mapping, each once, in no stated order.
    pub fn keys(&self) -> (keys: Vec<&'a [u8]>)
        ensures
            forall|i: int| 0 <= i < keys.len() ==> self@.contains_key(#[trigger] keys[i]@),
            forall|i: int, j: int| 0 <= i < j < keys.len() ==> #[trigger] keys[i]@ != #[trigger] keys[j]@,
            forall|key: Seq<u8>| #[trigger]
                self@.contains_key(key) ==> exists|i: int| 0 <= i < keys.len() && #[trigger] keys[i]@ == key,
    {
        table_keys(&self.table)
    }

    /// Whether `other` can be merged into this mapping without a count
    /// that overflows.
    pub fn fits(&self, other: &Mapping<'a>) -> (ok: bool)
        ensures
            ok == counts_fit(self@, other@),
    {
        let keys = other.keys();
        let mut i: usize = 0;
        while i < keys.len()
            invariant
                i <= keys.len(),
                forall|n: int| 0 <= n < keys.len() ==> other@.contains_key(#[trigger] keys[n]@),
                forall|n: int|
                    0 <= n < i ==> stats_at(self@, #[trigger] keys[n]@).count + other@[keys[n]@].count
                        <= u64::MAX,
            decreases keys.len() - i,
        {
            let key = keys[i];
            let mine = match self.get(key) {
                Some(stats) => stats,
                None => Stats::default(),
            };
            let theirs = match other.get(key) {
                Some(stats) => stats,
                None => Stats::default(),
            };
            if mine.count > u64::MAX - theirs.count {
                assert(other@.contains_key(key@));
                return false;
            }
            i += 1;
        }
        proof {
            assert forall|key: Seq<u8>| #[trigger] other@.contains_key(key) implies stats_at(
                self@,
                key,
            ).count + other@[key].count <= u64::MAX by {
                let n = choose|n: int| 0 <= n < keys.len() && #[trigger] keys[n]@ == key;
                assert(keys[n]@ == key);
            }
        }
        true
    }

    /// Takes `value` into the statistic of `key`, which starts as that of
    /// no values where the key is new.
    pub fn record<A: Fn(u64, u64) -> u64>(&mut self, key: &'a [u8], value: u64, plus: &A)
        requires
            adds(*plus),
            stats_at(old(self)@, key@).count < u64::MAX,
        ensures
            final(self)@ == old(self)@.insert(key@, observed(*plus, stats_at(old(self)@, key@), value)),
    {
        let mut stats = match table_get(&self.table, key) {
            Some(stats) => stats,
            None => Stats::default(),
        };
        stats.add(value, plus);
        table_insert(&mut self.table, key, stats);
    }

    /// Folds `other` into the statistic of `key`, which starts as that of no
    /// values where the key is new.
    pub fn absorb<A: Fn(u64, u64) -> u64>(&mut self, key: &'a [u8], other: &Stats, plus: &A)
        requires
            adds(*plus),
            stats_at(old(self)@, key@).count + other.count <= u64::MAX,
        ensures
            final(self)@ == old(self)@.insert(key@, folded(*plus, stats_at(old(self)@, key@), *other)),
    {
        let mut stats = match table_get(&self.table, key) {
            Some(stats) => stats,
            None => Stats::default(),
        };
        stats.fold(other, plus);
        table_insert(&mut self.table, key, stats);
    }
}

/// Merges `b` into `a`: every key of `b` has its statistic folded into that
/// of the same key in `a`, and the other keys of `a` stay as they are.
pub fn reduce<'a, A: Fn(u64, u64) -> u64>(a: &mut Mapping<'a>, b: &Mapping<'a>, plus: &A)
    requires
        adds(*plus),
        counts_fit(old(a)@, b@),
    ensures
        final(a)@ == merged(*plus, old(a)@, b@),
{
    let keys = b.keys();
    let ghost start = a@;
    let mut i: usize = 0;
    while i < keys.len()
        invariant
            adds(*plus),
            counts_fit(start, b@),
            i <= keys.len(),
            forall|n: int| 0 <= n < keys.len() ==> b@.contains_key(#[trigger] keys[n]@),
            forall|n: int, m: int| 0 <= n < m < keys.len() ==> #[trigger] keys[n]@ != #[trigger] keys[m]@,
            forall|key: Seq<u8>| #[trigger]
                a@.contains_key(key) <==> start.contains_key(key) || exists|n: int|
                    0 <= n < i && #[trigger] keys[n]@ == key,
            forall|n: int|
                0 <= n < i ==> a@[#[trigger] keys[n]@] == folded(*plus, stats_at(start, keys[n]@), b@[keys[n]@]),
            forall|key: Seq<u8>|
                a@.contains_key(key) && !(exists|n: int| 0 <= n < i && #[trigger] keys[n]@ == key)
                    ==> #[trigger] a@[key] == start[key],
            forall|n: int| i <= n < keys.len() ==> stats_at(a@, #[trigger] keys[n]@) == stats_at(start, keys[n]@),
        decreases keys.len() - i,
    {
        let key = keys[i];
        let ghost before = a@;
        match b.get(key) {
            Some(stats) => {
                a.absorb(key, &stats, plus);
            },
            None => {},
        }
        proof {
            assert(b@.contains_key(keys[i as int]@));
            assert(a@ == before.insert(key@, folded(*plus, stats_at(start, key@), b@[key@])));
            assert forall|k: Seq<u8>| #[trigger]
                a@.contains_key(k) <==> start.contains_key(k) || exists|n: int|
                    0 <= n < i + 1 && #[trigger] keys[n]@ == k by {
                if k == key@ {
                    assert(keys[i as int]@ == k);
                } else if exists|n: int| 0 <= n < i + 1 && #[trigger] keys[n]@ == k {
                    let n = choose|n: int| 0 <= n < i + 1 && #[trigger] keys[n]@ == k;
                    assert(0 <= n < i && keys[n]@ == k);
                }
            }
            assert forall|k: Seq<u8>|
                a@.contains_key(k) && !(exists|n: int| 0 <= n < i + 1 && #[trigger] keys[n]@ == k)
                    implies #[trigger] a@[k] == start[k] by {
                assert(k != key@) by {
                    if k == key@ {
                        assert(keys[i as int]@ == k);
                    }
                }
                if exists|n: int| 0 <= n < i && #[trigger] keys[n]@ == k {
                    let n = choose|n: int| 0 <= n < i && #[trigger] keys[n]@ == k;
                    assert(0 <= n < i + 1 && keys[n]@ == k);
                }
            }
        }
        i += 1;
    }
    proof {
        let goal = merged(*plus, start, b@);
        assert forall|k: Seq<u8>| a@.contains_key(k) <==> goal.contains_key(k) by {
            if b@.contains_key(k) {
                let n = choose|n: int| 0 <= n < keys.len() && #[trigger] keys[n]@ == k;
                assert(keys[n]@ == k);
            }
            if exists|n: int| 0 <= n < i && #[trigger] keys[n]@ == k {
                let n = choose|n: int| 0 <= n < i && #[trigger] keys[n]@ == k;
                assert(b@.contains_key(keys[n]@));
            }
        }
        assert forall|k: Seq<u8>| a@.contains_key(k) implies a@[k] == goal[k] by {
            if b@.contains_key(k) {
                let n = choose|n: int| 0 <= n < keys.len() && #[trigger] keys[n]@ == k;
                assert(a@[keys[n]@] == folded(*plus, stats_at(start, keys[n]@), b@[keys[n]@]));
            } else {
                if exists|n: int| 0 <= n < i && #[trigger] keys[n]@ == k {
                    let n = choose|n: int| 0 <= n < i && #[trigger] keys[n]@ == k;
                    assert(b@.contains_key(keys[n]@));
                }
            }
        }
        assert(a@ =~= goal);
    }
}

} // verus!
