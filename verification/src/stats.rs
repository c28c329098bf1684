//! The running statistic of one key.

use vstd::prelude::*;
use crate::bytes::append;
use crate::ops::{adds, mean_of, mean_value, means, show_value, shown, shows, sum_of, summed};
use crate::reading::{
    finite, greater, is_less, lemma_greater, lemma_lesser, lesser, rank, same, LARGEST, SMALLEST, ZERO,
};

verus! {

/// Minimum, maximum, sum and number of the values seen for one key. The
/// three values are binary64 bit patterns.
#[derive(Clone, Copy, Debug, PartialEq, Eq, Structural)]
pub struct Stats {
    pub min: u64,
    pub max: u64,
    pub sum: u64,
    pub count: u64,
}

/// `/`, which stands between two numbers.
pub const SLASH: u8 = 47;

/// The statistic of no values: the minimum is the largest finite value, the
/// maximum the smallest, the sum zero.
pub open spec fn empty_stats() -> Stats {
    Stats { min: LARGEST, max: SMALLEST, sum: ZERO, count: 0 }
}

/// `stats` after one more value.
pub open spec fn observed<A: Fn(u64, u64) -> u64>(plus: A, stats: Stats, value: u64) -> Stats {
    Stats {
        min: lesser(stats.min, value),
        max: greater(stats.max, value),
        sum: summed(plus, stats.sum, value),
        count: (stats.count + 1) as u64,
    }
}

/// `stats` after the values of `other`.
pub open spec fn folded<A: Fn(u64, u64) -> u64>(plus: A, stats: Stats, other: Stats) -> Stats {
    Stats {
        min: lesser(stats.min, other.min),
        max: greater(stats.max, other.max),
        sum: summed(plus, stats.sum, other.sum),
        count: (stats.count + other.count) as u64,
    }
}

/// The numbers of a statistic as text: minimum, mean and maximum, with a
/// slash between two of them.
pub open spec fn numbers<M: Fn(u64, u64) -> u64, S: Fn(u64) -> Vec<u8>>(
    mean: M,
    show: S,
    stats: Stats,
) -> Seq<u8> {
    shown(show, stats.min) + seq![SLASH] + shown(show, mean_of(mean, stats.sum, stats.count)) + seq![
        SLASH,
    ] + shown(show, stats.max)
}

impl Stats {
    /// Minimum and maximum are finite, and the minimum is no greater than
    /// the maximum once a value has been seen.
    pub open spec fn sound(self) -> bool {
        &&& finite(self.min)
        &&& finite(self.max)
        &&& self.count > 0 ==> rank(self.min) <= rank(self.max)
    }

    /// Takes one more value in.
    pub fn add<A: Fn(u64, u64) -> u64>(&mut self, value: u64, plus: &A)
        requires
            adds(*plus),
            old(self).count < u64::MAX,
        ensures
            *final(self) == observed(*plus, *old(self), value),
    {
        if is_less(value, self.min) {
            self.min = value;
        }
        if is_less(self.max, value) {
            self.max = value;
        }
        self.sum = sum_of(plus, self.sum, value);
        self.count = self.count + 1;
    }

    /// Takes the values of `other` in.
    pub fn fold<A: Fn(u64, u64) -> u64>(&mut self, other: &Stats, plus: &A)
        requires
            adds(*plus),
            old(self).count + other.count <= u64::MAX,
        ensures
            *final(self) == folded(*plus, *old(self), *other),
    {
        if is_less(other.min, self.min) {
            self.min = other.min;
        }
        if is_less(self.max, other.max) {
            self.max = other.max;
        }
        self.sum = sum_of(plus, self.sum, other.sum);
        self.count = self.count + other.count;
    }

    /// The mean: what `mean` gives for the sum and the count.
    pub fn avg<M: Fn(u64, u64) -> u64>(&self, mean: &M) -> (value: u64)
        requires
            means(*mean),
        ensures
            value == mean_of(*mean, self.sum, self.count),
    {
        mean_value(mean, self.sum, self.count)
    }

    /// The statistic as text: `min/mean/max`, each number as `show` writes
    /// it.
    pub fn text<M: Fn(u64, u64) -> u64, S: Fn(u64) -> Vec<u8>>(&self, mean: &M, show: &S) -> (out: Vec<u8>)
        requires
            means(*mean),
            shows(*show),
        ensures
            out@ == numbers(*mean, *show, *self),
    {
        let mut out = show_value(show, self.min);
        out.push(SLASH);
        let middle = show_value(show, self.avg(mean));
        append(&mut out, middle.as_slice());
        out.push(SLASH);
        let high = show_value(show, self.max);
        append(&mut out, high.as_slice());
        proof {
            assert(out@ =~= numbers(*mean, *show, *self));
        }
        out
    }
}

impl Default for Stats {
    fn default() -> (stats: Stats)
        ensures
            stats == empty_stats(),
    {
        Stats { min: LARGEST, max: SMALLEST, sum: ZERO, count: 0 }
    }
}

/// A finite value keeps a sound statistic sound, and afterwards lies
/// between its minimum and its maximum.
pub proof fn lemma_observed_sound<A: Fn(u64, u64) -> u64>(plus: A, stats: Stats, value: u64)
    requires
        stats.sound(),
        finite(value),
        stats.count < u64::MAX,
    ensures
        observed(plus, stats, value).sound(),
        observed(plus, stats, value).count == stats.count + 1,
        rank(observed(plus, stats, value).min) <= rank(value) <= rank(observed(plus, stats, value).max),
        stats.count > 0 ==> rank(observed(plus, stats, value).min) <= rank(stats.min) && rank(stats.max)
            <= rank(observed(plus, stats, value).max),
{
}

/// Folding two sound statistics gives a sound one, with the lesser minimum
/// and the greater maximum.
pub proof fn lemma_folded_sound<A: Fn(u64, u64) -> u64>(plus: A, stats: Stats, other: Stats)
    requires
        stats.sound(),
        other.sound(),
        stats.count + other.count <= u64::MAX,
    ensures
        folded(plus, stats, other).sound(),
        folded(plus, stats, other).count == stats.count + other.count,
{
}

/// The first value seen is minimum and maximum at once.
pub proof fn lemma_first_value<A: Fn(u64, u64) -> u64>(plus: A, value: u64)
    requires
        finite(value),
    ensures
        same(observed(plus, empty_stats(), value).min, value),
        same(observed(plus, empty_stats(), value).max, value),
        observed(plus, empty_stats(), value).count == 1,
{
}

/// Folding into the statistic of no values gives the other statistic's
/// minimum, maximum and count.
pub proof fn lemma_fold_into_empty<A: Fn(u64, u64) -> u64>(plus: A, other: Stats)
    requires
        other.sound(),
    ensures
        same(folded(plus, empty_stats(), other).min, other.min),
        same(folded(plus, empty_stats(), other).max, other.max),
        folded(plus, empty_stats(), other).count == other.count,
        other.count > 0 ==> folded(plus, empty_stats(), other).min == other.min && folded(
            plus,
            empty_stats(),
            other,
        ).max == other.max,
{
}

/// Folding is commutative in minimum, maximum and count: the two orders
/// give equal numbers (they may differ in the sign of a zero).
pub proof fn lemma_fold_commutes<A: Fn(u64, u64) -> u64>(plus: A, a: Stats, b: Stats)
    requires
        a.sound(),
        b.sound(),
    ensures
        same(folded(plus, a, b).min, folded(plus, b, a).min),
        same(folded(plus, a, b).max, folded(plus, b, a).max),
        folded(plus, a, b).count == folded(plus, b, a).count,
{
    lemma_lesser(a.min, b.min, a.min);
    lemma_greater(a.max, b.max, a.max);
}

/// Folding is associative in minimum, maximum and count.
pub proof fn lemma_fold_associates<A: Fn(u64, u64) -> u64>(plus: A, a: Stats, b: Stats, c: Stats)
    requires
        a.sound(),
        b.sound(),
        c.sound(),
        a.count + b.count + c.count <= u64::MAX,
    ensures
        folded(plus, folded(plus, a, b), c).min == folded(plus, a, folded(plus, b, c)).min,
        folded(plus, folded(plus, a, b), c).max == folded(plus, a, folded(plus, b, c)).max,
        folded(plus, folded(plus, a, b), c).count == folded(plus, a, folded(plus, b, c)).count,
{
    lemma_lesser(a.min, b.min, c.min);
    lemma_greater(a.max, b.max, c.max);
}

} // verus!
