//! Binary64 values as bit patterns, and their order.
//!
//! A value is the 64 bits of an IEEE-754 double: one sign bit, eleven
//! exponent bits, fifty-two fraction bits. Its order can be read off the
//! bits with integer comparisons alone.

use vstd::prelude::*;

verus! {

/// The sign bit.
pub const SIGN: u64 = 0x8000_0000_0000_0000;

/// The magnitude of an infinity; larger magnitudes are not numbers.
pub const INFINITE: u64 = 0x7FF0_0000_0000_0000;

/// The largest finite value.
pub const LARGEST: u64 = 0x7FEF_FFFF_FFFF_FFFF;

/// The smallest finite value, the negative of the largest.
pub const SMALLEST: u64 = 0xFFEF_FFFF_FFFF_FFFF;

/// Positive zero.
pub const ZERO: u64 = 0;

/// The bits without the sign.
pub open spec fn magnitude(bits: u64) -> int {
    if bits >= SIGN {
        bits - SIGN
    } else {
        bits as int
    }
}

/// The value is neither an infinity nor a NaN.
pub open spec fn finite(bits: u64) -> bool {
    magnitude(bits) < INFINITE
}

/// The value is not a number.
pub open spec fn is_nan(bits: u64) -> bool {
    magnitude(bits) > INFINITE
}

/// An integer that orders the numbers as the values are ordered. Both
/// zeros have rank 0.
pub open spec fn rank(bits: u64) -> int {
    if bits >= SIGN {
        -magnitude(bits)
    } else {
        magnitude(bits)
    }
}

/// `a < b` as binary64 compares: false where either is a NaN.
pub open spec fn less(a: u64, b: u64) -> bool {
    !is_nan(a) && !is_nan(b) && rank(a) < rank(b)
}

/// `a == b` as binary64 compares: the two zeros are equal, a NaN equals
/// nothing.
pub open spec fn same(a: u64, b: u64) -> bool {
    !is_nan(a) && !is_nan(b) && rank(a) == rank(b)
}

/// The first of `a` and `b` unless the second is less.
pub open spec fn lesser(a: u64, b: u64) -> u64 {
    if less(b, a) {
        b
    } else {
        a
    }
}

/// The first of `a` and `b` unless the second is greater.
pub open spec fn greater(a: u64, b: u64) -> u64 {
    if less(a, b) {
        b
    } else {
        a
    }
}

/// Whether the value is finite.
pub fn is_finite(bits: u64) -> (r: bool)
    ensures
        r == finite(bits),
{
    let m = if bits >= SIGN {
        bits - SIGN
    } else {
        bits
    };
    m < INFINITE
}

/// Whether `a < b` as binary64 compares.
pub fn is_less(a: u64, b: u64) -> (r: bool)
    ensures
        r == less(a, b),
{
    let ma = if a >= SIGN {
        a - SIGN
    } else {
        a
    };
    let mb = if b >= SIGN {
        b - SIGN
    } else {
        b
    };
    if ma > INFINITE || mb > INFINITE {
        false
    } else if a >= SIGN {
        if b >= SIGN {
            mb < ma
        } else {
            ma > 0 || mb > 0
        }
    } else {
        b < SIGN && ma < mb
    }
}

/// Among numbers `less` is a strict weak order: irreflexive, transitive,
/// and transitive in its negation.
pub proof fn lemma_less_orders(a: u64, b: u64, c: u64)
    requires
        !is_nan(a),
        !is_nan(b),
        !is_nan(c),
    ensures
        !less(a, a),
        less(a, b) && less(b, c) ==> less(a, c),
        !less(a, b) && !less(b, c) ==> !less(a, c),
        less(a, b) || less(b, a) || same(a, b),
{
}

/// The lesser of two numbers is one of them and no greater than either;
/// taking it is associative, and commutative up to the sign of a zero.
pub proof fn lemma_lesser(a: u64, b: u64, c: u64)
    requires
        !is_nan(a),
        !is_nan(b),
        !is_nan(c),
    ensures
        lesser(a, b) == a || lesser(a, b) == b,
        !less(a, lesser(a, b)) && !less(b, lesser(a, b)),
        lesser(lesser(a, b), c) == lesser(a, lesser(b, c)),
        same(lesser(a, b), lesser(b, a)),
{
}

/// The greater of two numbers is one of them and no less than either;
/// taking it is associative, and commutative up to the sign of a zero.
pub proof fn lemma_greater(a: u64, b: u64, c: u64)
    requires
        !is_nan(a),
        !is_nan(b),
        !is_nan(c),
    ensures
        greater(a, b) == a || greater(a, b) == b,
        !less(greater(a, b), a) && !less(greater(a, b), b),
        greater(greater(a, b), c) == greater(a, greater(b, c)),
        same(greater(a, b), greater(b, a)),
{
}

} // verus!
