//! Segments: one interval paired with one stored value.

use vstd::prelude::*;

use crate::interval::Interval;

verus! {

/// The product of two stored values with `i64` wrapping semantics.  For
/// factors whose mathematical product fits in `i64` this is that product
/// (see [`lemma_wrapping_product_in_range`]).
pub open spec fn wrapping_product(a: i64, b: i64) -> i64 {
    vstd::wrapping::i64_specs::wrapping_mul(a, b)
}

/// For factors whose mathematical product lies within `i64`'s range, the
/// wrapped product is exactly that product.
pub proof fn lemma_wrapping_product_in_range(a: i64, b: i64)
    requires
        i64::MIN <= a * b <= i64::MAX,
    ensures
        wrapping_product(a, b) == a * b,
{
    let m: int = 0x1_0000_0000_0000_0000;
    if a * b >= 0 {
        vstd::arithmetic::div_mod::lemma_small_mod((a * b) as nat, m as nat);
    } else {
        vstd::arithmetic::div_mod::lemma_mod_sub_multiples_vanish(a * b, m);
        vstd::arithmetic::div_mod::lemma_small_mod((a * b + m) as nat, m as nat);
    }
}

/// A segment: one interval of the domain carrying one value.  Immutable
/// once constructed; transformations produce a new segment.
#[derive(Debug, Copy, Clone, PartialEq, Eq, Structural)]
pub struct ValueOverInterval {
    /// the interval over which the value applies
    pub interval: Interval,
    /// the value carried over the interval
    pub value: i64,
}

impl ValueOverInterval {
    /// Create a new segment.  No validation is performed.
    pub fn new(interval: Interval, value: i64) -> (r: ValueOverInterval)
        ensures
            r.interval == interval,
            r.value == value,
    {
        ValueOverInterval { interval, value }
    }

    /// An immutable reference to the interval.
    pub fn interval(&self) -> (r: &Interval)
        ensures
            *r == self.interval,
    {
        &self.interval
    }

    /// An immutable reference to the value.
    pub fn value(&self) -> (r: &i64)
        ensures
            *r == self.value,
    {
        &self.value
    }

    /// A new segment with the same interval and the value multiplied by
    /// `factor` (wrapping on overflow).
    pub fn scale(&self, factor: i64) -> (r: ValueOverInterval)
        ensures
            r.interval == self.interval,
            r.value == wrapping_product(self.value, factor),
    {
        ValueOverInterval { interval: self.interval, value: self.value.wrapping_mul(factor) }
    }
}

} // verus!
